//! Command-line option handling: the recognized flags, the split of raw
//! arguments into options and positional arguments, and the help texts.
use vstd::prelude::*;

use crate::FswapError;
use crate::strutil::eq_str;

verus! {

/// The recognized options of an invocation.
#[derive(Clone, Copy, Debug, PartialEq, Eq, Structural)]
pub struct Opts {
    /// Operate on every discovered file instead of an explicit list.
    pub all: bool,
    /// Print help instead of running a command.
    pub help: bool,
    /// Suppress interactive confirmation before destructive actions.
    pub noconfirm: bool,
    /// Treat positional arguments as directories to search.
    pub recursive: bool,
    /// Report one line per file-level action.
    pub verbose: bool,
}

impl Opts {
    /// All options off.
    pub fn new() -> (r: Opts)
        ensures
            !r.all && !r.help && !r.noconfirm && !r.recursive && !r.verbose,
    {
        Opts { all: false, help: false, noconfirm: false, recursive: false, verbose: false }
    }
}

/// An argument that names options: it starts with `-`.
pub open spec fn is_flag_arg(s: Seq<char>) -> bool {
    s.len() > 0 && s[0] == '-'
}

/// A long option: it starts with `--`.
pub open spec fn is_long_flag(s: Seq<char>) -> bool {
    s.len() >= 2 && s[0] == '-' && s[1] == '-'
}

/// The letters that name options in short form.
pub open spec fn short_char_valid(c: char) -> bool {
    c == 'a' || c == 'h' || c == 'n' || c == 'r' || c == 'v'
}

/// The long spelling of the option named by the letter `c`.
pub open spec fn long_flag_for(c: char) -> Seq<char> {
    if c == 'a' {
        "--all"@
    } else if c == 'h' {
        "--help"@
    } else if c == 'n' {
        "--noconfirm"@
    } else if c == 'r' {
        "--recursive"@
    } else {
        "--verbose"@
    }
}

/// The argument `s` turns the option named by the letter `c` on.
pub open spec fn flag_enables(s: Seq<char>, c: char) -> bool {
    &&& is_flag_arg(s)
    &&& if is_long_flag(s) {
        s == long_flag_for(c)
    } else {
        exists|i: int| 1 <= i < s.len() && s[i] == c
    }
}

/// Some argument of the list turns the option named by `c` on.
pub open spec fn opt_set(args: Seq<String>, c: char) -> bool {
    exists|j: int| 0 <= j < args.len() && flag_enables(#[trigger] args[j]@, c)
}

/// The argument is not an option at all, or is a recognized one.
pub open spec fn valid_flag(s: Seq<char>) -> bool {
    if !is_flag_arg(s) {
        true
    } else if is_long_flag(s) {
        s == "--all"@ || s == "--help"@ || s == "--noconfirm"@ || s == "--recursive"@ || s
            == "--verbose"@
    } else {
        forall|i: int| 1 <= i < s.len() ==> short_char_valid(#[trigger] s[i])
    }
}

/// Whether `arg` is acceptable as an option or positional argument.
fn check_flag(arg: &String) -> (r: bool)
    ensures
        r == valid_flag(arg@),
{
    let n = arg.as_str().unicode_len();
    if n == 0 || arg.as_str().get_char(0) != '-' {
        return true;
    }
    if n >= 2 && arg.as_str().get_char(1) == '-' {
        return eq_str(arg, "--all") || eq_str(arg, "--help") || eq_str(arg, "--noconfirm")
            || eq_str(arg, "--recursive") || eq_str(arg, "--verbose");
    }
    let mut i: usize = 1;
    while i < n
        invariant
            1 <= i <= n,
            n == arg@.len(),
            is_flag_arg(arg@),
            !is_long_flag(arg@),
            forall|k: int| 1 <= k < i ==> short_char_valid(#[trigger] arg@[k]),
        decreases n - i,
    {
        let c = arg.as_str().get_char(i);
        if !(c == 'a' || c == 'h' || c == 'n' || c == 'r' || c == 'v') {
            proof {
                assert(!short_char_valid(arg@[i as int]));
            }
            return false;
        }
        i += 1;
    }
    true
}

/// Whether `arg` turns on the option named by `c`, whose long spelling is
/// `long_name`.
fn arg_enables(arg: &String, c: char, long_name: &str) -> (r: bool)
    requires
        long_name@ == long_flag_for(c),
    ensures
        r == flag_enables(arg@, c),
{
    let n = arg.as_str().unicode_len();
    if n == 0 || arg.as_str().get_char(0) != '-' {
        return false;
    }
    if n >= 2 && arg.as_str().get_char(1) == '-' {
        return eq_str(arg, long_name);
    }
    let mut i: usize = 1;
    while i < n
        invariant
            1 <= i <= n,
            n == arg@.len(),
            is_flag_arg(arg@),
            !is_long_flag(arg@),
            forall|k: int| 1 <= k < i ==> arg@[k] != c,
        decreases n - i,
    {
        if arg.as_str().get_char(i) == c {
            return true;
        }
        i += 1;
    }
    false
}

proof fn lemma_opt_set_step(args: Seq<String>, j: int, c: char)
    requires
        0 <= j < args.len(),
    ensures
        opt_set(args.subrange(0, j + 1), c) == (opt_set(args.subrange(0, j), c) || flag_enables(
            args[j]@,
            c,
        )),
{
    let s1 = args.subrange(0, j + 1);
    let s0 = args.subrange(0, j);
    if opt_set(s1, c) {
        let k = choose|k: int| 0 <= k < s1.len() && flag_enables(s1[k]@, c);
        if k == j {
            assert(s1[k] == args[j]);
        } else {
            assert(s0[k] == s1[k]);
            assert(opt_set(s0, c));
        }
    }
    if opt_set(s0, c) {
        let k = choose|k: int| 0 <= k < s0.len() && flag_enables(s0[k]@, c);
        assert(s1[k] == s0[k]);
        assert(opt_set(s1, c));
    }
    if flag_enables(args[j]@, c) {
        assert(s1[j] == args[j]);
        assert(opt_set(s1, c));
    }
}

/// The positional arguments, in order: everything that does not start `-`.
pub open spec fn non_flag_args(args: Seq<String>) -> Seq<String>
    decreases args.len(),
{
    if args.len() == 0 {
        Seq::empty()
    } else {
        let rest = non_flag_args(args.drop_last());
        if is_flag_arg(args.last()@) {
            rest
        } else {
            rest.push(args.last())
        }
    }
}

/// The parsed invocation: the positional arguments still to be consumed,
/// their count, and the options.
pub struct UserInput {
    pub args: Vec<String>,
    pub argc: usize,
    pub opts: Opts,
}

impl UserInput {
    /// The count always tracks the arguments left.
    pub open spec fn wf(&self) -> bool {
        self.argc == self.args@.len()
    }

    /// Reads the option letters out of the raw arguments, rejecting any argument
    /// that looks like an option but is not a recognized one.
    pub fn args_to_flags(args: &Vec<String>) -> (r: Result<Opts, FswapError>)
        ensures
            r is Err <==> (exists|k: int| 0 <= k < args@.len() && !valid_flag(#[trigger] args@[k]@)),
            r is Err ==> r->Err_0 == FswapError::InvalidOption,
            (r matches Ok(o) ==> {
                &&& o.all == opt_set(args@, 'a')
                &&& o.help == opt_set(args@, 'h')
                &&& o.noconfirm == opt_set(args@, 'n')
                &&& o.recursive == opt_set(args@, 'r')
                &&& o.verbose == opt_set(args@, 'v')
            }),
    {
        let mut o = Opts::new();
        let mut j: usize = 0;
        while j < args.len()
            invariant
                0 <= j <= args@.len(),
                forall|k: int| 0 <= k < j ==> valid_flag(#[trigger] args@[k]@),
                o.all == opt_set(args@.subrange(0, j as int), 'a'),
                o.help == opt_set(args@.subrange(0, j as int), 'h'),
                o.noconfirm == opt_set(args@.subrange(0, j as int), 'n'),
                o.recursive == opt_set(args@.subrange(0, j as int), 'r'),
                o.verbose == opt_set(args@.subrange(0, j as int), 'v'),
            decreases args@.len() - j,
        {
            let arg = &args[j];
            if !check_flag(arg) {
                return Err(FswapError::InvalidOption);
            }
            proof {
                lemma_opt_set_step(args@, j as int, 'a');
                lemma_opt_set_step(args@, j as int, 'h');
                lemma_opt_set_step(args@, j as int, 'n');
                lemma_opt_set_step(args@, j as int, 'r');
                lemma_opt_set_step(args@, j as int, 'v');
            }
            let ea = arg_enables(arg, 'a', "--all");
            let eh = arg_enables(arg, 'h', "--help");
            let en = arg_enables(arg, 'n', "--noconfirm");
            let er = arg_enables(arg, 'r', "--recursive");
            let ev = arg_enables(arg, 'v', "--verbose");
            o.all = o.all || ea;
            o.help = o.help || eh;
            o.noconfirm = o.noconfirm || en;
            o.recursive = o.recursive || er;
            o.verbose = o.verbose || ev;
            j += 1;
        }
        proof {
            assert(args@.subrange(0, args@.len() as int) =~= args@);
        }
        Ok(o)
    }

    /// Keeps the arguments that do not name options.
    pub fn strip_opts_from_args(args: &Vec<String>) -> (r: Vec<String>)
        ensures
            r@ == non_flag_args(args@),
    {
        let mut r: Vec<String> = Vec::new();
        let mut i: usize = 0;
        while i < args.len()
            invariant
                0 <= i <= args@.len(),
                r@ == non_flag_args(args@.subrange(0, i as int)),
            decreases args@.len() - i,
        {
            let arg = &args[i];
            let n = arg.as_str().unicode_len();
            let keep = n == 0 || arg.as_str().get_char(0) != '-';
            proof {
                assert(keep == !is_flag_arg(arg@));
                assert(args@.subrange(0, i + 1).drop_last() =~= args@.subrange(0, i as int));
                assert(args@.subrange(0, i + 1).last() == args@[i as int]);
            }
            if keep {
                r.push(arg.clone());
            }
            i += 1;
        }
        proof {
            assert(args@.subrange(0, args@.len() as int) =~= args@);
        }
        r
    }

    /// Parses the raw arguments of an invocation, the program name already
    /// removed: splits options from positional arguments, rejecting an
    /// unrecognized option.
    pub fn new(args_in: Vec<String>) -> (r: Result<UserInput, FswapError>)
        ensures
            r is Err <==> (exists|k: int|
                0 <= k < args_in@.len() && !valid_flag(#[trigger] args_in@[k]@)),
            r is Err ==> r->Err_0 == FswapError::InvalidOption,
            (r matches Ok(u) ==> {
                &&& u.wf()
                &&& u.args@ == non_flag_args(args_in@)
                &&& u.opts.all == opt_set(args_in@, 'a')
                &&& u.opts.help == opt_set(args_in@, 'h')
                &&& u.opts.noconfirm == opt_set(args_in@, 'n')
                &&& u.opts.recursive == opt_set(args_in@, 'r')
                &&& u.opts.verbose == opt_set(args_in@, 'v')
            }),
    {
        let opts = match Self::args_to_flags(&args_in) {
            Err(e) => {
                return Err(e);
            },
            Ok(o) => o,
        };
        let args = Self::strip_opts_from_args(&args_in);
        let argc = args.len();
        Ok(UserInput { args, argc, opts })
    }

    /// Takes the next positional argument, if one is left.
    pub fn next_arg(&mut self) -> (r: Option<String>)
        requires
            old(self).wf(),
        ensures
            final(self).wf(),
            old(self).argc == 0 ==> r is None && *final(self) == *old(self),
            old(self).argc > 0 ==> (r matches Some(s) && s == old(self).args@[0]
                && final(self).args@ == old(self).args@.subrange(
                1,
                old(self).args@.len() as int,
            ) && final(self).argc == old(self).argc - 1 && final(self).opts == old(self).opts),
    {
        if self.argc < 1 {
            return None;
        }
        self.argc = self.argc - 1;
        let s = self.args.remove(0);
        proof {
            assert(self.args@ =~= old(self).args@.subrange(1, old(self).args@.len() as int));
        }
        Some(s)
    }

    /// The one-line usage reminder.
    pub fn usage() -> (r: String)
        ensures
            r@ == "Usage: fswap [COMMAND] [OPTIONS...] [ARGUMENTS...]\nSee 'fswap help' for more information."@,
    {
        String::from_str(
            "Usage: fswap [COMMAND] [OPTIONS...] [ARGUMENTS...]\nSee 'fswap help' for more information.",
        )
    }
}

/// The help topics that exist: each command, and `none` for the overview.
pub open spec fn help_topic_known(t: Seq<char>) -> bool {
    t == "begin"@ || t == "end"@ || t == "help"@ || t == "info"@ || t == "revert"@ || t
        == "swap"@ || t == "none"@
}

/// The help text for a command, or for the overview under the topic `none`;
/// nothing for an unknown topic, which the caller reports as an error.
pub fn cmd_help(topic: &String) -> (r: Option<String>)
    ensures
        r is Some <==> help_topic_known(topic@),
{
    if eq_str(topic, "begin") {
        Some(String::from_str(
            "Usage: fswap begin [SOURCE DIR] [FSWAP DIR]\nCreates .fswap file linking SOURCE DIR and FSWAP DIR.",
        ))
    } else if eq_str(topic, "end") {
        Some(String::from_str(
            "Usage: fswap end [FSWAP DIR]\nDeletes .fswap file, and ALL swapped files. Does not revert changes before doing so.",
        ))
    } else if eq_str(topic, "help") {
        Some(String::from_str(
            "Usage: fswap help [COMMAND]\nPrints a brief description of what COMMAND does.",
        ))
    } else if eq_str(topic, "info") {
        Some(String::from_str("Usage: fswap info [FSWAP DIR]\nPrints all swapped files."))
    } else if eq_str(topic, "revert") {
        Some(String::from_str(
            "Usage: fswap revert [FILES...]\nReverts a swapped file to it's original state (e.g. file.fswap -> file).",
        ))
    } else if eq_str(topic, "swap") {
        Some(String::from_str(
            "Usage: fswap swap [FILES...]\nIf they both exist, swaps a file from SOURCE DIR to FSWAP DIR, and saves the swapped file.",
        ))
    } else if eq_str(topic, "none") {
        Some(String::from_str(
            "Usage: fswap [COMMAND] [OPTIONS...] [ARGUMENTS...]\n\nNOTE: FSWAP DIR is an optional argument, and defaults to the current working directory.\n\nCOMMANDS\n  b[egin]   [SOURCE DIR] [FSWAP DIR]    creates .fswap file linking SOURCE_DIR and FSWAP DIR\n  e[nd]     [FSWAP DIR]                 deletes .fswap file, and ALL swapped files\n  i[nfo]    [FSWAP DIR]                 prints all swapped files\n  r[evert]  [FILES...]                  reverts a swapped file to it's original state (e.g. file.fswap -> file)\n  s[wap]    [FILES...]                  if they both exist, swaps a file from SOURCE DIR to FSWAP DIR, and saves the swapped file\n\nOPTIONS\n  -a, --all          do command to all files in fswap directory\n  -h, --help         print this help, or help of another command\n  -n, --noconfirm    will not ask for confirmation to overwrite files\n  -r, --recursive    do command to all files in directory\n  -v, --verbose      prints everything given command does",
        ))
    } else {
        None
    }
}

} // verus!
