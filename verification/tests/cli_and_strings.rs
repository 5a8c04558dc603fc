use fswap::cli::{cmd_help, Opts, UserInput};
use fswap::strutil::{
    _strip_suffix_from_pathbuf, append_to_pathbuf, combine_string_vecs, contains_str, join_key,
};
use fswap::FswapError;

fn s(x: &str) -> String {
    x.to_string()
}

#[test]
fn opts_start_all_off() {
    let o = Opts::new();
    assert!(!o.all && !o.help && !o.noconfirm && !o.recursive && !o.verbose);
}

#[test]
fn short_options_combine_in_one_argument() {
    let o = UserInput::args_to_flags(&vec![s("-anr")]).unwrap();
    assert!(o.all && o.noconfirm && o.recursive);
    assert!(!o.help && !o.verbose);
}

#[test]
fn long_options_are_recognized() {
    let o = UserInput::args_to_flags(&vec![s("--verbose"), s("file.txt"), s("--help")]).unwrap();
    assert!(o.verbose && o.help);
    assert!(!o.all && !o.noconfirm && !o.recursive);
}

#[test]
fn unknown_options_are_rejected() {
    assert_eq!(UserInput::args_to_flags(&vec![s("-z")]).unwrap_err(), FswapError::InvalidOption);
    assert_eq!(UserInput::args_to_flags(&vec![s("--bogus")]).unwrap_err(), FswapError::InvalidOption);
    assert_eq!(UserInput::args_to_flags(&vec![s("--")]).unwrap_err(), FswapError::InvalidOption);
    // A lone dash names no option and is acceptable.
    let o = UserInput::args_to_flags(&vec![s("-")]).unwrap();
    assert!(!o.all && !o.help && !o.noconfirm && !o.recursive && !o.verbose);
}

#[test]
fn strip_opts_keeps_positional_arguments_in_order() {
    let stripped = UserInput::strip_opts_from_args(&vec![s("-v"), s("swap"), s("--all"), s("a.txt"), s("")]);
    assert_eq!(stripped, vec![s("swap"), s("a.txt"), s("")]);
}

#[test]
fn user_input_splits_options_from_arguments() {
    let u = UserInput::new(vec![s("swap"), s("-n"), s("a.txt")]).unwrap();
    assert_eq!(u.args, vec![s("swap"), s("a.txt")]);
    assert_eq!(u.argc, 2);
    assert!(u.opts.noconfirm);
    assert!(!u.opts.all);
    match UserInput::new(vec![s("swap"), s("-q")]) {
        Err(e) => assert_eq!(e, FswapError::InvalidOption),
        Ok(_) => panic!("an unknown option must be rejected"),
    }
}

#[test]
fn next_arg_consumes_from_the_front() {
    let mut u = UserInput::new(vec![s("begin"), s("src"), s("work")]).unwrap();
    assert_eq!(u.next_arg(), Some(s("begin")));
    assert_eq!(u.next_arg(), Some(s("src")));
    assert_eq!(u.next_arg(), Some(s("work")));
    assert_eq!(u.argc, 0);
    assert_eq!(u.next_arg(), None);
}

#[test]
fn help_exists_for_every_command_and_fails_on_unknown() {
    for topic in ["begin", "end", "help", "info", "revert", "swap", "none"] {
        assert!(cmd_help(&s(topic)).is_some(), "no help for {topic}");
    }
    assert!(cmd_help(&s("frobnicate")).is_none());
    assert!(UserInput::usage().contains("fswap"));
}

#[test]
fn append_and_strip_are_inverses_on_the_suffix() {
    let aside = append_to_pathbuf(&s("config.yaml"), ".fswap");
    assert_eq!(aside, s("config.yaml.fswap"));
    assert_eq!(_strip_suffix_from_pathbuf(&aside, ".fswap"), Some(s("config.yaml")));
    assert_eq!(_strip_suffix_from_pathbuf(&s("config.yaml"), ".fswap"), None);
    assert_eq!(_strip_suffix_from_pathbuf(&s("sub/.fswap"), ".fswap"), Some(s("sub/")));
}

#[test]
fn join_key_treats_the_current_directory_specially() {
    assert_eq!(join_key(&s("."), "a.txt"), s("a.txt"));
    assert_eq!(join_key(&s("work"), ".fswap"), s("work/.fswap"));
    assert_eq!(join_key(&s("../src"), "a.txt"), s("../src/a.txt"));
}

#[test]
fn combine_string_vecs_concatenates_in_order() {
    let r = combine_string_vecs(&vec![s("a"), s("b")], &vec![s("b"), s("c")]);
    assert_eq!(r, vec![s("a"), s("b"), s("b"), s("c")]);
    let r = combine_string_vecs(&Vec::new(), &Vec::new());
    assert!(r.is_empty());
}

#[test]
fn contains_str_finds_substrings_anywhere() {
    assert!(contains_str(&s("dir.fswap/file"), ".fswap"));
    assert!(contains_str(&s("a.txt.fswap"), ".fswap"));
    assert!(!contains_str(&s("a.txt"), ".fswap"));
    assert!(contains_str(&s("anything"), ""));
}
