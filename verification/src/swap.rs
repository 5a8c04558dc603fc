//! The swap and revert engines.
//!
//! Swapping a working file renames it aside under the fixed suffix and copies
//! its counterpart in from the source directory; reverting deletes the
//! swapped-in copy and renames the aside copy back. Each file is handled
//! independently, and a batch stops at the first failure, leaving the files
//! already handled as they are.
use vstd::prelude::*;

use crate::FswapError;
use crate::fswap_suffix;
use crate::fs::{map_wf, Fs, Node, NodeView};
use crate::pathspec::{dot, is_root_key, join_sp, last_slash, parent_key, seq_contains, seq_ends_with, valid_key};
use crate::pathspec::{lemma_append_suffix, lemma_last_slash};
use crate::scan::{filter_view, find_files_with, scan_matches};
use crate::strutil::{_strip_suffix_from_pathbuf, append_to_pathbuf, check_valid_key,
    combine_string_vecs, contains_str, join_key};

verus! {

/// How one file fared in a swap batch.
#[derive(Clone, Copy, Debug, PartialEq, Eq, Structural)]
pub enum SwapOutcome {
    /// The file was renamed aside and the source copy swapped in.
    Swapped,
    /// An aside copy already existed and overwriting was not allowed; the
    /// file was left alone and the batch went on.
    SkippedExisting,
}

/// The key of the aside copy of `f`: the same path with the suffix appended.
pub open spec fn aside_key(f: Seq<char>) -> Seq<char> {
    f + fswap_suffix()
}

/// What `swap_one` decides, in the order the checks are made. The working
/// file must be a regular file of the tree and its counterpart must exist
/// under the source directory; an existing aside copy is only overwritten
/// when overwriting was allowed, and an aside path held by a directory cannot
/// be overwritten at all.
pub open spec fn swap_one_spec(
    m: Map<Seq<char>, NodeView>,
    f: Seq<char>,
    sd: Seq<char>,
    allow_overwrite: bool,
) -> Result<SwapOutcome, FswapError> {
    if !m.contains_key(f) {
        Err(FswapError::NotFound)
    } else if !(m[f] is File) {
        Err(FswapError::NotAFile)
    } else if !(m.contains_key(join_sp(sd, f)) && m[join_sp(sd, f)] is File) {
        Err(FswapError::SourceFileMissing)
    } else if m.contains_key(aside_key(f)) && !allow_overwrite {
        Ok(SwapOutcome::SkippedExisting)
    } else if m.contains_key(aside_key(f)) && m[aside_key(f)] is Dir {
        Err(FswapError::NotAFile)
    } else {
        Ok(SwapOutcome::Swapped)
    }
}

/// The tree after a completed swap of `f`: the old working copy now sits
/// under the aside key, and the working key holds the source content.
pub open spec fn swap_one_map(m: Map<Seq<char>, NodeView>, f: Seq<char>, sd: Seq<char>) -> Map<
    Seq<char>,
    NodeView,
> {
    m.insert(aside_key(f), m[f]).insert(f, m[join_sp(sd, f)])
}

/// Swaps one working file: renames it to its aside key, then copies the
/// source counterpart in under the working key.
pub fn swap_one(
    fs: &mut Fs,
    working_file: &String,
    source_dir: &String,
    allow_overwrite: bool,
) -> (r: Result<SwapOutcome, FswapError>)
    requires
        old(fs).wf(),
    ensures
        final(fs).wf(),
        (match r {
            Ok(o) => swap_one_spec(old(fs)@, working_file@, source_dir@, allow_overwrite) == Ok::<
                SwapOutcome,
                FswapError,
            >(o) && (o is Swapped ==> final(fs)@ == swap_one_map(
                old(fs)@,
                working_file@,
                source_dir@,
            )) && (o is SkippedExisting ==> final(fs)@ == old(fs)@),
            Err(e) => swap_one_spec(old(fs)@, working_file@, source_dir@, allow_overwrite) == Err::<
                SwapOutcome,
                FswapError,
            >(e) && final(fs)@ == old(fs)@,
        }),
{
    let content: Vec<u8> = match fs.get(working_file) {
        None => {
            return Err(FswapError::NotFound);
        },
        Some(n) => match n {
            Node::Dir => {
                return Err(FswapError::NotAFile);
            },
            Node::File(c) => c.clone(),
        },
    };
    proof {
        assert(content@ =~= old(fs)@[working_file@]->File_0);
    }
    let src_file = join_key(source_dir, working_file.as_str());
    let src_content: Vec<u8> = match fs.get(&src_file) {
        None => {
            return Err(FswapError::SourceFileMissing);
        },
        Some(n) => match n {
            Node::Dir => {
                return Err(FswapError::SourceFileMissing);
            },
            Node::File(c) => c.clone(),
        },
    };
    proof {
        assert(src_content@ =~= old(fs)@[src_file@]->File_0);
    }
    let aside = append_to_pathbuf(working_file, ".fswap");
    let aside_present = fs.contains(&aside);
    if aside_present && !allow_overwrite {
        return Ok(SwapOutcome::SkippedExisting);
    }
    if aside_present && fs.is_dir(&aside) {
        return Err(FswapError::NotAFile);
    }
    let ghost m0 = fs@;
    let ghost f = working_file@;
    proof {
        fs.lemma_wf();
        assert(valid_key(f));
        assert(f != dot());
        lemma_append_suffix(f);
        assert(aside@ == aside_key(f));
        reveal_strlit(".fswap");
        assert(aside@.len() == f.len() + 6);
        assert(aside@ != f);
        // The parent directory of the working file, which is also the parent
        // of its aside key, stays in place throughout.
        if !is_root_key(f) {
            assert(m0.contains_key(parent_key(f)) && m0[parent_key(f)] is Dir);
        } else {
            // `f` is `..`, whose parent key is the current directory.
            reveal_strlit("..");
            lemma_last_slash(f);
            if last_slash(f) >= 0 {
                assert(f[last_slash(f)] == '/');
                assert(f[0] == '.' && f[1] == '.');
                assert(false);
            }
            assert(parent_key(f) == dot());
        }
        assert(parent_key(f) != f && parent_key(f) != aside@);
    }
    fs.remove_node(working_file);
    if aside_present {
        fs.set_file(&aside, content);
    } else {
        fs.insert_node(&aside, Node::File(content));
    }
    fs.insert_node(working_file, Node::File(src_content));
    proof {
        assert(fs@ =~~= swap_one_map(m0, f, source_dir@));
    }
    Ok(SwapOutcome::Swapped)
}

/// What `revert_one` decides, in the order the checks are made. The aside
/// copy must exist as a regular file; the restored path must be a canonical
/// key and must not currently be held by a directory.
pub open spec fn revert_one_spec(m: Map<Seq<char>, NodeView>, f: Seq<char>) -> Result<
    (),
    FswapError,
> {
    if !(m.contains_key(aside_key(f)) && m[aside_key(f)] is File) {
        Err(FswapError::NotFound)
    } else if !valid_key(f) {
        Err(FswapError::InvalidPath)
    } else if m.contains_key(f) && m[f] is Dir {
        Err(FswapError::NotAFile)
    } else {
        Ok(())
    }
}

/// The tree after a completed revert of `f`: the aside key is gone and the
/// working key holds what the aside copy held.
pub open spec fn revert_one_map(m: Map<Seq<char>, NodeView>, f: Seq<char>) -> Map<
    Seq<char>,
    NodeView,
> {
    m.remove(aside_key(f)).insert(f, m[aside_key(f)])
}

/// Reverts one file: deletes the swapped-in working copy if it is present,
/// then renames the aside copy back to the working key.
pub fn revert_one(fs: &mut Fs, working_file: &String) -> (r: Result<(), FswapError>)
    requires
        old(fs).wf(),
    ensures
        final(fs).wf(),
        (match r {
            Ok(u) => revert_one_spec(old(fs)@, working_file@) == Ok::<(), FswapError>(u)
                && final(fs)@ == revert_one_map(old(fs)@, working_file@),
            Err(e) => revert_one_spec(old(fs)@, working_file@) == Err::<(), FswapError>(e)
                && final(fs)@ == old(fs)@,
        }),
{
    let aside = append_to_pathbuf(working_file, ".fswap");
    let content: Vec<u8> = match fs.get(&aside) {
        None => {
            return Err(FswapError::NotFound);
        },
        Some(n) => match n {
            Node::Dir => {
                return Err(FswapError::NotFound);
            },
            Node::File(c) => c.clone(),
        },
    };
    proof {
        assert(content@ =~= old(fs)@[aside@]->File_0);
    }
    if !check_valid_key(working_file) {
        return Err(FswapError::InvalidPath);
    }
    if fs.is_dir(working_file) {
        return Err(FswapError::NotAFile);
    }
    let ghost m0 = fs@;
    let ghost f = working_file@;
    proof {
        fs.lemma_wf();
        assert(f != dot()) by {
            if f == dot() {
                assert(m0.contains_key(dot()) && m0[dot()] is Dir);
            }
        }
        lemma_append_suffix(f);
        assert(aside@ == aside_key(f));
        reveal_strlit(".fswap");
        assert(aside@.len() == f.len() + 6);
        assert(aside@ != f);
        assert(!is_root_key(aside@));
        assert(m0.contains_key(parent_key(aside@)) && m0[parent_key(aside@)] is Dir);
        assert(parent_key(f) == parent_key(aside@));
        assert(parent_key(f) != f && parent_key(f) != aside@);
    }
    if fs.contains(working_file) {
        fs.remove_node(working_file);
    }
    fs.remove_node(&aside);
    fs.insert_node(working_file, Node::File(content));
    proof {
        assert(fs@ =~~= revert_one_map(m0, f));
    }
    Ok(())
}

/// Law: on a well-formed tree that holds the working file and its source
/// counterpart and no aside copy yet, a swap followed by a revert of the same
/// file succeeds and restores the tree exactly as it was: the working file
/// holds its old content again and no suffixed file is left behind.
pub proof fn lemma_swap_then_revert(
    m: Map<Seq<char>, NodeView>,
    f: Seq<char>,
    sd: Seq<char>,
    allow_overwrite: bool,
)
    requires
        map_wf(m),
        m.contains_key(f) && m[f] is File,
        m.contains_key(join_sp(sd, f)) && m[join_sp(sd, f)] is File,
        !m.contains_key(aside_key(f)),
    ensures
        swap_one_spec(m, f, sd, allow_overwrite) == Ok::<SwapOutcome, FswapError>(
            SwapOutcome::Swapped,
        ),
        revert_one_spec(swap_one_map(m, f, sd), f) == Ok::<(), FswapError>(()),
        revert_one_map(swap_one_map(m, f, sd), f) == m,
{
    let m1 = swap_one_map(m, f, sd);
    assert(valid_key(f));
    assert(f != aside_key(f)) by {
        reveal_strlit(".fswap");
        assert(aside_key(f).len() == f.len() + 6);
    }
    assert(join_sp(sd, f) != aside_key(f));
    assert(m1.contains_key(aside_key(f)) && m1[aside_key(f)] == m[f]);
    assert(m1.contains_key(f) && m1[f] == m[join_sp(sd, f)]);
    assert(revert_one_spec(m1, f) == Ok::<(), FswapError>(()));
    assert(revert_one_map(m1, f) =~~= m);
}

/// The tree and outcome after the first `n` files of a batch have been
/// swapped: each file in turn, stopping at the first failure and leaving the
/// earlier swaps in place.
pub open spec fn swap_batch(
    m: Map<Seq<char>, NodeView>,
    files: Seq<String>,
    sd: Seq<char>,
    allow_overwrite: bool,
    n: int,
) -> (Map<Seq<char>, NodeView>, Result<(), FswapError>)
    decreases n,
{
    if n <= 0 {
        (m, Ok(()))
    } else {
        let prev = swap_batch(m, files, sd, allow_overwrite, n - 1);
        if prev.1 is Err {
            prev
        } else {
            match swap_one_spec(prev.0, files[n - 1]@, sd, allow_overwrite) {
                Ok(SwapOutcome::Swapped) => (swap_one_map(prev.0, files[n - 1]@, sd), Ok(())),
                Ok(SwapOutcome::SkippedExisting) => (prev.0, Ok(())),
                Err(e) => (prev.0, Err(e)),
            }
        }
    }
}

/// What a whole swap command does to the tree: the marker is read and decoded,
/// the source directory it names must exist, and then the files are swapped
/// one by one, failing fast.
pub open spec fn cmd_swap_spec(
    m: Map<Seq<char>, NodeView>,
    files: Seq<String>,
    allow_overwrite: bool,
) -> (Map<Seq<char>, NodeView>, Result<(), FswapError>) {
    match crate::link::read_link_spec(m, dot()) {
        Err(e) => (m, Err(e)),
        Ok(sd) => if !m.contains_key(sd) {
            (m, Err(FswapError::SourceMissing))
        } else {
            swap_batch(m, files, sd, allow_overwrite, files.len() as int)
        },
    }
}

/// Swaps the given working files in from the linked source directory of the
/// current directory: reads the marker, checks the source directory exists,
/// and swaps each file in turn. The first failure aborts the batch, leaving
/// the files already swapped as they are.
pub fn cmd_swap(fs: &mut Fs, files: &Vec<String>, allow_overwrite: bool) -> (r: Result<
    (),
    FswapError,
>)
    requires
        old(fs).wf(),
    ensures
        final(fs).wf(),
        final(fs)@ == cmd_swap_spec(old(fs)@, files@, allow_overwrite).0,
        r == cmd_swap_spec(old(fs)@, files@, allow_overwrite).1,
{
    let cwd = String::from_str(".");
    let sd = match crate::link::read_link(fs, &cwd) {
        Err(e) => {
            return Err(e);
        },
        Ok(sd) => sd,
    };
    if !fs.contains(&sd) {
        return Err(FswapError::SourceMissing);
    }
    let ghost m0 = fs@;
    let ghost sdv = sd@;
    let mut i: usize = 0;
    while i < files.len()
        invariant
            fs.wf(),
            0 <= i <= files@.len(),
            sd@ == sdv,
            m0 == old(fs)@,
            crate::link::read_link_spec(m0, dot()) == Ok::<Seq<char>, FswapError>(sdv),
            m0.contains_key(sdv),
            fs@ == swap_batch(m0, files@, sdv, allow_overwrite, i as int).0,
            swap_batch(m0, files@, sdv, allow_overwrite, i as int).1 is Ok,
        decreases files@.len() - i,
    {
        let f = &files[i];
        match swap_one(fs, f, &sd, allow_overwrite) {
            Ok(_) => {
                proof {
                    assert(fs@ == swap_batch(m0, files@, sdv, allow_overwrite, i + 1).0);
                }
            },
            Err(e) => {
                proof {
                    assert(fs@ == swap_batch(m0, files@, sdv, allow_overwrite, i + 1).0);
                    assert(swap_batch(m0, files@, sdv, allow_overwrite, i + 1).1 == Err::<
                        (),
                        FswapError,
                    >(e));
                    lemma_batch_err_stable(m0, files@, sdv, allow_overwrite, i + 1,
                        files@.len() as int);
                }
                return Err(e);
            },
        }
        i += 1;
    }
    Ok(())
}

/// Once a batch has failed, later files leave the tree and the error alone.
proof fn lemma_batch_err_stable(
    m: Map<Seq<char>, NodeView>,
    files: Seq<String>,
    sd: Seq<char>,
    allow_overwrite: bool,
    n: int,
    n2: int,
)
    requires
        0 <= n <= n2,
        swap_batch(m, files, sd, allow_overwrite, n).1 is Err,
    ensures
        swap_batch(m, files, sd, allow_overwrite, n2) == swap_batch(
            m,
            files,
            sd,
            allow_overwrite,
            n,
        ),
    decreases n2 - n,
{
    if n2 > n {
        lemma_batch_err_stable(m, files, sd, allow_overwrite, n, n2 - 1);
    }
}

/// The tree and outcome after the first `n` files of a revert batch.
pub open spec fn revert_batch(
    m: Map<Seq<char>, NodeView>,
    files: Seq<String>,
    n: int,
) -> (Map<Seq<char>, NodeView>, Result<(), FswapError>)
    decreases n,
{
    if n <= 0 {
        (m, Ok(()))
    } else {
        let prev = revert_batch(m, files, n - 1);
        if prev.1 is Err {
            prev
        } else {
            match revert_one_spec(prev.0, files[n - 1]@) {
                Ok(u) => (revert_one_map(prev.0, files[n - 1]@), Ok(())),
                Err(e) => (prev.0, Err(e)),
            }
        }
    }
}

/// What a whole revert command does to the tree: the marker must be present,
/// and then the files are reverted one by one, failing fast.
pub open spec fn cmd_revert_spec(m: Map<Seq<char>, NodeView>, files: Seq<String>) -> (
    Map<Seq<char>, NodeView>,
    Result<(), FswapError>,
) {
    if !crate::link::marker_present(m, dot()) {
        (m, Err(FswapError::NotLinked))
    } else {
        revert_batch(m, files, files.len() as int)
    }
}

/// Reverts the given working files in the current directory: requires the
/// marker to be present, then reverts each file in turn. The first failure
/// aborts the batch, leaving the files already reverted as they are.
pub fn cmd_revert(fs: &mut Fs, files: &Vec<String>) -> (r: Result<(), FswapError>)
    requires
        old(fs).wf(),
    ensures
        final(fs).wf(),
        final(fs)@ == cmd_revert_spec(old(fs)@, files@).0,
        r == cmd_revert_spec(old(fs)@, files@).1,
{
    let cwd = String::from_str(".");
    let marker = join_key(&cwd, ".fswap");
    if !fs.is_file(&marker) {
        return Err(FswapError::NotLinked);
    }
    let ghost m0 = fs@;
    let mut i: usize = 0;
    while i < files.len()
        invariant
            fs.wf(),
            0 <= i <= files@.len(),
            m0 == old(fs)@,
            crate::link::marker_present(m0, dot()),
            fs@ == revert_batch(m0, files@, i as int).0,
            revert_batch(m0, files@, i as int).1 is Ok,
        decreases files@.len() - i,
    {
        let f = &files[i];
        match revert_one(fs, f) {
            Ok(_) => {
                proof {
                    assert(fs@ == revert_batch(m0, files@, i + 1).0);
                }
            },
            Err(e) => {
                proof {
                    assert(fs@ == revert_batch(m0, files@, i + 1).0);
                    assert(revert_batch(m0, files@, i + 1).1 == Err::<(), FswapError>(e));
                    lemma_revert_err_stable(m0, files@, i + 1, files@.len() as int);
                }
                return Err(e);
            },
        }
        i += 1;
    }
    Ok(())
}

/// Once a revert batch has failed, later files leave tree and error alone.
proof fn lemma_revert_err_stable(m: Map<Seq<char>, NodeView>, files: Seq<String>, n: int, n2: int)
    requires
        0 <= n <= n2,
        revert_batch(m, files, n).1 is Err,
    ensures
        revert_batch(m, files, n2) == revert_batch(m, files, n),
    decreases n2 - n,
{
    if n2 > n {
        lemma_revert_err_stable(m, files, n, n2 - 1);
    }
}

/// A candidate working file for a bulk swap below `root`: any regular file of
/// the tree there whose path does not contain the suffix.
pub open spec fn swap_candidate(
    m: Map<Seq<char>, NodeView>,
    root: Seq<char>,
    p: Seq<char>,
) -> bool {
    scan_matches(m, root, Seq::empty(), p) && !seq_contains(p, fswap_suffix())
}

/// The list `v` holds every bulk-swap candidate below `root`, exactly once.
pub open spec fn bulk_list_post(m: Map<Seq<char>, NodeView>, root: Seq<char>, v: Vec<String>) -> bool {
    &&& forall|a: int| 0 <= a < v@.len() ==> #[trigger] swap_candidate(m, root, v@[a]@)
    &&& forall|p: Seq<char>|
        #[trigger] swap_candidate(m, root, p) ==> exists|a: int| 0 <= a < v@.len() && v@[a]@ == p
    &&& forall|a: int, b: int| 0 <= a < b < v@.len() ==> v@[a]@ != v@[b]@
}

/// What a bulk file set below `root` reports: nothing at all only when there
/// is no candidate, else every candidate exactly once.
pub open spec fn bulk_post(
    m: Map<Seq<char>, NodeView>,
    root: Seq<char>,
    opt: Option<Vec<String>>,
) -> bool {
    match opt {
        None => forall|p: Seq<char>| !scan_matches(m, root, Seq::empty(), p),
        Some(v) => bulk_list_post(m, root, v),
    }
}

/// What a recursive file set over the argument directories reports: it fails
/// only when some argument is not a directory of the tree, reports nothing
/// only when some argument directory holds no file at all, and otherwise
/// holds every candidate of every argument directory.
pub open spec fn rec_post(
    m: Map<Seq<char>, NodeView>,
    args: Seq<String>,
    r: Result<Option<Vec<String>>, FswapError>,
) -> bool {
    &&& (r is Err ==> r->Err_0 == FswapError::Unreadable && (exists|j: int|
        0 <= j < args.len() && !(m.contains_key(#[trigger] args[j]@) && m[args[j]@] is Dir)))
    &&& ((forall|j: int|
        0 <= j < args.len() ==> m.contains_key(#[trigger] args[j]@) && m[args[j]@] is Dir) ==> r
        is Ok)
    &&& (r matches Ok(opt) ==> match opt {
        None => exists|j: int|
            0 <= j < args.len() && (forall|p: Seq<char>|
                !scan_matches(m, #[trigger] args[j]@, Seq::empty(), p)),
        Some(v) => rec_list_post(m, args, v),
    })
}

/// The path `p` is a regular file below one of the argument directories.
pub open spec fn sourced_below(m: Map<Seq<char>, NodeView>, args: Seq<String>, p: Seq<char>) -> bool {
    exists|j: int| 0 <= j < args.len() && scan_matches(m, args[j]@, Seq::empty(), p)
}

/// The list `v` holds, for each argument directory, every bulk-swap candidate
/// below it; every listed path is an unsuffixed file of one of them.
pub open spec fn rec_list_post(m: Map<Seq<char>, NodeView>, args: Seq<String>, v: Vec<String>) -> bool {
    &&& forall|a: int| 0 <= a < v@.len() ==> !seq_contains(#[trigger] v@[a]@, fswap_suffix())
    &&& forall|a: int| 0 <= a < v@.len() ==> #[trigger] sourced_below(m, args, v@[a]@)
    &&& forall|j: int, p: Seq<char>|
        0 <= j < args.len() && #[trigger] swap_candidate(m, args[j]@, p) ==> exists|a: int|
            0 <= a < v@.len() && v@[a]@ == p
}

/// Packaging lemma: the three reported facts make a bulk file set report.
proof fn lemma_bulk_post_some(m: Map<Seq<char>, NodeView>, root: Seq<char>, out: Vec<String>)
    requires
        forall|a: int| 0 <= a < out@.len() ==> #[trigger] swap_candidate(m, root, out@[a]@),
        forall|p: Seq<char>|
            #[trigger] swap_candidate(m, root, p) ==> exists|a: int|
                0 <= a < out@.len() && out@[a]@ == p,
        forall|a: int, b: int| 0 <= a < b < out@.len() ==> out@[a]@ != out@[b]@,
    ensures
        bulk_post(m, root, Some(out)),
{
}

/// Packaging lemma: the two reported facts make a recursive file set report.
proof fn lemma_rec_post_some(m: Map<Seq<char>, NodeView>, args: Seq<String>, out: Vec<String>)
    requires
        forall|a: int| 0 <= a < out@.len() ==> !seq_contains(#[trigger] out@[a]@, fswap_suffix()),
        forall|a: int| 0 <= a < out@.len() ==> #[trigger] sourced_below(m, args, out@[a]@),
        forall|j: int, p: Seq<char>|
            0 <= j < args.len() && #[trigger] swap_candidate(m, args[j]@, p) ==> exists|a: int|
                0 <= a < out@.len() && out@[a]@ == p,
    ensures
        rec_post(m, args, Ok(Some(out))),
{
    assert(rec_list_post(m, args, out));
}

/// Keeps the paths that do not contain the suffix anywhere; every kept path
/// satisfies whatever held of all inputs.
fn filter_unsuffixed(v: &Vec<String>, pred: Ghost<spec_fn(Seq<char>) -> bool>) -> (r: Vec<String>)
    requires
        forall|i: int| 0 <= i < v@.len() ==> pred@(#[trigger] v@[i]@),
    ensures
        forall|a: int|
            0 <= a < r@.len() ==> pred@(#[trigger] r@[a]@) && !seq_contains(r@[a]@, fswap_suffix()),
        forall|i: int|
            0 <= i < v@.len() && !seq_contains(#[trigger] v@[i]@, fswap_suffix()) ==> exists|a: int|
                0 <= a < r@.len() && r@[a]@ == v@[i]@,
        (forall|i: int, x: int| 0 <= i < x < v@.len() ==> v@[i]@ != v@[x]@) ==> (forall|
            a: int,
            b: int,
        |
            0 <= a < b < r@.len() ==> r@[a]@ != r@[b]@),
{
    let ghost vdis = forall|i: int, x: int| 0 <= i < x < v@.len() ==> v@[i]@ != v@[x]@;
    let mut r: Vec<String> = Vec::new();
    let mut i: usize = 0;
    while i < v.len()
        invariant
            0 <= i <= v@.len(),
            forall|i2: int| 0 <= i2 < v@.len() ==> pred@(#[trigger] v@[i2]@),
            vdis == (forall|i2: int, x: int| 0 <= i2 < x < v@.len() ==> v@[i2]@ != v@[x]@),
            forall|a: int|
                0 <= a < r@.len() ==> pred@(#[trigger] r@[a]@) && !seq_contains(
                    r@[a]@,
                    fswap_suffix(),
                ) && exists|i2: int| 0 <= i2 < i && v@[i2]@ == r@[a]@,
            forall|i2: int|
                0 <= i2 < i && !seq_contains(#[trigger] v@[i2]@, fswap_suffix()) ==> exists|a: int|
                    0 <= a < r@.len() && r@[a]@ == v@[i2]@,
            vdis ==> (forall|a: int, b: int| 0 <= a < b < r@.len() ==> r@[a]@ != r@[b]@),
        decreases v@.len() - i,
    {
        let ghost oldr = r@;
        if !contains_str(&v[i], ".fswap") {
            proof {
                if vdis {
                    assert forall|a: int| 0 <= a < oldr.len() implies oldr[a]@ != v@[i as int]@ by {
                        let i2 = choose|i2: int| 0 <= i2 < i && v@[i2]@ == oldr[a]@;
                        assert(v@[i2]@ != v@[i as int]@);
                    }
                }
            }
            r.push(v[i].clone());
            proof {
                assert forall|i2: int|
                    0 <= i2 < i + 1 && !seq_contains(
                        #[trigger] v@[i2]@,
                        fswap_suffix(),
                    ) implies exists|a: int| 0 <= a < r@.len() && r@[a]@ == v@[i2]@ by {
                    if i2 == i {
                        assert(r@[r@.len() - 1]@ == v@[i2]@);
                    } else {
                        let a = choose|a: int| 0 <= a < oldr.len() && oldr[a]@ == v@[i2]@;
                        assert(r@[a]@ == v@[i2]@);
                    }
                }
            }
        }
        i += 1;
    }
    r
}

/// The bulk file set below the current directory: every unsuffixed regular
/// file, or nothing at all.
#[verifier::rlimit(100)]
fn all_targets(fs: &Fs) -> (r: Option<Vec<String>>)
    requires
        fs.wf(),
    ensures
        bulk_post(fs@, dot(), r),
{
    let dots = String::from_str(".");
    match find_files_with(fs, &dots, None) {
        Err(_) => {
            proof {
                fs.lemma_wf();
                assert(fs@.contains_key(dots@) && fs@[dots@] is Dir);
                assert(false);
            }
            None
        },
        Ok(None) => {
            proof {
                assert forall|p: Seq<char>| !scan_matches(fs@, dot(), Seq::empty(), p) by {
                    if scan_matches(fs@, dot(), Seq::empty(), p) {
                        assert(scan_matches(fs@, dots@, filter_view(None), p));
                        assert(false);
                    }
                }
                assert(bulk_post(fs@, dot(), None));
            }
            None
        },
        Ok(Some(v)) => {
            proof {
                assert forall|i: int| 0 <= i < v@.len() implies scan_matches(
                    fs@,
                    dot(),
                    Seq::empty(),
                    #[trigger] v@[i]@,
                ) by {
                    assert(scan_matches(fs@, dots@, filter_view(None), v@[i]@));
                }
            }
            let ghost pr = (|p: Seq<char>| scan_matches(fs@, dot(), Seq::empty(), p));
            let out = filter_unsuffixed(&v, Ghost(pr));
            proof {
                assert forall|a: int| 0 <= a < out@.len() implies #[trigger] swap_candidate(
                    fs@,
                    dot(),
                    out@[a]@,
                ) by {
                    assert(pr(out@[a]@));
                    assert(scan_matches(fs@, dot(), Seq::empty(), out@[a]@));
                }
                assert forall|p: Seq<char>|
                    #[trigger] swap_candidate(fs@, dot(), p) implies exists|a: int|
                    0 <= a < out@.len() && out@[a]@ == p by {
                    assert(scan_matches(fs@, dots@, filter_view(None), p));
                    let i = choose|i: int| 0 <= i < v@.len() && v@[i]@ == p;
                    assert(!seq_contains(v@[i]@, fswap_suffix()));
                }
                assert(forall|i: int, x: int| 0 <= i < x < v@.len() ==> v@[i]@ != v@[x]@);
                lemma_bulk_post_some(fs@, dot(), out);
            }
            Some(out)
        },
    }
}

/// The bulk file set below each of the given directories: every unsuffixed
/// regular file there, stopping early with "no files" as soon as one
/// directory yields nothing, and failing when one cannot be scanned.
#[verifier::rlimit(100)]
fn recursive_targets(fs: &Fs, args: &Vec<String>) -> (r: Result<Option<Vec<String>>, FswapError>)
    requires
        fs.wf(),
    ensures
        rec_post(fs@, args@, r),
{
    let ghost pr = (|p: Seq<char>| sourced_below(fs@, args@, p));
    let mut acc: Vec<String> = Vec::new();
    let mut j: usize = 0;
    while j < args.len()
        invariant
            fs.wf(),
            0 <= j <= args@.len(),
            pr == (|p: Seq<char>| sourced_below(fs@, args@, p)),
            forall|x: int| 0 <= x < acc@.len() ==> #[trigger] sourced_below(fs@, args@, acc@[x]@),
            forall|j2: int, p: Seq<char>|
                0 <= j2 < j && #[trigger] scan_matches(fs@, args@[j2]@, Seq::empty(), p)
                    ==> exists|x: int| 0 <= x < acc@.len() && acc@[x]@ == p,
        decreases args@.len() - j,
    {
        let ghost oldacc = acc@;
        match find_files_with(fs, &args[j], None) {
            Err(e) => {
                proof {
                    assert(rec_post(fs@, args@, Err::<Option<Vec<String>>, FswapError>(e)));
                }
                return Err(e);
            },
            Ok(None) => {
                proof {
                    assert forall|p: Seq<char>|
                        !scan_matches(fs@, args@[j as int]@, Seq::empty(), p) by {
                        if scan_matches(fs@, args@[j as int]@, Seq::empty(), p) {
                            assert(scan_matches(fs@, args@[j as int]@, filter_view(None), p));
                            assert(false);
                        }
                    }
                    assert(rec_post(
                        fs@,
                        args@,
                        Ok::<Option<Vec<String>>, FswapError>(None),
                    ));
                }
                return Ok(None);
            },
            Ok(Some(v)) => {
                acc = combine_string_vecs(&acc, &v);
                proof {
                    assert(acc@.len() == oldacc.len() + v@.len());
                    assert forall|x: int| 0 <= x < acc@.len() implies #[trigger] sourced_below(
                        fs@,
                        args@,
                        acc@[x]@,
                    ) by {
                        if x < oldacc.len() {
                            assert(acc@[x]@ == oldacc[x]@);
                            assert(sourced_below(fs@, args@, oldacc[x]@));
                        } else {
                            assert(acc@[x]@ == v@[x - oldacc.len()]@);
                            assert(scan_matches(
                                fs@,
                                args@[j as int]@,
                                filter_view(None),
                                v@[x - oldacc.len()]@,
                            ));
                            assert(j < args@.len());
                            assert(scan_matches(
                                fs@,
                                args@[j as int]@,
                                Seq::empty(),
                                acc@[x]@,
                            ));
                        }
                    }
                    assert forall|j2: int, p: Seq<char>|
                        0 <= j2 < j + 1 && #[trigger] scan_matches(
                            fs@,
                            args@[j2]@,
                            Seq::empty(),
                            p,
                        ) implies exists|x: int| 0 <= x < acc@.len() && acc@[x]@ == p by {
                        if j2 == j {
                            assert(scan_matches(fs@, args@[j as int]@, filter_view(None), p));
                            let i = choose|i: int| 0 <= i < v@.len() && v@[i]@ == p;
                            assert(acc@[oldacc.len() + i]@ == p);
                        } else {
                            let x = choose|x: int| 0 <= x < oldacc.len() && oldacc[x]@ == p;
                            assert(acc@[x]@ == p);
                        }
                    }
                }
            },
        }
        j += 1;
    }
    proof {
        assert forall|x: int| 0 <= x < acc@.len() implies pr(#[trigger] acc@[x]@) by {
            assert(sourced_below(fs@, args@, acc@[x]@));
        }
    }
    let out = filter_unsuffixed(&acc, Ghost(pr));
    proof {
        assert forall|a: int|
            0 <= a < out@.len() implies !seq_contains(#[trigger] out@[a]@, fswap_suffix()) by {}
        assert forall|a: int| 0 <= a < out@.len() implies #[trigger] sourced_below(
            fs@,
            args@,
            out@[a]@,
        ) by {
            assert(pr(out@[a]@));
        }
        assert forall|j2: int, p: Seq<char>|
            0 <= j2 < args@.len() && #[trigger] swap_candidate(fs@, args@[j2]@, p) implies exists|
            a: int,
        | 0 <= a < out@.len() && out@[a]@ == p by {
            let x = choose|x: int| 0 <= x < acc@.len() && acc@[x]@ == p;
        }
        lemma_rec_post_some(fs@, args@, out);
    }
    Ok(Some(out))
}

/// Resolves the file set of a swap batch, as the options ask: the explicit
/// arguments; with `all`, every unsuffixed regular file below the current
/// directory; with `recursive`, every unsuffixed regular file below each of
/// the argument directories, in the order found, stopping early with "no
/// files" as soon as one directory yields nothing.
#[verifier::rlimit(100)]
pub fn swap_targets(fs: &Fs, all: bool, recursive: bool, args: &Vec<String>) -> (r: Result<
    Option<Vec<String>>,
    FswapError,
>)
    requires
        fs.wf(),
    ensures
        !all && !recursive ==> (r matches Ok(opt) && opt matches Some(v) && v.deep_view()
            == args.deep_view()),
        all ==> r is Ok && (r matches Ok(opt) ==> bulk_post(fs@, dot(), opt)),
        !all && recursive ==> rec_post(fs@, args@, r),
{
    if all {
        Ok(all_targets(fs))
    } else if recursive {
        recursive_targets(fs, args)
    } else {
        let out = combine_string_vecs(&Vec::new(), args);
        proof {
            assert(out.deep_view() =~= args.deep_view());
        }
        Ok(Some(out))
    }
}

/// The text `k` with the suffix removed from its end.
pub open spec fn strip_sfx(k: Seq<char>) -> Seq<char> {
    k.subrange(0, k.len() - fswap_suffix().len())
}

/// A scan hit that recovers an original path: it truly ends with the suffix,
/// and what remains is a nonempty path not ending in a separator.
pub open spec fn strippable(k: Seq<char>) -> bool {
    &&& seq_ends_with(k, fswap_suffix())
    &&& k.len() > fswap_suffix().len()
    &&& k[k.len() - fswap_suffix().len() - 1] != '/'
}

/// Stripping the suffix undoes appending it, and appending undoes stripping.
pub proof fn lemma_aside_strip(k: Seq<char>)
    requires
        seq_ends_with(k, fswap_suffix()),
    ensures
        aside_key(strip_sfx(k)) == k,
{
    reveal_strlit(".fswap");
    assert(aside_key(strip_sfx(k)) =~= k) by {
        let n = k.len() as int;
        let m = fswap_suffix().len() as int;
        assert forall|i: int| n - m <= i < n implies k[i] == fswap_suffix()[i - (n - m)] by {
            assert(k.subrange(n - m, n)[i - (n - m)] == fswap_suffix()[i - (n - m)]);
        }
    }
}

pub proof fn lemma_strip_aside(f: Seq<char>)
    ensures
        strip_sfx(aside_key(f)) == f,
        seq_ends_with(aside_key(f), fswap_suffix()),
        aside_key(f).len() == f.len() + fswap_suffix().len(),
{
    reveal_strlit(".fswap");
    assert(strip_sfx(aside_key(f)) =~= f);
    assert(aside_key(f).subrange(
        f.len() as int,
        f.len() as int + fswap_suffix().len() as int,
    ) =~= fswap_suffix());
}

/// A candidate for a bulk revert below `root`: a path whose aside copy is a
/// scan hit for the suffix there, and which itself is a nonempty path not
/// ending in a separator.
pub open spec fn revert_candidate(
    m: Map<Seq<char>, NodeView>,
    root: Seq<char>,
    f: Seq<char>,
) -> bool {
    &&& scan_matches(m, root, fswap_suffix(), aside_key(f))
    &&& f.len() > 0
    &&& f[f.len() - 1] != '/'
}

/// The path `f` is a revert candidate below one of the argument directories.
pub open spec fn revert_sourced(
    m: Map<Seq<char>, NodeView>,
    args: Seq<String>,
    f: Seq<char>,
) -> bool {
    exists|j: int| 0 <= j < args.len() && revert_candidate(m, args[j]@, f)
}

/// The list `v` holds every revert candidate below `root`, exactly once.
pub open spec fn revert_list_post(
    m: Map<Seq<char>, NodeView>,
    root: Seq<char>,
    v: Vec<String>,
) -> bool {
    &&& forall|a: int| 0 <= a < v@.len() ==> #[trigger] revert_candidate(m, root, v@[a]@)
    &&& forall|f: Seq<char>|
        #[trigger] revert_candidate(m, root, f) ==> exists|a: int|
            0 <= a < v@.len() && v@[a]@ == f
    &&& forall|a: int, b: int| 0 <= a < b < v@.len() ==> v@[a]@ != v@[b]@
}

/// What a bulk revert set below `root` reports: nothing only when no file
/// below `root` contains the suffix at all, else every candidate exactly
/// once.
pub open spec fn revert_bulk_post(
    m: Map<Seq<char>, NodeView>,
    root: Seq<char>,
    opt: Option<Vec<String>>,
) -> bool {
    match opt {
        None => forall|p: Seq<char>| !scan_matches(m, root, fswap_suffix(), p),
        Some(v) => revert_list_post(m, root, v),
    }
}

/// Strips the suffix from each scan hit, dropping hits that merely contain
/// it and hits that strip to an empty path or one ending in a separator;
/// every kept path's aside key satisfies whatever held of all inputs.
fn strip_hits(v: &Vec<String>, pred: Ghost<spec_fn(Seq<char>) -> bool>) -> (r: Vec<String>)
    requires
        forall|i: int| 0 <= i < v@.len() ==> pred@(#[trigger] v@[i]@),
    ensures
        forall|a: int|
            0 <= a < r@.len() ==> pred@(aside_key(#[trigger] r@[a]@)) && r@[a]@.len() > 0
                && r@[a]@[r@[a]@.len() - 1] != '/',
        forall|i: int|
            0 <= i < v@.len() && #[trigger] strippable(v@[i]@) ==> exists|a: int|
                0 <= a < r@.len() && aside_key(r@[a]@) == v@[i]@,
        (forall|i: int, x: int| 0 <= i < x < v@.len() ==> v@[i]@ != v@[x]@) ==> (forall|
            a: int,
            b: int,
        |
            0 <= a < b < r@.len() ==> r@[a]@ != r@[b]@),
{
    let ghost vdis = forall|i: int, x: int| 0 <= i < x < v@.len() ==> v@[i]@ != v@[x]@;
    let mut r: Vec<String> = Vec::new();
    let mut i: usize = 0;
    while i < v.len()
        invariant
            0 <= i <= v@.len(),
            forall|i2: int| 0 <= i2 < v@.len() ==> pred@(#[trigger] v@[i2]@),
            vdis == (forall|i2: int, x: int| 0 <= i2 < x < v@.len() ==> v@[i2]@ != v@[x]@),
            forall|a: int|
                0 <= a < r@.len() ==> pred@(aside_key(#[trigger] r@[a]@)) && r@[a]@.len() > 0
                    && r@[a]@[r@[a]@.len() - 1] != '/' && exists|i2: int|
                    0 <= i2 < i && v@[i2]@ == aside_key(r@[a]@),
            forall|i2: int|
                0 <= i2 < i && #[trigger] strippable(v@[i2]@) ==> exists|a: int|
                    0 <= a < r@.len() && aside_key(r@[a]@) == v@[i2]@,
            vdis ==> (forall|a: int, b: int| 0 <= a < b < r@.len() ==> r@[a]@ != r@[b]@),
        decreases v@.len() - i,
    {
        let ghost oldr = r@;
        let stripped = _strip_suffix_from_pathbuf(&v[i], ".fswap");
        match stripped {
            None => {
                proof {
                    assert(!strippable(v@[i as int]@));
                }
            },
            Some(st) => {
                let n2 = st.as_str().unicode_len();
                if n2 > 0 && st.as_str().get_char(n2 - 1) != '/' {
                    proof {
                        lemma_aside_strip(v@[i as int]@);
                        assert(st@ == strip_sfx(v@[i as int]@));
                        assert(aside_key(st@) == v@[i as int]@);
                        assert(strippable(v@[i as int]@)) by {
                            lemma_strip_aside(st@);
                        }
                        if vdis {
                            assert forall|a: int| 0 <= a < oldr.len() implies oldr[a]@
                                != st@ by {
                                let i2 = choose|i2: int|
                                    0 <= i2 < i && v@[i2]@ == aside_key(oldr[a]@);
                                if oldr[a]@ == st@ {
                                    assert(v@[i2]@ == v@[i as int]@);
                                    assert(false);
                                }
                            }
                        }
                    }
                    r.push(st);
                    proof {
                        assert forall|i2: int|
                            0 <= i2 < i + 1 && #[trigger] strippable(v@[i2]@) implies exists|
                            a: int,
                        | 0 <= a < r@.len() && aside_key(r@[a]@) == v@[i2]@ by {
                            if i2 == i {
                                assert(aside_key(r@[r@.len() - 1]@) == v@[i2]@);
                            } else {
                                let a = choose|a: int|
                                    0 <= a < oldr.len() && aside_key(oldr[a]@) == v@[i2]@;
                                assert(aside_key(r@[a]@) == v@[i2]@);
                            }
                        }
                    }
                } else {
                    proof {
                        if strippable(v@[i as int]@) {
                            lemma_aside_strip(v@[i as int]@);
                            assert(st@ == strip_sfx(v@[i as int]@));
                            assert(st@.len() > 0);
                            assert(st@[st@.len() - 1] != '/');
                            assert(false);
                        }
                    }
                }
            },
        }
        i += 1;
    }
    r
}

/// The bulk revert set below the current directory.
#[verifier::rlimit(100)]
fn revert_all_targets(fs: &Fs) -> (r: Option<Vec<String>>)
    requires
        fs.wf(),
    ensures
        revert_bulk_post(fs@, dot(), r),
{
    let dots = String::from_str(".");
    match find_files_with(fs, &dots, Some(".fswap")) {
        Err(_) => {
            proof {
                fs.lemma_wf();
                assert(false);
            }
            None
        },
        Ok(None) => {
            proof {
                assert forall|p: Seq<char>| !scan_matches(fs@, dot(), fswap_suffix(), p) by {
                    if scan_matches(fs@, dot(), fswap_suffix(), p) {
                        assert(scan_matches(fs@, dots@, filter_view(Some(".fswap")), p));
                        assert(false);
                    }
                }
            }
            None
        },
        Ok(Some(v)) => {
            proof {
                assert forall|i: int| 0 <= i < v@.len() implies scan_matches(
                    fs@,
                    dot(),
                    fswap_suffix(),
                    #[trigger] v@[i]@,
                ) by {
                    assert(scan_matches(fs@, dots@, filter_view(Some(".fswap")), v@[i]@));
                }
            }
            let ghost pr = (|p: Seq<char>| scan_matches(fs@, dot(), fswap_suffix(), p));
            let out = strip_hits(&v, Ghost(pr));
            proof {
                assert forall|a: int| 0 <= a < out@.len() implies #[trigger] revert_candidate(
                    fs@,
                    dot(),
                    out@[a]@,
                ) by {
                    assert(pr(aside_key(out@[a]@)));
                }
                assert forall|f: Seq<char>|
                    #[trigger] revert_candidate(fs@, dot(), f) implies exists|a: int|
                    0 <= a < out@.len() && out@[a]@ == f by {
                    assert(scan_matches(fs@, dots@, filter_view(Some(".fswap")), aside_key(f)));
                    let i = choose|i: int| 0 <= i < v@.len() && v@[i]@ == aside_key(f);
                    assert(strippable(v@[i]@)) by {
                        lemma_strip_aside(f);
                    }
                    let a = choose|a: int| 0 <= a < out@.len() && aside_key(out@[a]@) == v@[i]@;
                    assert(out@[a]@ == f) by {
                        lemma_strip_aside(out@[a]@);
                        lemma_strip_aside(f);
                        assert(strip_sfx(aside_key(out@[a]@)) == strip_sfx(aside_key(f)));
                    }
                }
                assert(forall|i: int, x: int| 0 <= i < x < v@.len() ==> v@[i]@ != v@[x]@);
            }
            Some(out)
        },
    }
}

/// The list `v` holds, for each argument directory, every revert candidate
/// below it; every listed path is a revert candidate of one of them.
pub open spec fn revert_rec_list_post(
    m: Map<Seq<char>, NodeView>,
    args: Seq<String>,
    v: Vec<String>,
) -> bool {
    &&& forall|a: int| 0 <= a < v@.len() ==> #[trigger] revert_sourced(m, args, v@[a]@)
    &&& forall|j: int, f: Seq<char>|
        0 <= j < args.len() && #[trigger] revert_candidate(m, args[j]@, f) ==> exists|a: int|
            0 <= a < v@.len() && v@[a]@ == f
}

/// What a recursive revert set over the argument directories reports.
pub open spec fn revert_rec_post(
    m: Map<Seq<char>, NodeView>,
    args: Seq<String>,
    r: Result<Option<Vec<String>>, FswapError>,
) -> bool {
    &&& (r is Err ==> r->Err_0 == FswapError::Unreadable && (exists|j: int|
        0 <= j < args.len() && !(m.contains_key(#[trigger] args[j]@) && m[args[j]@] is Dir)))
    &&& ((forall|j: int|
        0 <= j < args.len() ==> m.contains_key(#[trigger] args[j]@) && m[args[j]@] is Dir) ==> r
        is Ok)
    &&& (r matches Ok(opt) ==> match opt {
        None => exists|j: int|
            0 <= j < args.len() && (forall|p: Seq<char>|
                !scan_matches(m, #[trigger] args[j]@, fswap_suffix(), p)),
        Some(v) => revert_rec_list_post(m, args, v),
    })
}

/// Packaging lemma: the two reported facts make a recursive revert report.
proof fn lemma_revert_rec_post_some(
    m: Map<Seq<char>, NodeView>,
    args: Seq<String>,
    out: Vec<String>,
)
    requires
        forall|a: int| 0 <= a < out@.len() ==> #[trigger] revert_sourced(m, args, out@[a]@),
        forall|j: int, f: Seq<char>|
            0 <= j < args.len() && #[trigger] revert_candidate(m, args[j]@, f) ==> exists|a: int|
                0 <= a < out@.len() && out@[a]@ == f,
    ensures
        revert_rec_post(m, args, Ok(Some(out))),
{
    assert(revert_rec_list_post(m, args, out));
}

/// The recursive revert set below each of the given directories, stopping
/// early with "no files" as soon as one directory yields no suffixed file.
#[verifier::rlimit(100)]
fn revert_recursive_targets(fs: &Fs, args: &Vec<String>) -> (r: Result<
    Option<Vec<String>>,
    FswapError,
>)
    requires
        fs.wf(),
    ensures
        revert_rec_post(fs@, args@, r),
{
    let mut acc: Vec<String> = Vec::new();
    let mut j: usize = 0;
    while j < args.len()
        invariant
            fs.wf(),
            0 <= j <= args@.len(),
            forall|x: int| 0 <= x < acc@.len() ==> #[trigger] revert_sourced(fs@, args@, acc@[x]@),
            forall|j2: int, f: Seq<char>|
                0 <= j2 < j && #[trigger] revert_candidate(fs@, args@[j2]@, f) ==> exists|x: int|
                    0 <= x < acc@.len() && acc@[x]@ == f,
        decreases args@.len() - j,
    {
        let ghost oldacc = acc@;
        match find_files_with(fs, &args[j], Some(".fswap")) {
            Err(e) => {
                proof {
                    assert(revert_rec_post(fs@, args@, Err::<Option<Vec<String>>, FswapError>(e)));
                }
                return Err(e);
            },
            Ok(None) => {
                proof {
                    assert forall|p: Seq<char>|
                        !scan_matches(fs@, args@[j as int]@, fswap_suffix(), p) by {
                        if scan_matches(fs@, args@[j as int]@, fswap_suffix(), p) {
                            assert(scan_matches(
                                fs@,
                                args@[j as int]@,
                                filter_view(Some(".fswap")),
                                p,
                            ));
                            assert(false);
                        }
                    }
                    assert(revert_rec_post(
                        fs@,
                        args@,
                        Ok::<Option<Vec<String>>, FswapError>(None),
                    ));
                }
                return Ok(None);
            },
            Ok(Some(v)) => {
                proof {
                    assert forall|i: int| 0 <= i < v@.len() implies scan_matches(
                        fs@,
                        args@[j as int]@,
                        fswap_suffix(),
                        #[trigger] v@[i]@,
                    ) by {
                        assert(scan_matches(fs@, args@[j as int]@, filter_view(Some(".fswap")), v@[i]@));
                    }
                }
                let ghost prj = (|p: Seq<char>| scan_matches(
                    fs@,
                    args@[j as int]@,
                    fswap_suffix(),
                    p,
                ));
                let stripped = strip_hits(&v, Ghost(prj));
                proof {
                    assert forall|x: int| 0 <= x < stripped@.len() implies #[trigger] revert_candidate(
                        fs@,
                        args@[j as int]@,
                        stripped@[x]@,
                    ) by {
                        assert(prj(aside_key(stripped@[x]@)));
                    }
                }
                acc = combine_string_vecs(&acc, &stripped);
                proof {
                    assert(acc@.len() == oldacc.len() + stripped@.len());
                    assert forall|x: int| 0 <= x < acc@.len() implies #[trigger] revert_sourced(
                        fs@,
                        args@,
                        acc@[x]@,
                    ) by {
                        if x < oldacc.len() {
                            assert(acc@[x]@ == oldacc[x]@);
                            assert(revert_sourced(fs@, args@, oldacc[x]@));
                        } else {
                            assert(acc@[x]@ == stripped@[x - oldacc.len()]@);
                            assert(revert_candidate(fs@, args@[j as int]@, acc@[x]@));
                            assert(j < args@.len());
                        }
                    }
                    assert forall|j2: int, f: Seq<char>|
                        0 <= j2 < j + 1 && #[trigger] revert_candidate(
                            fs@,
                            args@[j2]@,
                            f,
                        ) implies exists|x: int| 0 <= x < acc@.len() && acc@[x]@ == f by {
                        if j2 == j {
                            assert(scan_matches(
                                fs@,
                                args@[j as int]@,
                                filter_view(Some(".fswap")),
                                aside_key(f),
                            ));
                            let i = choose|i: int| 0 <= i < v@.len() && v@[i]@ == aside_key(f);
                            assert(strippable(v@[i]@)) by {
                                lemma_strip_aside(f);
                            }
                            let a = choose|a: int|
                                0 <= a < stripped@.len() && aside_key(stripped@[a]@) == v@[i]@;
                            assert(stripped@[a]@ == f) by {
                                lemma_strip_aside(stripped@[a]@);
                                lemma_strip_aside(f);
                                assert(strip_sfx(aside_key(stripped@[a]@)) == strip_sfx(
                                    aside_key(f),
                                ));
                            }
                            assert(acc@[oldacc.len() + a]@ == f);
                        } else {
                            let x = choose|x: int| 0 <= x < oldacc.len() && oldacc[x]@ == f;
                            assert(acc@[x]@ == f);
                        }
                    }
                }
            },
        }
        j += 1;
    }
    proof {
        lemma_revert_rec_post_some(fs@, args@, acc);
    }
    Ok(Some(acc))
}

/// Resolves the file set of a revert batch, as the options ask: the explicit
/// arguments; with `all`, every suffixed file below the current directory,
/// stripped back to the path it will restore; with `recursive`, the same
/// below each argument directory, stopping early with "no files" as soon as
/// one directory yields nothing.
pub fn revert_targets(fs: &Fs, all: bool, recursive: bool, args: &Vec<String>) -> (r: Result<
    Option<Vec<String>>,
    FswapError,
>)
    requires
        fs.wf(),
    ensures
        !all && !recursive ==> (r matches Ok(opt) && opt matches Some(v) && v.deep_view()
            == args.deep_view()),
        all ==> r is Ok && (r matches Ok(opt) ==> revert_bulk_post(fs@, dot(), opt)),
        !all && recursive ==> revert_rec_post(fs@, args@, r),
{
    if all {
        Ok(revert_all_targets(fs))
    } else if recursive {
        revert_recursive_targets(fs, args)
    } else {
        let out = combine_string_vecs(&Vec::new(), args);
        proof {
            assert(out.deep_view() =~= args.deep_view());
        }
        Ok(Some(out))
    }
}

} // verus!
