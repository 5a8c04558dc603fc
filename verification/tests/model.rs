use fswap::fs::{Fs, Node};
use fswap::link::{cmd_begin, cmd_end, cmd_info, read_link};
use fswap::swap::{cmd_revert, cmd_swap, revert_one, revert_targets, swap_one, swap_targets, SwapOutcome};
use fswap::scan::find_files_with;
use fswap::FswapError;

fn s(x: &str) -> String {
    x.to_string()
}

fn file_content(fs: &Fs, k: &str) -> Option<Vec<u8>> {
    match fs.get(&s(k)) {
        Some(Node::File(c)) => Some(c.clone()),
        _ => None,
    }
}

fn add_dir(fs: &mut Fs, k: &str) {
    assert!(fs.add_dir(&s(k)), "could not add directory {k}");
}

fn add_file(fs: &mut Fs, k: &str, content: &[u8]) {
    assert!(fs.add_file(&s(k), content.to_vec()), "could not add file {k}");
}

/// The working tree of one invocation run from inside the working directory:
/// the marker points at `../../src`, with `a.txt` differing between the two.
fn linked_tree() -> Fs {
    let mut fs = Fs::new();
    add_file(&mut fs, "a.txt", b"original");
    add_dir(&mut fs, "..");
    add_dir(&mut fs, "../..");
    add_dir(&mut fs, "../../src");
    add_file(&mut fs, "../../src/a.txt", b"new");
    add_file(&mut fs, ".fswap", b"../../src");
    fs
}

#[test]
fn begin_writes_relative_path_marker() {
    // From a directory holding `work`, with the source tree a sibling of it.
    let mut fs = Fs::new();
    add_dir(&mut fs, "work");
    add_file(&mut fs, "work/a.txt", b"original");
    add_dir(&mut fs, "..");
    add_dir(&mut fs, "../src");
    add_file(&mut fs, "../src/a.txt", b"new");
    let rel = cmd_begin(&mut fs, &s("../src"), &s("work")).expect("begin should succeed");
    // The marker holds the path from `work` to `../src`, which resolves back
    // to the source directory; this is what the outside path arithmetic
    // computes for these two directories.
    let expected = pathdiff::diff_paths("../src", "work").unwrap();
    assert_eq!(rel, expected.to_str().unwrap());
    assert_eq!(rel, "../../src");
    assert_eq!(file_content(&fs, "work/.fswap"), Some(b"../../src".to_vec()));
}

#[test]
fn begin_same_directory_is_rejected() {
    let mut fs = Fs::new();
    add_dir(&mut fs, "work");
    let r = cmd_begin(&mut fs, &s("work"), &s("work"));
    assert_eq!(r.unwrap_err(), FswapError::SameDirectory);
    assert!(file_content(&fs, "work/.fswap").is_none());
}

#[test]
fn begin_missing_directory_is_rejected() {
    let mut fs = Fs::new();
    add_dir(&mut fs, "work");
    let r = cmd_begin(&mut fs, &s("gone"), &s("work"));
    assert_eq!(r.unwrap_err(), FswapError::NotFound);
}

#[test]
fn begin_file_as_directory_is_rejected() {
    let mut fs = Fs::new();
    add_dir(&mut fs, "work");
    add_file(&mut fs, "plain", b"x");
    let r = cmd_begin(&mut fs, &s("plain"), &s("work"));
    assert_eq!(r.unwrap_err(), FswapError::NotADirectory);
}

#[test]
fn begin_twice_leaves_existing_marker_unmodified() {
    let mut fs = Fs::new();
    add_dir(&mut fs, "work");
    add_dir(&mut fs, "src");
    cmd_begin(&mut fs, &s("src"), &s("work")).expect("first begin should succeed");
    let before = file_content(&fs, "work/.fswap");
    let r = cmd_begin(&mut fs, &s("src"), &s("work"));
    assert_eq!(r.unwrap_err(), FswapError::AlreadyLinked);
    assert_eq!(file_content(&fs, "work/.fswap"), before);
}

#[test]
fn swap_then_revert_restores_exact_content() {
    let mut fs = linked_tree();
    cmd_swap(&mut fs, &vec![s("a.txt")], false).expect("swap should succeed");
    assert_eq!(file_content(&fs, "a.txt"), Some(b"new".to_vec()));
    assert_eq!(file_content(&fs, "a.txt.fswap"), Some(b"original".to_vec()));
    cmd_revert(&mut fs, &vec![s("a.txt")]).expect("revert should succeed");
    assert_eq!(file_content(&fs, "a.txt"), Some(b"original".to_vec()));
    assert!(file_content(&fs, "a.txt.fswap").is_none());
    assert!(fs.get(&s("a.txt.fswap")).is_none());
}

#[test]
fn swap_missing_file_fails_with_not_found_and_changes_nothing() {
    let mut fs = linked_tree();
    let r = cmd_swap(&mut fs, &vec![s("missing.txt")], false);
    assert_eq!(r.unwrap_err(), FswapError::NotFound);
    assert_eq!(file_content(&fs, "a.txt"), Some(b"original".to_vec()));
    assert!(fs.get(&s("missing.txt")).is_none());
    assert!(fs.get(&s("missing.txt.fswap")).is_none());
}

#[test]
fn swap_directory_fails_with_not_a_file() {
    let mut fs = linked_tree();
    add_dir(&mut fs, "subdir");
    let r = swap_one(&mut fs, &s("subdir"), &s("../../src"), false);
    assert_eq!(r.unwrap_err(), FswapError::NotAFile);
}

#[test]
fn swap_without_source_counterpart_fails() {
    let mut fs = linked_tree();
    add_file(&mut fs, "b.txt", b"only here");
    let r = cmd_swap(&mut fs, &vec![s("b.txt")], false);
    assert_eq!(r.unwrap_err(), FswapError::SourceFileMissing);
    assert_eq!(file_content(&fs, "b.txt"), Some(b"only here".to_vec()));
}

#[test]
fn swap_with_existing_aside_skips_unless_allowed() {
    let mut fs = linked_tree();
    add_file(&mut fs, "a.txt.fswap", b"older aside");
    let r = swap_one(&mut fs, &s("a.txt"), &s("../../src"), false);
    assert_eq!(r.unwrap(), SwapOutcome::SkippedExisting);
    assert_eq!(file_content(&fs, "a.txt"), Some(b"original".to_vec()));
    assert_eq!(file_content(&fs, "a.txt.fswap"), Some(b"older aside".to_vec()));
    let r = swap_one(&mut fs, &s("a.txt"), &s("../../src"), true);
    assert_eq!(r.unwrap(), SwapOutcome::Swapped);
    assert_eq!(file_content(&fs, "a.txt"), Some(b"new".to_vec()));
    assert_eq!(file_content(&fs, "a.txt.fswap"), Some(b"original".to_vec()));
}

#[test]
fn swap_without_marker_fails_with_not_linked() {
    let mut fs = Fs::new();
    add_file(&mut fs, "a.txt", b"x");
    let r = cmd_swap(&mut fs, &vec![s("a.txt")], false);
    assert_eq!(r.unwrap_err(), FswapError::NotLinked);
}

#[test]
fn swap_with_unreadable_marker_fails_with_invalid_encoding() {
    let mut fs = Fs::new();
    add_file(&mut fs, "a.txt", b"x");
    add_file(&mut fs, ".fswap", &[0xff, 0xfe, 0x80]);
    let r = cmd_swap(&mut fs, &vec![s("a.txt")], false);
    assert_eq!(r.unwrap_err(), FswapError::InvalidEncoding);
}

#[test]
fn swap_with_dangling_marker_fails_with_source_missing() {
    let mut fs = Fs::new();
    add_file(&mut fs, "a.txt", b"x");
    add_file(&mut fs, ".fswap", b"gone");
    let r = cmd_swap(&mut fs, &vec![s("a.txt")], false);
    assert_eq!(r.unwrap_err(), FswapError::SourceMissing);
}

#[test]
fn swap_batch_stops_at_first_failure() {
    let mut fs = linked_tree();
    add_file(&mut fs, "b.txt", b"only here");
    add_file(&mut fs, "c.txt", b"c original");
    add_file(&mut fs, "../../src/c.txt", b"c new");
    // `a.txt` swaps, `b.txt` fails, `c.txt` is never reached.
    let r = cmd_swap(&mut fs, &vec![s("a.txt"), s("b.txt"), s("c.txt")], false);
    assert_eq!(r.unwrap_err(), FswapError::SourceFileMissing);
    assert_eq!(file_content(&fs, "a.txt"), Some(b"new".to_vec()));
    assert_eq!(file_content(&fs, "a.txt.fswap"), Some(b"original".to_vec()));
    assert_eq!(file_content(&fs, "c.txt"), Some(b"c original".to_vec()));
    assert!(fs.get(&s("c.txt.fswap")).is_none());
}

#[test]
fn revert_without_aside_fails_with_not_found_and_changes_nothing() {
    let mut fs = linked_tree();
    let r = cmd_revert(&mut fs, &vec![s("a.txt")]);
    assert_eq!(r.unwrap_err(), FswapError::NotFound);
    assert_eq!(file_content(&fs, "a.txt"), Some(b"original".to_vec()));
}

#[test]
fn revert_restores_even_when_working_copy_was_deleted() {
    let mut fs = linked_tree();
    cmd_swap(&mut fs, &vec![s("a.txt")], false).expect("swap should succeed");
    // Simulate the user deleting the swapped-in copy before reverting.
    let mut fs2 = Fs::new();
    add_file(&mut fs2, "a.txt.fswap", b"original");
    add_file(&mut fs2, ".fswap", b"../../src");
    cmd_revert(&mut fs2, &vec![s("a.txt")]).expect("revert should succeed");
    assert_eq!(file_content(&fs2, "a.txt"), Some(b"original".to_vec()));
    assert!(fs2.get(&s("a.txt.fswap")).is_none());
}

#[test]
fn revert_of_non_canonical_path_fails_with_invalid_path() {
    let mut fs = Fs::new();
    add_dir(&mut fs, "x");
    add_file(&mut fs, "x/.fswap", b"whatever");
    let r = revert_one(&mut fs, &s("x/"));
    assert_eq!(r.unwrap_err(), FswapError::InvalidPath);
}

fn sorted(mut v: Vec<String>) -> Vec<String> {
    v.sort();
    v
}

#[test]
fn scan_finds_every_file_once_and_excludes_the_marker() {
    let mut fs = Fs::new();
    add_file(&mut fs, ".fswap", b"src");
    add_file(&mut fs, "a.txt", b"a");
    add_dir(&mut fs, "sub");
    add_file(&mut fs, "sub/b.txt", b"b");
    add_dir(&mut fs, "sub/deep");
    add_file(&mut fs, "sub/deep/c.txt", b"c");
    add_file(&mut fs, "x.fswap", b"aside");
    // A sibling tree outside the current directory is not scanned.
    add_dir(&mut fs, "..");
    add_file(&mut fs, "../outside.txt", b"o");
    let found = find_files_with(&fs, &s("."), None)
        .expect("the current directory is scannable")
        .expect("files exist");
    assert_eq!(
        sorted(found),
        vec![s("a.txt"), s("sub/b.txt"), s("sub/deep/c.txt"), s("x.fswap")]
    );
    let suffixed = find_files_with(&fs, &s("."), Some(".fswap"))
        .expect("the current directory is scannable")
        .expect("a suffixed file exists");
    assert_eq!(suffixed, vec![s("x.fswap")]);
    let under_sub = find_files_with(&fs, &s("sub"), None)
        .expect("sub is scannable")
        .expect("files exist");
    assert_eq!(sorted(under_sub), vec![s("sub/b.txt"), s("sub/deep/c.txt")]);
}

#[test]
fn scan_reports_nothing_to_do_and_unreadable_roots() {
    let mut fs = Fs::new();
    add_dir(&mut fs, "empty");
    assert!(find_files_with(&fs, &s("empty"), None)
        .expect("empty is scannable")
        .is_none());
    let r = find_files_with(&fs, &s("gone"), None);
    assert_eq!(r.unwrap_err(), FswapError::Unreadable);
}

#[test]
fn end_deletes_marker_and_every_suffixed_file_without_reverting() {
    let mut fs = linked_tree();
    cmd_swap(&mut fs, &vec![s("a.txt")], false).expect("swap should succeed");
    add_dir(&mut fs, "sub");
    add_file(&mut fs, "sub/old.txt.fswap", b"kept aside");
    let deleted = cmd_end(&mut fs, &s(".")).expect("end should succeed");
    assert_eq!(sorted(deleted), vec![s("a.txt.fswap"), s("sub/old.txt.fswap")]);
    assert!(fs.get(&s(".fswap")).is_none());
    assert!(fs.get(&s("a.txt.fswap")).is_none());
    assert!(fs.get(&s("sub/old.txt.fswap")).is_none());
    // The swapped-in content stays in place: end does not revert.
    assert_eq!(file_content(&fs, "a.txt"), Some(b"new".to_vec()));
}

#[test]
fn end_without_marker_fails_with_not_linked() {
    let mut fs = Fs::new();
    let r = cmd_end(&mut fs, &s("."));
    assert_eq!(r.unwrap_err(), FswapError::NotLinked);
}

#[test]
fn info_lists_suffixed_files_without_changing_anything() {
    let mut fs = linked_tree();
    cmd_swap(&mut fs, &vec![s("a.txt")], false).expect("swap should succeed");
    let listed = cmd_info(&fs, &s("."))
        .expect("the link exists")
        .expect("a suffixed file exists");
    assert_eq!(listed, vec![s("a.txt.fswap")]);
    assert_eq!(file_content(&fs, "a.txt.fswap"), Some(b"original".to_vec()));
    let mut unlinked = Fs::new();
    add_file(&mut unlinked, "a.txt", b"x");
    assert_eq!(cmd_info(&unlinked, &s(".")).unwrap_err(), FswapError::NotLinked);
}

#[test]
fn read_link_decodes_the_marker() {
    let fs = linked_tree();
    assert_eq!(read_link(&fs, &s(".")).unwrap(), s("../../src"));
    let empty = Fs::new();
    assert_eq!(read_link(&empty, &s(".")).unwrap_err(), FswapError::NotLinked);
}

#[test]
fn swap_targets_all_selects_unsuffixed_files() {
    let mut fs = linked_tree();
    add_file(&mut fs, "b.txt.fswap", b"aside");
    add_dir(&mut fs, "sub");
    add_file(&mut fs, "sub/c.txt", b"c");
    let targets = swap_targets(&fs, true, false, &Vec::new())
        .expect("all-selection cannot fail")
        .expect("files exist");
    assert_eq!(sorted(targets), vec![s("a.txt"), s("sub/c.txt")]);
}

#[test]
fn swap_targets_recursive_unions_directories() {
    let mut fs = linked_tree();
    add_dir(&mut fs, "one");
    add_file(&mut fs, "one/x.txt", b"x");
    add_dir(&mut fs, "two");
    add_file(&mut fs, "two/y.txt", b"y");
    let targets = swap_targets(&fs, false, true, &vec![s("one"), s("two")])
        .expect("both directories are scannable")
        .expect("files exist");
    assert_eq!(sorted(targets), vec![s("one/x.txt"), s("two/y.txt")]);
    let r = swap_targets(&fs, false, true, &vec![s("gone")]);
    assert_eq!(r.unwrap_err(), FswapError::Unreadable);
    // An empty directory ends the selection with "no files".
    add_dir(&mut fs, "empty");
    let none = swap_targets(&fs, false, true, &vec![s("empty"), s("one")])
        .expect("both directories are scannable");
    assert!(none.is_none());
}

#[test]
fn swap_targets_explicit_list_passes_through() {
    let fs = linked_tree();
    let targets = swap_targets(&fs, false, false, &vec![s("a.txt"), s("b.txt")])
        .expect("explicit selection cannot fail")
        .expect("explicit selection is never empty-handed");
    assert_eq!(targets, vec![s("a.txt"), s("b.txt")]);
}

#[test]
fn revert_targets_all_strips_the_suffix() {
    let mut fs = linked_tree();
    cmd_swap(&mut fs, &vec![s("a.txt")], false).expect("swap should succeed");
    add_dir(&mut fs, "sub");
    add_file(&mut fs, "sub/b.txt.fswap", b"aside");
    // A bare nested marker strips to a directory path and is not a target.
    add_file(&mut fs, "sub/.fswap", b"nested marker");
    let targets = revert_targets(&fs, true, false, &Vec::new())
        .expect("all-selection cannot fail")
        .expect("suffixed files exist");
    assert_eq!(sorted(targets), vec![s("a.txt"), s("sub/b.txt")]);
}

#[test]
fn revert_targets_recursive_unions_directories() {
    let mut fs = Fs::new();
    add_file(&mut fs, ".fswap", b"src");
    add_dir(&mut fs, "one");
    add_file(&mut fs, "one/x.txt.fswap", b"x");
    add_dir(&mut fs, "two");
    add_file(&mut fs, "two/y.txt.fswap", b"y");
    let targets = revert_targets(&fs, false, true, &vec![s("one"), s("two")])
        .expect("both directories are scannable")
        .expect("suffixed files exist");
    assert_eq!(sorted(targets), vec![s("one/x.txt"), s("two/y.txt")]);
}

#[test]
fn whole_cycle_leaves_no_residue() {
    let mut fs = linked_tree();
    add_file(&mut fs, "b.txt", b"b original");
    add_file(&mut fs, "../../src/b.txt", b"b new");
    let targets = swap_targets(&fs, true, false, &Vec::new())
        .expect("all-selection cannot fail")
        .expect("files exist");
    cmd_swap(&mut fs, &targets, false).expect("swap should succeed");
    assert_eq!(file_content(&fs, "a.txt"), Some(b"new".to_vec()));
    assert_eq!(file_content(&fs, "b.txt"), Some(b"b new".to_vec()));
    let back = revert_targets(&fs, true, false, &Vec::new())
        .expect("all-selection cannot fail")
        .expect("suffixed files exist");
    cmd_revert(&mut fs, &back).expect("revert should succeed");
    assert_eq!(file_content(&fs, "a.txt"), Some(b"original".to_vec()));
    assert_eq!(file_content(&fs, "b.txt"), Some(b"b original".to_vec()));
    assert!(fs.get(&s("a.txt.fswap")).is_none());
    assert!(fs.get(&s("b.txt.fswap")).is_none());
}

#[test]
fn model_builders_reject_bad_placements() {
    let mut fs = Fs::new();
    assert!(!fs.add_dir(&s(".")));
    assert!(!fs.add_file(&s("nodir/file"), b"x".to_vec()));
    assert!(!fs.add_dir(&s("trailing/")));
    assert!(!fs.add_dir(&s("a//b")));
    assert!(fs.add_dir(&s("a")));
    assert!(!fs.add_dir(&s("a")));
    assert!(fs.add_file(&s("a/b"), b"x".to_vec()));
    assert!(fs.contains(&s("a/b")));
    assert!(fs.is_file(&s("a/b")));
    assert!(fs.is_dir(&s("a")));
    assert!(!fs.is_dir(&s("a/b")));
}

#[test]
fn keys_and_children_reflect_the_tree() {
    let mut fs = Fs::new();
    add_file(&mut fs, "a.txt", b"a");
    add_dir(&mut fs, "sub");
    add_file(&mut fs, "sub/b.txt", b"b");
    assert_eq!(
        sorted(fs.keys()),
        vec![s("."), s("a.txt"), s("sub"), s("sub/b.txt")]
    );
    assert_eq!(sorted(fs.children_of(&s("."))), vec![s("a.txt"), s("sub")]);
    assert_eq!(fs.children_of(&s("sub")), vec![s("sub/b.txt")]);
    assert!(fs.children_of(&s("a.txt")).is_empty());
}
