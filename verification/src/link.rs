//! The marker store and the link lifecycle.
//!
//! A link is persisted as a single marker file named `.fswap` inside the
//! working directory, whose entire byte content is the relative path from the
//! working directory to the source directory. `cmd_begin` creates it
//! exclusively, `read_link` decodes it, `cmd_end` deletes it together with
//! every suffixed file below the working directory, and `cmd_info` reports
//! those files without changing anything.
use vstd::prelude::*;

use crate::FswapError;
use crate::fswap_suffix;
use crate::fs::{Fs, Node, NodeView};
use crate::pathspec::{join_sp, lemma_child_parent, lemma_marker_child, lemma_marker_valid};
use crate::scan::{filter_view, find_files_with, scan_matches};
use crate::strutil::join_key;
use vstd::utf8::{decode_utf8, encode_utf8, valid_utf8};

verus! {

/// The relative path that leads from `base` to `path`, as the outside path
/// arithmetic computes it: a function of the two path strings alone, or
/// nothing when no relative path exists between them.
pub uninterp spec fn path_diff_of(path: Seq<char>, base: Seq<char>) -> Option<Seq<char>>;

/// Relies on `pathdiff::diff_paths`: the result is computed from the two path
/// strings alone, and two equal paths give the empty relative path.
#[verifier::external_body]
fn diff_paths(path: &String, base: &String) -> (r: Option<String>)
    ensures
        (match r {
            Some(s) => path_diff_of(path@, base@) == Some(s@) && (path@ == base@ ==> s@.len()
                == 0),
            None => path_diff_of(path@, base@) is None,
        }),
        path@ == base@ ==> r is Some,
{
    match pathdiff::diff_paths(path.as_str(), base.as_str()) {
        Some(p) => match p.to_str() {
            Some(s) => Some(s.to_string()),
            None => None,
        },
        None => None,
    }
}

/// Relies on `String::from_utf8`: decodes exactly the given bytes when they
/// are valid text, and fails exactly when they are not.
#[verifier::external_body]
fn bytes_to_string(v: &Vec<u8>) -> (r: Option<String>)
    ensures
        (match r {
            Some(s) => valid_utf8(v@) && s@ == decode_utf8(v@),
            None => !valid_utf8(v@),
        }),
{
    match String::from_utf8(v.clone()) {
        Ok(s) => Some(s),
        Err(_) => None,
    }
}

/// What `cmd_begin` decides, in the order the checks are made: both paths
/// must name directories of the tree, the relative path between them must
/// exist and be nonempty, and no marker may be present yet.
pub open spec fn begin_spec(m: Map<Seq<char>, NodeView>, s: Seq<char>, w: Seq<char>) -> Result<
    Seq<char>,
    FswapError,
> {
    if !m.contains_key(s) {
        Err(FswapError::NotFound)
    } else if !m.contains_key(w) {
        Err(FswapError::NotFound)
    } else if !(m[s] is Dir) {
        Err(FswapError::NotADirectory)
    } else if !(m[w] is Dir) {
        Err(FswapError::NotADirectory)
    } else {
        match path_diff_of(s, w) {
            None => Err(FswapError::SameDirectory),
            Some(rel) => if rel.len() == 0 {
                Err(FswapError::SameDirectory)
            } else if m.contains_key(join_sp(w, fswap_suffix())) {
                Err(FswapError::AlreadyLinked)
            } else {
                Ok(rel)
            },
        }
    }
}

/// Creates the link from a working directory to a source directory: validates
/// both, computes the relative path between them, and writes it as the
/// content of a marker file created exclusively in the working directory.
/// Gives back the relative path that was written.
pub fn cmd_begin(fs: &mut Fs, source_dir: &String, working_dir: &String) -> (r: Result<
    String,
    FswapError,
>)
    requires
        old(fs).wf(),
    ensures
        final(fs).wf(),
        (match r {
            Ok(rel) => begin_spec(old(fs)@, source_dir@, working_dir@) == Ok::<
                Seq<char>,
                FswapError,
            >(rel@) && final(fs)@ == old(fs)@.insert(
                join_sp(working_dir@, fswap_suffix()),
                NodeView::File(encode_utf8(rel@)),
            ),
            Err(e) => begin_spec(old(fs)@, source_dir@, working_dir@) == Err::<
                Seq<char>,
                FswapError,
            >(e) && final(fs)@ == old(fs)@,
        }),
        source_dir@ == working_dir@ ==> r is Err,
{
    if !fs.contains(source_dir) {
        return Err(FswapError::NotFound);
    }
    if !fs.contains(working_dir) {
        return Err(FswapError::NotFound);
    }
    if !fs.is_dir(source_dir) {
        return Err(FswapError::NotADirectory);
    }
    if !fs.is_dir(working_dir) {
        return Err(FswapError::NotADirectory);
    }
    let rel = match diff_paths(source_dir, working_dir) {
        None => {
            return Err(FswapError::SameDirectory);
        },
        Some(rel) => rel,
    };
    if rel.as_str().unicode_len() == 0 {
        return Err(FswapError::SameDirectory);
    }
    let marker = join_key(working_dir, ".fswap");
    if fs.contains(&marker) {
        return Err(FswapError::AlreadyLinked);
    }
    let bytes = rel.as_str().as_bytes_vec();
    proof {
        fs.lemma_wf();
        lemma_marker_valid(working_dir@);
        lemma_marker_child(working_dir@);
        lemma_child_parent(marker@, working_dir@);
    }
    fs.insert_node(&marker, Node::File(bytes));
    Ok(rel)
}

/// Whether a marker file is present in the working directory.
pub open spec fn marker_present(m: Map<Seq<char>, NodeView>, w: Seq<char>) -> bool {
    m.contains_key(join_sp(w, fswap_suffix())) && m[join_sp(w, fswap_suffix())] is File
}

/// What `read_link` decides: the marker must be present and its content must
/// decode as text; the decoded relative source path is handed back unchecked.
pub open spec fn read_link_spec(m: Map<Seq<char>, NodeView>, w: Seq<char>) -> Result<
    Seq<char>,
    FswapError,
> {
    if !marker_present(m, w) {
        Err(FswapError::NotLinked)
    } else if !valid_utf8(m[join_sp(w, fswap_suffix())]->File_0) {
        Err(FswapError::InvalidEncoding)
    } else {
        Ok(decode_utf8(m[join_sp(w, fswap_suffix())]->File_0))
    }
}

/// Reads the marker file of the working directory and decodes the relative
/// source path it holds. Does not check that the source directory exists:
/// callers do, and report `SourceMissing` themselves.
pub fn read_link(fs: &Fs, working_dir: &String) -> (r: Result<String, FswapError>)
    requires
        fs.wf(),
    ensures
        (match r {
            Ok(rel) => read_link_spec(fs@, working_dir@) == Ok::<Seq<char>, FswapError>(rel@),
            Err(e) => read_link_spec(fs@, working_dir@) == Err::<Seq<char>, FswapError>(e),
        }),
{
    let marker = join_key(working_dir, ".fswap");
    let bytes = match fs.get(&marker) {
        None => {
            return Err(FswapError::NotLinked);
        },
        Some(n) => match n {
            Node::Dir => {
                return Err(FswapError::NotLinked);
            },
            Node::File(bytes) => bytes,
        },
    };
    match bytes_to_string(bytes) {
        None => Err(FswapError::InvalidEncoding),
        Some(s) => Ok(s),
    }
}

/// `m` with the first `n` listed keys removed.
pub open spec fn remove_all(m: Map<Seq<char>, NodeView>, files: Seq<String>, n: int) -> Map<
    Seq<char>,
    NodeView,
>
    decreases n,
{
    if n <= 0 {
        m
    } else {
        remove_all(m, files, n - 1).remove(files[n - 1]@)
    }
}

proof fn lemma_remove_all(m: Map<Seq<char>, NodeView>, files: Seq<String>, n: int)
    requires
        0 <= n <= files.len(),
    ensures
        forall|k: Seq<char>| #![auto]
            remove_all(m, files, n).contains_key(k) <==> (m.contains_key(k) && !(exists|a: int|
                0 <= a < n && files[a]@ == k)),
        forall|k: Seq<char>| #![auto]
            remove_all(m, files, n).contains_key(k) ==> remove_all(m, files, n)[k] == m[k],
    decreases n,
{
    if n > 0 {
        lemma_remove_all(m, files, n - 1);
        assert forall|k: Seq<char>| #![auto]
            remove_all(m, files, n).contains_key(k) == (m.contains_key(k) && !(exists|a: int|
                0 <= a < n && files[a]@ == k)) by {
            if k == files[n - 1]@ {
                assert(files[n - 1]@ == k);
                assert(exists|a: int| 0 <= a < n && files[a]@ == k);
                assert(!remove_all(m, files, n).contains_key(k));
            } else {
                assert(remove_all(m, files, n).contains_key(k) == remove_all(
                    m,
                    files,
                    n - 1,
                ).contains_key(k));
                if exists|a: int| 0 <= a < n && files[a]@ == k {
                    let a = choose|a: int| 0 <= a < n && files[a]@ == k;
                    assert(a != n - 1);
                    assert(exists|a2: int| 0 <= a2 < n - 1 && files[a2]@ == k);
                } else {
                    if exists|a: int| 0 <= a < n - 1 && files[a]@ == k {
                        let a = choose|a: int| 0 <= a < n - 1 && files[a]@ == k;
                        assert(0 <= a < n && files[a]@ == k);
                        assert(false);
                    }
                }
            }
        }
    }
}

/// The state and report that a completed teardown leaves: the marker and
/// every file the suffix scan found are gone, nothing else changed, and the
/// report lists exactly the scanned files, each once.
pub open spec fn end_post(
    m0: Map<Seq<char>, NodeView>,
    w: Seq<char>,
    m1: Map<Seq<char>, NodeView>,
    deleted: Seq<String>,
) -> bool {
    &&& forall|k: Seq<char>| #![auto]
        m1.contains_key(k) <==> (m0.contains_key(k) && k != join_sp(w, fswap_suffix())
            && !scan_matches(m0, w, fswap_suffix(), k))
    &&& forall|k: Seq<char>| #![auto] m1.contains_key(k) ==> m1[k] == m0[k]
    &&& forall|a: int|
        0 <= a < deleted.len() ==> scan_matches(m0, w, fswap_suffix(), #[trigger] deleted[a]@)
    &&& forall|p: Seq<char>|
        #[trigger] scan_matches(m0, w, fswap_suffix(), p) ==> exists|a: int|
            0 <= a < deleted.len() && deleted[a]@ == p
    &&& forall|a: int, b: int| 0 <= a < b < deleted.len() ==> deleted[a]@ != deleted[b]@
}

/// Tears the link down: deletes the marker file, then deletes every file
/// below the working directory whose path contains the suffix. By design the
/// files are not reverted first; a swapped-in working copy stays in place and
/// its aside copy is lost. Gives back the deleted suffixed files.
#[verifier::rlimit(60)]
pub fn cmd_end(fs: &mut Fs, working_dir: &String) -> (r: Result<Vec<String>, FswapError>)
    requires
        old(fs).wf(),
    ensures
        final(fs).wf(),
        r is Err <==> !marker_present(old(fs)@, working_dir@),
        r is Err ==> r->Err_0 == FswapError::NotLinked && final(fs)@ == old(fs)@,
        (r matches Ok(deleted) ==> end_post(old(fs)@, working_dir@, final(fs)@, deleted@)),
{
    let marker = join_key(working_dir, ".fswap");
    if !fs.is_file(&marker) {
        return Err(FswapError::NotLinked);
    }
    let ghost m0 = fs@;
    let ghost w = working_dir@;
    proof {
        fs.lemma_wf();
        lemma_marker_child(working_dir@);
        lemma_child_parent(marker@, working_dir@);
        assert(m0.contains_key(working_dir@) && m0[working_dir@] is Dir);
        assert(filter_view(Some(".fswap")) == fswap_suffix());
    }
    let files: Vec<String> = match find_files_with(fs, working_dir, Some(".fswap")) {
        Ok(opt) => match opt {
            Some(v) => {
                proof {
                    assert forall|a: int| 0 <= a < v@.len() implies scan_matches(
                        m0,
                        w,
                        fswap_suffix(),
                        #[trigger] v@[a]@,
                    ) by {
                        assert(scan_matches(fs@, working_dir@, filter_view(Some(".fswap")), v@[a]@));
                    }
                    assert forall|p: Seq<char>|
                        #[trigger] scan_matches(m0, w, fswap_suffix(), p) implies exists|a: int|
                        0 <= a < v@.len() && v@[a]@ == p by {
                        assert(scan_matches(fs@, working_dir@, filter_view(Some(".fswap")), p));
                    }
                }
                v
            },
            None => {
                let v: Vec<String> = Vec::new();
                proof {
                    assert forall|p: Seq<char>|
                        #[trigger] scan_matches(m0, w, fswap_suffix(), p) implies exists|a: int|
                        0 <= a < v@.len() && v@[a]@ == p by {
                        assert(scan_matches(fs@, working_dir@, filter_view(Some(".fswap")), p));
                        assert(false);
                    }
                }
                v
            },
        },
        Err(_) => {
            proof {
                assert(false);
            }
            Vec::new()
        },
    };
    fs.remove_node(&marker);
    let ghost base = m0.remove(marker@);
    let mut i: usize = 0;
    while i < files.len()
        invariant
            fs.wf(),
            0 <= i <= files@.len(),
            marker@ == join_sp(w, fswap_suffix()),
            forall|a: int|
                0 <= a < files@.len() ==> scan_matches(m0, w, fswap_suffix(), #[trigger] files@[a]@),
            forall|a: int, b: int| 0 <= a < b < files@.len() ==> files@[a]@ != files@[b]@,
            base == m0.remove(marker@),
            fs@ == remove_all(base, files@, i as int),
        decreases files@.len() - i,
    {
        let f = &files[i];
        proof {
            lemma_remove_all(base, files@, i as int);
            assert(scan_matches(m0, w, fswap_suffix(), f@));
            assert(base.contains_key(f@));
            if exists|a: int| 0 <= a < i && files@[a]@ == f@ {
                let a = choose|a: int| 0 <= a < i && files@[a]@ == f@;
                assert(files@[a]@ != files@[i as int]@);
                assert(false);
            }
            assert(fs@.contains_key(f@));
            assert(fs@[f@] == base[f@]);
            assert(fs@[f@] is File);
        }
        fs.remove_node(f);
        proof {
            assert(fs@ == remove_all(base, files@, i + 1));
        }
        i += 1;
    }
    proof {
        assert(end_post(m0, w, fs@, files@)) by {
            lemma_remove_all(base, files@, files@.len() as int);
            assert forall|k: Seq<char>| #![auto]
                fs@.contains_key(k) == (m0.contains_key(k) && k != join_sp(w, fswap_suffix())
                    && !scan_matches(m0, w, fswap_suffix(), k)) by {
                assert(fs@.contains_key(k) == (base.contains_key(k) && !(exists|a: int|
                    0 <= a < files@.len() && files@[a]@ == k)));
                if scan_matches(m0, w, fswap_suffix(), k) {
                    assert(exists|a: int| 0 <= a < files@.len() && files@[a]@ == k);
                }
                if exists|a: int| 0 <= a < files@.len() && files@[a]@ == k {
                    let a = choose|a: int| 0 <= a < files@.len() && files@[a]@ == k;
                    assert(scan_matches(m0, w, fswap_suffix(), k));
                }
            }
            assert forall|k: Seq<char>| #![auto] fs@.contains_key(k) implies fs@[k]
                == m0[k] by {
                assert(fs@[k] == base[k]);
            }
        }
        assert(m0 == old(fs)@ && w == working_dir@);
        assert(end_post(old(fs)@, working_dir@, fs@, files@));
    }
    Ok(files)
}

/// Reports every file below the working directory whose path contains the
/// suffix, without changing anything. Requires the link to exist.
pub fn cmd_info(fs: &Fs, working_dir: &String) -> (r: Result<Option<Vec<String>>, FswapError>)
    requires
        fs.wf(),
    ensures
        r is Err <==> !marker_present(fs@, working_dir@),
        r is Err ==> r->Err_0 == FswapError::NotLinked,
        (r matches Ok(opt) ==> match opt {
            None => forall|p: Seq<char>| !scan_matches(fs@, working_dir@, fswap_suffix(), p),
            Some(v) => {
                &&& v@.len() > 0
                &&& forall|i: int|
                    0 <= i < v@.len() ==> scan_matches(
                        fs@,
                        working_dir@,
                        fswap_suffix(),
                        #[trigger] v@[i]@,
                    )
                &&& forall|p: Seq<char>|
                    #[trigger] scan_matches(fs@, working_dir@, fswap_suffix(), p) ==> exists|i: int|
                        0 <= i < v@.len() && v@[i]@ == p
                &&& forall|i: int, j: int| 0 <= i < j < v@.len() ==> v@[i]@ != v@[j]@
            },
        }),
{
    let marker = join_key(working_dir, ".fswap");
    if !fs.is_file(&marker) {
        return Err(FswapError::NotLinked);
    }
    proof {
        fs.lemma_wf();
        lemma_marker_child(working_dir@);
        lemma_child_parent(marker@, working_dir@);
        assert(filter_view(Some(".fswap")) == fswap_suffix());
    }
    match find_files_with(fs, working_dir, Some(".fswap")) {
        Ok(o) => Ok(o),
        Err(_) => {
            proof {
                assert(false);
            }
            Err(FswapError::Unreadable)
        },
    }
}

/// Law: a link that `cmd_begin` just created reads back exactly. The marker
/// it wrote decodes to the very relative path that was computed from the two
/// directories, so a following `read_link` hands that path back unchanged.
pub proof fn lemma_begin_then_read_link(m: Map<Seq<char>, NodeView>, s: Seq<char>, w: Seq<char>)
    requires
        begin_spec(m, s, w) is Ok,
    ensures
        ({
            let rel = begin_spec(m, s, w)->Ok_0;
            read_link_spec(
                m.insert(join_sp(w, fswap_suffix()), NodeView::File(encode_utf8(rel))),
                w,
            ) == Ok::<Seq<char>, FswapError>(rel)
        }),
{
    let rel = begin_spec(m, s, w)->Ok_0;
    vstd::utf8::encode_utf8_valid_utf8(rel);
    vstd::utf8::encode_utf8_decode_utf8(rel);
}

} // verus!
