//! The tree scanner: breadth-first enumeration of the regular files below a
//! directory, through an explicit work queue rather than recursion, optionally
//! narrowed to paths containing a substring. The marker file of the scanned
//! directory itself is never reported.
use vstd::prelude::*;

use std::collections::VecDeque;

use crate::FswapError;
use crate::fswap_suffix;
use crate::fs::{lemma_under_has_child_dir, lemma_under_is_dir, map_wf, Fs, Node, NodeView};
use crate::pathspec::{
    is_child, is_under, join_sp, parent_key, seq_contains, sub_at,
};
use crate::pathspec::{lemma_child_parent, lemma_under_irrefl, lemma_under_trans};
use crate::strutil::{contains_str, join_key};

verus! {

/// The substring filter a scan applies: the given text, or nothing.
pub open spec fn filter_view(contains: Option<&str>) -> Seq<char> {
    match contains {
        Some(c) => c@,
        None => Seq::empty(),
    }
}

/// Whether the scan of `root` under filter `filt` reports the path `p`: a
/// regular file of the tree, anywhere below `root`, other than `root`'s own
/// marker file, whose path contains the filter.
pub open spec fn scan_matches(
    m: Map<Seq<char>, NodeView>,
    root: Seq<char>,
    filt: Seq<char>,
    p: Seq<char>,
) -> bool {
    &&& m.contains_key(p)
    &&& m[p] is File
    &&& is_under(p, root)
    &&& p != join_sp(root, fswap_suffix())
    &&& seq_contains(p, filt)
}

spec fn out_has(out: Seq<String>, p: Seq<char>) -> bool {
    exists|a: int| 0 <= a < out.len() && out[a]@ == p
}

spec fn pending(q: Seq<String>, p: Seq<char>) -> bool {
    exists|i: int| 0 <= i < q.len() && (q[i]@ == p || is_under(p, q[i]@))
}

fn vec_to_deque(v: &Vec<String>) -> (r: VecDeque<String>)
    ensures
        r@ == v@,
{
    let mut r: VecDeque<String> = VecDeque::new();
    let mut i: usize = 0;
    while i < v.len()
        invariant
            0 <= i <= v@.len(),
            r@.len() == i,
            forall|j: int| 0 <= j < i ==> r@[j] == v@[j],
        decreases v@.len() - i,
    {
        r.push_back(v[i].clone());
        i += 1;
    }
    proof {
        assert(r@ =~= v@);
    }
    r
}

/// Enumerates the regular files below `path`, breadth first, keeping those
/// whose path contains `contains` when a filter is given. Reports `None` when
/// nothing was found, so a caller can tell "nothing to do" apart from a list
/// of findings. Fails with `Unreadable` when `path` is not a directory of the
/// tree.
pub fn find_files_with(fs: &Fs, path: &String, contains: Option<&str>) -> (r: Result<
    Option<Vec<String>>,
    FswapError,
>)
    requires
        fs.wf(),
    ensures
        r is Err <==> !(fs@.contains_key(path@) && fs@[path@] is Dir),
        r is Err ==> r->Err_0 == FswapError::Unreadable,
        (r matches Ok(opt) ==> match opt {
            None => forall|p: Seq<char>| !scan_matches(fs@, path@, filter_view(contains), p),
            Some(v) => {
                &&& v@.len() > 0
                &&& forall|i: int|
                    0 <= i < v@.len() ==> scan_matches(
                        fs@,
                        path@,
                        filter_view(contains),
                        #[trigger] v@[i]@,
                    )
                &&& forall|p: Seq<char>|
                    #[trigger] scan_matches(fs@, path@, filter_view(contains), p) ==> exists|i: int|
                        0 <= i < v@.len() && v@[i]@ == p
                &&& forall|i: int, j: int| 0 <= i < j < v@.len() ==> v@[i]@ != v@[j]@
            },
        }),
{
    proof {
        fs.lemma_wf();
        fs.lemma_dom_finite();
    }
    let filt: &str = match contains {
        Some(c) => c,
        None => "",
    };
    proof {
        reveal_strlit("");
        assert(""@ =~= Seq::<char>::empty());
        assert(filt@ == filter_view(contains));
    }
    if !fs.is_dir(path) {
        return Err(FswapError::Unreadable);
    }
    let marker = join_key(path, ".fswap");
    let kids = fs.children_of(path);
    let mut queue: VecDeque<String> = vec_to_deque(&kids);
    let mut out: Vec<String> = Vec::new();
    let ghost mut processed: Set<Seq<char>> = Set::empty();
    let ghost m = fs@;
    let ghost root = path@;
    let ghost filtv = filt@;
    proof {
        assert forall|p: Seq<char>| #[trigger] scan_matches(m, root, filtv, p) implies out_has(
            out@,
            p,
        ) || pending(queue@, p) by {
            if is_child(p, root) {
                let i = choose|i: int| 0 <= i < kids@.len() && kids@[i]@ == p;
                assert(queue@[i]@ == p);
            } else {
                lemma_under_has_child_dir(m, p, root);
                let c = choose|c: Seq<char>|
                    {
                        &&& m.contains_key(c)
                        &&& m[c] is Dir
                        &&& #[trigger] is_child(c, root)
                        &&& is_under(p, c)
                    };
                let i = choose|i: int| 0 <= i < kids@.len() && kids@[i]@ == c;
                assert(queue@[i]@ == c || is_under(p, queue@[i]@));
            }
        }
    }
    loop
        invariant
            fs.wf(),
            m == fs@,
            map_wf(m),
            m.dom().finite(),
            m.contains_key(root) && m[root] is Dir,
            root == path@,
            marker@ == join_sp(root, fswap_suffix()),
            filtv == filter_view(contains),
            filtv == filt@,
            forall|i: int|
                0 <= i < queue@.len() ==> m.contains_key(#[trigger] queue@[i]@) && is_under(
                    queue@[i]@,
                    root,
                ),
            forall|i: int, j: int| 0 <= i < j < queue@.len() ==> queue@[i]@ != queue@[j]@,
            forall|i: int| 0 <= i < queue@.len() ==> !processed.contains(#[trigger] queue@[i]@),
            forall|i: int|
                0 <= i < queue@.len() ==> is_child(#[trigger] queue@[i]@, root)
                    || processed.contains(parent_key(queue@[i]@)),
            processed.finite(),
            forall|x: Seq<char>|
                #[trigger] processed.contains(x) ==> m.contains_key(x) && is_under(x, root),
            forall|x: Seq<char>|
                #[trigger] processed.contains(x) ==> is_child(x, root) || processed.contains(
                    parent_key(x),
                ),
            forall|a: int|
                0 <= a < out@.len() ==> scan_matches(m, root, filtv, #[trigger] out@[a]@),
            forall|a: int| 0 <= a < out@.len() ==> processed.contains(#[trigger] out@[a]@),
            forall|a: int, b: int| 0 <= a < b < out@.len() ==> out@[a]@ != out@[b]@,
            forall|p: Seq<char>|
                #[trigger] scan_matches(m, root, filtv, p) ==> out_has(out@, p) || pending(
                    queue@,
                    p,
                ),
        ensures
            queue@.len() == 0,
        decreases m.dom().difference(processed).len(),
    {
        let ghost q0 = queue@;
        let popped = queue.pop_front();
        let cur = match popped {
            Some(c) => c,
            None => { break; },
        };
        let ghost curv = cur@;
        let ghost q1 = queue@;
        let ghost oldproc = processed;
        proof {
            assert(q0[0]@ == curv);
            assert(forall|i: int| 0 <= i < q1.len() ==> q1[i] == q0[i + 1]);
            processed = processed.insert(curv);
            lemma_under_irrefl(root);
            assert(curv != root);
            // The rest of the queue stays clear of the processed set.
            assert forall|i: int| 0 <= i < q1.len() implies !processed.contains(
                #[trigger] q1[i]@,
            ) by {
                assert(q1[i]@ != curv);
            }
        }
        match fs.get(&cur) {
            Some(n) => {
                let is_dir_node = match n {
                    Node::Dir => true,
                    Node::File(_) => false,
                };
                if is_dir_node {
                    let kids2 = fs.children_of(&cur);
                    proof {
                        // No child of `cur` was seen before: its parent key is
                        // `cur`, which was itself still unprocessed.
                        assert forall|t: int| 0 <= t < kids2@.len() implies !oldproc.contains(
                            #[trigger] kids2@[t]@,
                        ) && kids2@[t]@ != curv && (forall|i: int|
                            0 <= i < q1.len() ==> q1[i]@ != kids2@[t]@) by {
                            let k = kids2@[t]@;
                            lemma_child_parent(k, curv);
                            lemma_under_irrefl(curv);
                            assert(k != curv);
                            if oldproc.contains(k) || exists|i: int|
                                0 <= i < q1.len() && q1[i]@ == k {
                                assert(is_child(k, root) || oldproc.contains(parent_key(k)));
                                if is_child(k, root) {
                                    lemma_child_parent(k, root);
                                    assert(curv == root);
                                    assert(false);
                                } else {
                                    assert(oldproc.contains(curv));
                                    assert(false);
                                }
                            }
                        }
                    }
                    let mut kq = vec_to_deque(&kids2);
                    queue.append(&mut kq);
                    proof {
                        assert(queue@ == q1 + kids2@);
                        assert forall|i: int| 0 <= i < queue@.len() implies m.contains_key(
                            #[trigger] queue@[i]@,
                        ) && is_under(queue@[i]@, root) && !processed.contains(queue@[i]@) && (
                        is_child(queue@[i]@, root) || processed.contains(
                            parent_key(queue@[i]@),
                        )) by {
                            if i < q1.len() {
                                assert(queue@[i] == q1[i]);
                            } else {
                                let k = kids2@[i - q1.len()]@;
                                assert(queue@[i]@ == k);
                                assert(is_child(k, curv));
                                lemma_under_trans(k, curv, root);
                                lemma_child_parent(k, curv);
                            }
                        }
                        assert forall|i: int, j: int| 0 <= i < j < queue@.len() implies queue@[i]@
                            != queue@[j]@ by {
                            if i < q1.len() && j >= q1.len() {
                                assert(queue@[i] == q1[i]);
                                assert(queue@[j]@ == kids2@[j - q1.len()]@);
                            } else if i >= q1.len() {
                                assert(queue@[i]@ == kids2@[i - q1.len()]@);
                                assert(queue@[j]@ == kids2@[j - q1.len()]@);
                            } else {
                                assert(queue@[i] == q1[i] && queue@[j] == q1[j]);
                            }
                        }
                        assert forall|p: Seq<char>|
                            #[trigger] scan_matches(m, root, filtv, p) implies out_has(out@, p)
                            || pending(queue@, p) by {
                            if !out_has(out@, p) {
                                let i = choose|i: int|
                                    0 <= i < q0.len() && (q0[i]@ == p || is_under(p, q0[i]@));
                                if i == 0 {
                                    if q0[0]@ == p {
                                        assert(m[p] is File && m[curv] is Dir);
                                        assert(false);
                                    } else {
                                        assert(is_under(p, curv));
                                        if is_child(p, curv) {
                                            let t = choose|t: int|
                                                0 <= t < kids2@.len() && kids2@[t]@ == p;
                                            assert(queue@[q1.len() + t]@ == p);
                                        } else {
                                            lemma_under_has_child_dir(m, p, curv);
                                            let c = choose|c: Seq<char>|
                                                {
                                                    &&& m.contains_key(c)
                                                    &&& m[c] is Dir
                                                    &&& #[trigger] is_child(c, curv)
                                                    &&& is_under(p, c)
                                                };
                                            let t = choose|t: int|
                                                0 <= t < kids2@.len() && kids2@[t]@ == c;
                                            assert(queue@[q1.len() + t]@ == c);
                                            assert(is_under(p, queue@[q1.len() + t]@));
                                        }
                                    }
                                } else {
                                    assert(queue@[i - 1] == q1[i - 1] && q1[i - 1] == q0[i]);
                                }
                            }
                        }
                    }
                } else {
                    // A regular file: keep it when it is not the marker of the
                    // scanned directory and the filter accepts it.
                    let is_marker = cur.eq(&marker);
                    let keep = if is_marker {
                        false
                    } else {
                        contains_str(&cur, filt)
                    };
                    let ghost out0 = out@;
                    if keep {
                        proof {
                            assert(scan_matches(m, root, filtv, curv));
                            assert forall|a: int| 0 <= a < out@.len() implies out@[a]@ != curv by {
                                assert(oldproc.contains(out@[a]@));
                            }
                        }
                        out.push(cur);
                    }
                    proof {
                        assert forall|p: Seq<char>|
                            #[trigger] scan_matches(m, root, filtv, p) implies out_has(out@, p)
                            || pending(queue@, p) by {
                            if out_has(out0, p) {
                                let a = choose|a: int| 0 <= a < out0.len() && out0[a]@ == p;
                                assert(out@[a]@ == p);
                            } else {
                                let i = choose|i: int|
                                    0 <= i < q0.len() && (q0[i]@ == p || is_under(p, q0[i]@));
                                if i == 0 {
                                    if is_under(p, curv) {
                                        lemma_under_is_dir(m, p, curv);
                                        assert(false);
                                    }
                                    assert(p == curv);
                                    assert(!is_marker && seq_contains(p, filtv));
                                    assert(out@[out@.len() - 1]@ == p);
                                } else {
                                    assert(queue@[i - 1] == q1[i - 1] && q1[i - 1] == q0[i]);
                                }
                            }
                        }
                    }
                }
            },
            None => {
                proof {
                    assert(false);
                }
            },
        }
        proof {
            m.dom().lemma_set_insert_diff_decreases(oldproc, curv);
        }
    }
    proof {
        assert forall|p: Seq<char>|
            #[trigger] scan_matches(fs@, path@, filter_view(contains), p) implies out_has(
            out@,
            p,
        ) by {
            assert(scan_matches(m, root, filtv, p));
            assert(!pending(queue@, p));
        }
        assert forall|i: int| 0 <= i < out@.len() implies scan_matches(
            fs@,
            path@,
            filter_view(contains),
            #[trigger] out@[i]@,
        ) by {
            assert(scan_matches(m, root, filtv, out@[i]@));
        }
    }
    if out.len() > 0 {
        Ok(Some(out))
    } else {
        proof {
            assert forall|p: Seq<char>| !scan_matches(fs@, path@, filter_view(contains), p) by {
                if scan_matches(fs@, path@, filter_view(contains), p) {
                    assert(out_has(out@, p));
                    assert(false);
                }
            }
        }
        Ok(None)
    }
}

} // verus!
