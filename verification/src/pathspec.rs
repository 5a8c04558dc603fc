//! The specification language for path keys.
//!
//! The model names every directory and file by a canonical relative path
//! string: components joined by `/`, with no empty component, no `.`
//! component, and no leading or trailing separator. The current directory is
//! the one-character key `.`; paths outside it start with `..` components,
//! which are treated as ordinary names. `is_under` and `is_child` define the
//! tree structure that the scanner walks, and `parent_key` recovers the one
//! directory a key is a child of.
use vstd::prelude::*;

verus! {

/// The key of the current directory.
pub open spec fn dot() -> Seq<char> {
    "."@
}

/// The key of the parent directory.
pub open spec fn dotdot() -> Seq<char> {
    ".."@
}

pub open spec fn seq_starts_with(p: Seq<char>, pre: Seq<char>) -> bool {
    pre.len() <= p.len() && p.subrange(0, pre.len() as int) == pre
}

pub open spec fn seq_ends_with(p: Seq<char>, suf: Seq<char>) -> bool {
    suf.len() <= p.len() && p.subrange(p.len() - suf.len(), p.len() as int) == suf
}

/// `sub` occurs in `p` starting at index `i`.
pub open spec fn sub_at(p: Seq<char>, sub: Seq<char>, i: int) -> bool {
    0 <= i && i + sub.len() <= p.len() && p.subrange(i, i + sub.len()) == sub
}

/// `sub` occurs somewhere in `p` (the substring filter of the scanner).
pub open spec fn seq_contains(p: Seq<char>, sub: Seq<char>) -> bool {
    exists|i: int| sub_at(p, sub, i)
}

/// A `.` component stands alone at index `i` of `p`.
pub open spec fn dot_component_at(p: Seq<char>, i: int) -> bool {
    &&& 0 <= i < p.len()
    &&& p[i] == '.'
    &&& (i == 0 || p[i - 1] == '/')
    &&& (i + 1 == p.len() || p[i + 1] == '/')
}

/// A canonical path key: nonempty, no leading or trailing `/`, no empty
/// component, and no `.` component other than the key `.` itself.
pub open spec fn valid_key(p: Seq<char>) -> bool {
    p == dot() || {
        &&& p.len() > 0
        &&& p[0] != '/'
        &&& p[p.len() - 1] != '/'
        &&& forall|i: int| 0 < i < p.len() && p[i - 1] == '/' ==> #[trigger] p[i] != '/'
        &&& forall|i: int| !dot_component_at(p, i)
    }
}

/// The key of `name` inside directory `d`.
pub open spec fn join_sp(d: Seq<char>, name: Seq<char>) -> Seq<char> {
    if d == dot() {
        name
    } else {
        d + seq!['/'] + name
    }
}

/// `p` lies strictly below the current directory: anything but `.` itself,
/// the parent `..`, and keys leading with a `..` component.
pub open spec fn under_dot(p: Seq<char>) -> bool {
    p != dot() && p != dotdot() && !seq_starts_with(p, dotdot() + seq!['/'])
}

/// `p` lies strictly below directory `d`, at any depth.
pub open spec fn is_under(p: Seq<char>, d: Seq<char>) -> bool {
    if d == dot() {
        under_dot(p)
    } else {
        seq_starts_with(p, d + seq!['/'])
    }
}

/// The index in `p` where a child's own name starts.
pub open spec fn child_start(d: Seq<char>) -> int {
    if d == dot() {
        0
    } else {
        d.len() as int + 1
    }
}

pub open spec fn no_slash_from(p: Seq<char>, from: int) -> bool {
    forall|i: int| from <= i < p.len() ==> #[trigger] p[i] != '/'
}

/// `p` is a direct child of directory `d`.
pub open spec fn is_child(p: Seq<char>, d: Seq<char>) -> bool {
    is_under(p, d) && no_slash_from(p, child_start(d))
}

/// The index of the last `/` in `p`, or `-1` when there is none.
pub open spec fn last_slash(p: Seq<char>) -> int
    decreases p.len(),
{
    if p.len() == 0 {
        -1
    } else if p[p.len() - 1] == '/' {
        p.len() - 1
    } else {
        last_slash(p.drop_last())
    }
}

/// A key with no parent in the model: the current directory or `..`.
pub open spec fn is_root_key(p: Seq<char>) -> bool {
    p == dot() || p == dotdot()
}

/// The directory that `p` is a child of.
pub open spec fn parent_key(p: Seq<char>) -> Seq<char> {
    if last_slash(p) >= 0 {
        p.subrange(0, last_slash(p))
    } else {
        dot()
    }
}

pub proof fn lemma_last_slash(p: Seq<char>)
    ensures
        -1 <= last_slash(p) < p.len(),
        last_slash(p) >= 0 ==> p[last_slash(p)] == '/',
        no_slash_from(p, last_slash(p) + 1),
    decreases p.len(),
{
    if p.len() == 0 {
    } else if p[p.len() - 1] == '/' {
    } else {
        lemma_last_slash(p.drop_last());
        assert forall|i: int| last_slash(p) + 1 <= i < p.len() implies #[trigger] p[i]
            != '/' by {
            if i < p.len() - 1 {
                assert(p.drop_last()[i] != '/');
            }
        }
    }
}

/// Appending separator-free text does not move the last separator.
pub proof fn lemma_last_slash_append(p: Seq<char>, q: Seq<char>)
    requires
        no_slash_from(q, 0),
    ensures
        last_slash(p + q) == last_slash(p),
    decreases q.len(),
{
    if q.len() == 0 {
        assert(p + q =~= p);
    } else {
        assert(q[q.len() - 1] != '/');
        assert((p + q).drop_last() =~= p + q.drop_last());
        assert(no_slash_from(q.drop_last(), 0)) by {
            assert forall|i: int| 0 <= i < q.drop_last().len() implies #[trigger] q.drop_last()[i]
                != '/' by {
                assert(q.drop_last()[i] == q[i]);
            }
        }
        lemma_last_slash_append(p, q.drop_last());
    }
}

/// A direct child of `d` has `d` as its parent key.
pub proof fn lemma_child_parent(p: Seq<char>, d: Seq<char>)
    requires
        is_child(p, d),
    ensures
        parent_key(p) == d,
{
    lemma_last_slash(p);
    if d == dot() {
        assert(last_slash(p) < 0) by {
            if last_slash(p) >= 0 {
                assert(p[last_slash(p)] == '/');
            }
        }
    } else {
        let k = d.len() as int;
        assert(p[k] == '/') by {
            assert(p.subrange(0, k + 1)[k] == '/');
        }
        assert(last_slash(p) == k) by {
            if last_slash(p) > k {
                assert(p[last_slash(p)] == '/');
            }
            if last_slash(p) < k {
                assert(no_slash_from(p, last_slash(p) + 1));
            }
        }
        assert(p.subrange(0, k) =~= d) by {
            assert forall|i: int| 0 <= i < k implies p[i] == d[i] by {
                assert(p.subrange(0, k + 1)[i] == (d + seq!['/'])[i]);
            }
        }
    }
}

/// No key lies strictly below itself.
pub proof fn lemma_under_irrefl(p: Seq<char>)
    ensures
        !is_under(p, p),
{
    if p == dot() {
    } else {
        assert((p + seq!['/']).len() > p.len());
    }
}

/// A key below some directory is never one of the two roots.
pub proof fn lemma_under_not_root(p: Seq<char>, d: Seq<char>)
    requires
        is_under(p, d),
    ensures
        !is_root_key(p),
{
    reveal_strlit(".");
    reveal_strlit("..");
    if d == dot() {
    } else {
        let pre = d + seq!['/'];
        assert(pre[pre.len() - 1] == '/');
        if p == dot() {
            assert(p.len() == 1);
            assert(pre.len() == 1);
            assert(p.subrange(0, 1)[0] == pre[0]);
            assert(p[0] == '.');
            assert(false);
        }
        if p == dotdot() {
            assert(p.len() == 2);
            assert(pre.len() <= 2);
            let k = pre.len() - 1;
            assert(p.subrange(0, pre.len() as int)[k] == pre[k]);
            assert(p[k] == '/');
            assert(p[0] == '.' && p[1] == '.');
            assert(false);
        }
    }
}

/// Lying below a directory is transitive.
pub proof fn lemma_under_trans(a: Seq<char>, b: Seq<char>, c: Seq<char>)
    requires
        is_under(a, b),
        is_under(b, c),
    ensures
        is_under(a, c),
{
    reveal_strlit(".");
    reveal_strlit("..");
    lemma_under_not_root(a, b);
    lemma_under_not_root(b, c);
    if c == dot() {
        // `b` avoids the roots and a leading `..` component, so `a`, which
        // extends `b` past a separator, does too.
        let preb = b + seq!['/'];
        assert(a.subrange(0, preb.len() as int) == preb);
        assert forall|i: int| 0 <= i < b.len() implies a[i] == b[i] by {
            assert(a.subrange(0, preb.len() as int)[i] == preb[i]);
        }
        assert(a[b.len() as int] == '/') by {
            assert(a.subrange(0, preb.len() as int)[b.len() as int] == preb[b.len() as int]);
        }
        let dd = dotdot() + seq!['/'];
        assert(dd.len() == 3);
        assert(dd[0] == '.' && dd[1] == '.' && dd[2] == '/');
        if seq_starts_with(a, dd) {
            assert(a[0] == '.' && a[1] == '.' && a[2] == '/') by {
                assert(a.subrange(0, 3)[0] == dd[0]);
                assert(a.subrange(0, 3)[1] == dd[1]);
                assert(a.subrange(0, 3)[2] == dd[2]);
            }
            if b.len() == 1 {
                assert(b[0] == a[0]);
                assert(b == dot()) by {
                    assert(b =~= dot());
                }
            } else if b.len() == 2 {
                assert(b[0] == a[0] && b[1] == a[1]);
                assert(b == dotdot()) by {
                    assert(b =~= dotdot());
                }
            } else {
                assert(b[0] == a[0] && b[1] == a[1] && b[2] == a[2]);
                assert(seq_starts_with(b, dd)) by {
                    assert(b.subrange(0, 3) =~= dd);
                }
            }
        }
        if a == dot() {
            assert(a.len() == 1 && preb.len() >= 2);
        }
        if a == dotdot() {
            assert(a.len() == 2);
            assert(b.len() == 1);
            assert(a[1] == '.');
        }
    } else {
        let prec = c + seq!['/'];
        let preb = b + seq!['/'];
        assert(seq_starts_with(a, prec)) by {
            assert forall|i: int| 0 <= i < prec.len() implies a[i] == prec[i] by {
                assert(b.subrange(0, prec.len() as int)[i] == prec[i]);
                assert(a.subrange(0, preb.len() as int)[i] == preb[i]);
            }
            assert(a.subrange(0, prec.len() as int) =~= prec);
        }
    }
}

/// Facts about the suffix text itself.
proof fn lemma_suffix_chars()
    ensures
        crate::fswap_suffix().len() == 6,
        crate::fswap_suffix()[0] == '.',
        crate::fswap_suffix()[1] == 'f',
        crate::fswap_suffix()[2] == 's',
        crate::fswap_suffix()[3] == 'w',
        crate::fswap_suffix()[4] == 'a',
        crate::fswap_suffix()[5] == 'p',
        no_slash_from(crate::fswap_suffix(), 0),
{
    reveal_strlit(".fswap");
}

/// The marker key of a directory is a direct child of it and not a root.
pub proof fn lemma_marker_child(w: Seq<char>)
    ensures
        is_child(join_sp(w, crate::fswap_suffix()), w),
        !is_root_key(join_sp(w, crate::fswap_suffix())),
{
    reveal_strlit(".");
    reveal_strlit("..");
    lemma_suffix_chars();
    let sfx = crate::fswap_suffix();
    let mk = join_sp(w, sfx);
    if w == dot() {
        assert(mk == sfx);
        assert(mk != dot() && mk != dotdot());
        let dd = dotdot() + seq!['/'];
        if seq_starts_with(mk, dd) {
            assert(mk.subrange(0, 3)[1] == dd[1]);
            assert(mk[1] == '.');
        }
        assert(under_dot(mk));
        assert(no_slash_from(mk, child_start(w)));
    } else {
        assert(seq_starts_with(mk, w + seq!['/'])) by {
            assert(mk.subrange(0, w.len() as int + 1) =~= w + seq!['/']);
        }
        assert(no_slash_from(mk, child_start(w))) by {
            assert forall|i: int| w.len() + 1 <= i < mk.len() implies #[trigger] mk[i]
                != '/' by {
                assert(mk[i] == sfx[i - w.len() - 1]);
            }
        }
        assert(mk.len() == w.len() + 7);
        assert(mk != dot() && mk != dotdot());
    }
}

/// The marker key of a canonical directory key is canonical.
pub proof fn lemma_marker_valid(w: Seq<char>)
    requires
        valid_key(w),
    ensures
        valid_key(join_sp(w, crate::fswap_suffix())),
{
    reveal_strlit(".");
    lemma_suffix_chars();
    let sfx = crate::fswap_suffix();
    let mk = join_sp(w, sfx);
    if w == dot() {
        assert(mk == sfx);
        assert(mk[mk.len() - 1] == 'p');
        assert forall|i: int| 0 < i < mk.len() && mk[i - 1] == '/' implies #[trigger] mk[i]
            != '/' by {
            assert(mk[i - 1] != '/');
        }
        assert forall|i: int| !dot_component_at(mk, i) by {
            if 0 <= i < mk.len() && mk[i] == '.' {
                assert(i == 0);
                assert(mk[1] == 'f');
            }
        }
    } else {
        let k = w.len() as int;
        assert(mk.len() == k + 7);
        assert(mk[0] == w[0]);
        assert(mk[mk.len() - 1] == 'p');
        assert(mk[k] == '/');
        assert forall|i: int| 0 <= i < mk.len() implies mk[i] == (if i < k {
            w[i]
        } else if i == k {
            '/'
        } else {
            sfx[i - k - 1]
        }) by {}
        assert forall|i: int| 0 < i < mk.len() && mk[i - 1] == '/' implies #[trigger] mk[i]
            != '/' by {
            if i < k {
                assert(w[i] != '/');
            } else if i == k {
                assert(mk[i - 1] == w[k - 1]);
                assert(w[k - 1] != '/');
            } else if i == k + 1 {
                assert(mk[i] == '.');
            } else {
                assert(mk[i] == sfx[i - k - 1]);
            }
        }
        assert forall|i: int| !dot_component_at(mk, i) by {
            if 0 <= i < mk.len() && mk[i] == '.' && (i == 0 || mk[i - 1] == '/') && (i + 1
                == mk.len() || mk[i + 1] == '/') {
                if i < k {
                    assert(w[i] == '.');
                    assert(i + 1 != mk.len());
                    if i + 1 < k {
                        assert(w[i + 1] == '/');
                        assert(dot_component_at(w, i));
                    } else {
                        assert(i + 1 == k);
                        assert(dot_component_at(w, i));
                    }
                } else if i == k {
                    assert(mk[i] == '/');
                } else if i == k + 1 {
                    assert(mk[i + 1] == 'f');
                } else {
                    assert(mk[i] == sfx[i - k - 1]);
                    assert(mk[i] != '.');
                }
            }
        }
    }
}

/// Appending the suffix to a canonical key other than `.` keeps it canonical,
/// keeps its parent key, and never produces a root key.
pub proof fn lemma_append_suffix(p: Seq<char>)
    requires
        valid_key(p),
        p != dot(),
    ensures
        valid_key(p + crate::fswap_suffix()),
        parent_key(p + crate::fswap_suffix()) == parent_key(p),
        !is_root_key(p + crate::fswap_suffix()),
{
    reveal_strlit(".");
    reveal_strlit("..");
    lemma_suffix_chars();
    let sfx = crate::fswap_suffix();
    let q = p + sfx;
    let k = p.len() as int;
    assert(q.len() == k + 6);
    assert(q[0] == p[0]);
    assert(q[q.len() - 1] == 'p');
    assert(q != dot() && q != dotdot());
    assert forall|i: int| 0 < i < q.len() && q[i - 1] == '/' implies #[trigger] q[i] != '/' by {
        if i < k {
            assert(q[i] == p[i]);
        } else if i == k {
            assert(q[i] == '.');
        } else {
            assert(q[i] == sfx[i - k]);
        }
    }
    assert forall|i: int| !dot_component_at(q, i) by {
        if 0 <= i < q.len() && q[i] == '.' && (i == 0 || q[i - 1] == '/') && (i + 1 == q.len()
            || q[i + 1] == '/') {
            if i < k {
                assert(q[i] == p[i]);
                assert(i + 1 != q.len());
                if i + 1 < k {
                    assert(q[i + 1] == p[i + 1]);
                    assert(dot_component_at(p, i));
                } else {
                    assert(i + 1 == k);
                    assert(q[i + 1] == sfx[0]);
                    assert(q[i + 1] == '.');
                }
            } else if i == k {
                assert(i > 0);
                assert(q[i - 1] == p[k - 1]);
                assert(p[k - 1] != '/');
            } else {
                assert(q[i] == sfx[i - k]);
                assert(q[i] != '.');
            }
        }
    }
    lemma_last_slash_append(p, sfx);
    lemma_last_slash(p);
    if last_slash(p) >= 0 {
        assert(q.subrange(0, last_slash(p)) =~= p.subrange(0, last_slash(p)));
    }
}

/// A key strictly below `d` that is not a direct child of `d` has a parent
/// that is a direct child of `d` or lies strictly below `d` itself.
pub proof fn lemma_under_step(p: Seq<char>, d: Seq<char>)
    requires
        is_under(p, d),
        !is_child(p, d),
        valid_key(p),
    ensures
        is_child(p, parent_key(p)),
        parent_key(p) == d || is_under(parent_key(p), d),
        parent_key(p).len() < p.len(),
        !is_root_key(p),
    decreases p.len(),
{
    reveal_strlit(".");
    reveal_strlit("..");
    lemma_under_not_root(p, d);
    lemma_last_slash(p);
    let ls = last_slash(p);
    // Some separator sits at or past `child_start(d)`, so the last one does.
    assert(exists|i: int| child_start(d) <= i < p.len() && p[i] == '/');
    let w = choose|i: int| child_start(d) <= i < p.len() && p[i] == '/';
    assert(ls >= w) by {
        if ls < w {
            assert(no_slash_from(p, ls + 1));
        }
    }
    let q = parent_key(p);
    assert(q == p.subrange(0, ls));
    // `p` is a child of its parent key.
    assert(is_child(p, q)) by {
        if q == dot() {
            // Impossible: `q` ends just before a separator, and a lone `.`
            // there would be a `.` component of `p`.
            assert(ls == 1);
            assert(p[0] == '.') by {
                assert(p.subrange(0, 1)[0] == dot()[0]);
            }
            assert(dot_component_at(p, 0));
            assert(false);
        } else {
            assert(seq_starts_with(p, q + seq!['/'])) by {
                assert(p.subrange(0, ls + 1) =~= q + seq!['/']);
            }
        }
    }
    if d == dot() {
        assert(q != dot());
        if q == dotdot() {
            assert(ls == 2);
            assert(p[0] == '.' && p[1] == '.') by {
                assert(p.subrange(0, 2)[0] == dotdot()[0]);
                assert(p.subrange(0, 2)[1] == dotdot()[1]);
            }
            assert(seq_starts_with(p, dotdot() + seq!['/'])) by {
                assert(p.subrange(0, 3) =~= dotdot() + seq!['/']);
            }
            assert(false);
        }
        if seq_starts_with(q, dotdot() + seq!['/']) {
            assert(seq_starts_with(p, dotdot() + seq!['/'])) by {
                assert forall|i: int| 0 <= i < 3 implies p.subrange(0, 3)[i] == (dotdot()
                    + seq!['/'])[i] by {
                    assert(q.subrange(0, 3)[i] == (dotdot() + seq!['/'])[i]);
                    assert(q[i] == p[i]);
                }
                assert(p.subrange(0, 3) =~= dotdot() + seq!['/']);
            }
            assert(false);
        }
        assert(is_under(q, d));
    } else {
        assert(ls >= d.len() + 1);
        if ls == d.len() + 1 {
            // Impossible: that would leave an empty component after `d/`.
            assert(p[d.len() as int] == '/') by {
                assert(p.subrange(0, d.len() as int + 1)[d.len() as int] == (d + seq!['/'])[d.len() as int]);
            }
            assert(p[ls] == '/');
            assert(p != dot());
            assert(false);
        }
        assert(q == d || is_under(q, d)) by {
            if q.len() == d.len() + 1 {
                assert(false) by {
                    assert(p[d.len() as int] == '/') by {
                        assert(p.subrange(0, d.len() as int + 1)[d.len() as int] == (d
                            + seq!['/'])[d.len() as int]);
                    }
                }
            }
            assert(q.len() > d.len() + 1);
            assert(seq_starts_with(q, d + seq!['/'])) by {
                assert forall|i: int| 0 <= i < d.len() + 1 implies q.subrange(0, d.len() as int + 1)[i]
                    == (d + seq!['/'])[i] by {
                    assert(q[i] == p[i]);
                    assert(p.subrange(0, d.len() as int + 1)[i] == (d + seq!['/'])[i]);
                }
                assert(q.subrange(0, d.len() as int + 1) =~= d + seq!['/']);
            }
        }
    }
}

} // verus!
