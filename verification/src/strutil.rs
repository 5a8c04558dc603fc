//! Executable operations on path strings, each specified against the
//! predicates of `pathspec`.
use vstd::prelude::*;

use crate::pathspec::{
    dot, dotdot, is_child, is_under, join_sp, last_slash, no_slash_from, parent_key, seq_contains,
    seq_ends_with, seq_starts_with, sub_at, under_dot, valid_key, dot_component_at,
};
use crate::pathspec::lemma_last_slash;

verus! {

/// Whether `a` holds the same text as `b`.
pub fn eq_str(a: &String, b: &str) -> (r: bool)
    ensures
        r == (a@ == b@),
{
    let n = a.as_str().unicode_len();
    let m = b.unicode_len();
    if n != m {
        return false;
    }
    let mut i: usize = 0;
    while i < n
        invariant
            0 <= i <= n,
            n == a@.len(),
            n == b@.len(),
            forall|j: int| 0 <= j < i ==> a@[j] == b@[j],
        decreases n - i,
    {
        if a.as_str().get_char(i) != b.get_char(i) {
            return false;
        }
        i += 1;
    }
    proof {
        assert(a@ =~= b@);
    }
    true
}

/// Whether `sub` occurs in `p` starting at character `i`.
pub fn match_at(p: &String, sub: &str, i: usize) -> (r: bool)
    requires
        i <= p@.len(),
    ensures
        r == sub_at(p@, sub@, i as int),
{
    let n = p.as_str().unicode_len();
    let m = sub.unicode_len();
    if m > n - i {
        proof {
            assert(!sub_at(p@, sub@, i as int));
        }
        return false;
    }
    let mut j: usize = 0;
    while j < m
        invariant
            0 <= j <= m,
            i + m <= n,
            n == p@.len(),
            m == sub@.len(),
            forall|k: int| 0 <= k < j ==> p@[i + k] == sub@[k],
        decreases m - j,
    {
        if p.as_str().get_char(i + j) != sub.get_char(j) {
            proof {
                if sub_at(p@, sub@, i as int) {
                    assert(p@.subrange(i as int, i + sub@.len())[j as int] == sub@[j as int]);
                }
            }
            return false;
        }
        j += 1;
    }
    proof {
        assert(p@.subrange(i as int, i + sub@.len()) =~= sub@);
    }
    true
}

/// Whether `p` begins with `pre`.
pub fn starts_with_str(p: &String, pre: &str) -> (r: bool)
    ensures
        r == seq_starts_with(p@, pre@),
{
    let r = match_at(p, pre, 0);
    proof {
        if sub_at(p@, pre@, 0) {
            assert(seq_starts_with(p@, pre@));
        }
        if seq_starts_with(p@, pre@) {
            assert(sub_at(p@, pre@, 0));
        }
    }
    r
}

/// Whether `p` ends with `suf`.
pub fn ends_with_str(p: &String, suf: &str) -> (r: bool)
    ensures
        r == seq_ends_with(p@, suf@),
{
    let n = p.as_str().unicode_len();
    let m = suf.unicode_len();
    if m > n {
        return false;
    }
    let r = match_at(p, suf, n - m);
    proof {
        assert(n - m + suf@.len() == p@.len());
        if sub_at(p@, suf@, n - m) {
            assert(seq_ends_with(p@, suf@));
        }
        if seq_ends_with(p@, suf@) {
            assert(sub_at(p@, suf@, n - m));
        }
    }
    r
}

/// Whether `sub` occurs anywhere in `p`.
pub fn contains_str(p: &String, sub: &str) -> (r: bool)
    ensures
        r == seq_contains(p@, sub@),
{
    let n = p.as_str().unicode_len();
    let m = sub.unicode_len();
    if m > n {
        proof {
            assert(forall|i: int| !sub_at(p@, sub@, i));
        }
        return false;
    }
    let mut i: usize = 0;
    while i <= n - m
        invariant
            0 <= i,
            m <= n,
            n == p@.len(),
            m == sub@.len(),
            i <= n - m,
            forall|k: int| 0 <= k < i ==> !sub_at(p@, sub@, k),
        decreases n - m - i,
    {
        if match_at(p, sub, i) {
            return true;
        }
        if i == n - m {
            proof {
                assert(forall|k: int| i < k ==> !sub_at(p@, sub@, k));
            }
            return false;
        }
        i += 1;
    }
    proof {
        assert(forall|k: int| i <= k ==> !sub_at(p@, sub@, k));
    }
    false
}

/// The key of `name` inside directory `d`.
pub fn join_key(d: &String, name: &str) -> (r: String)
    ensures
        r@ == join_sp(d@, name@),
{
    if eq_str(d, ".") {
        String::from_str(name)
    } else {
        let mut s = d.clone();
        s.append("/");
        s.append(name);
        proof {
            reveal_strlit("/");
            assert("/"@ =~= seq!['/']);
            assert(s@ =~= d@ + seq!['/'] + name@);
        }
        s
    }
}

/// Appends a fixed extension to a path, as a plain string suffix.
pub fn append_to_pathbuf(pb: &String, ext: &str) -> (r: String)
    ensures
        r@ == pb@ + ext@,
{
    let mut s = pb.clone();
    s.append(ext);
    s
}

/// Removes a fixed extension from the end of a path, if it is there.
pub fn _strip_suffix_from_pathbuf(pb: &String, ext: &str) -> (r: Option<String>)
    ensures
        r is Some <==> seq_ends_with(pb@, ext@),
        r is Some ==> r->0@ == pb@.subrange(0, pb@.len() - ext@.len()),
{
    let n = pb.as_str().unicode_len();
    let m = ext.unicode_len();
    if m > n {
        return None;
    }
    if match_at(pb, ext, n - m) {
        proof {
            assert(seq_ends_with(pb@, ext@));
        }
        let pre = pb.as_str().substring_char(0, n - m);
        Some(String::from_str(pre))
    } else {
        proof {
            if seq_ends_with(pb@, ext@) {
                assert(sub_at(pb@, ext@, n - m));
            }
        }
        None
    }
}

/// Concatenates two lists of path strings, first list first.
pub fn combine_string_vecs(a: &Vec<String>, b: &Vec<String>) -> (r: Vec<String>)
    ensures
        r.deep_view() == a.deep_view() + b.deep_view(),
        r@.len() == a@.len() + b@.len(),
        forall|j: int| 0 <= j < a@.len() ==> r@[j]@ == #[trigger] a@[j]@,
        forall|j: int| 0 <= j < b@.len() ==> r@[a@.len() + j]@ == #[trigger] b@[j]@,
{
    let mut r: Vec<String> = Vec::new();
    let mut i: usize = 0;
    while i < a.len()
        invariant
            0 <= i <= a.len(),
            r.len() == i,
            forall|j: int| 0 <= j < i ==> r@[j]@ == a@[j]@,
        decreases a.len() - i,
    {
        r.push(a[i].clone());
        i += 1;
    }
    let mut k: usize = 0;
    while k < b.len()
        invariant
            0 <= k <= b.len(),
            r.len() == a.len() + k,
            forall|j: int| 0 <= j < a.len() ==> r@[j]@ == a@[j]@,
            forall|j: int| 0 <= j < k ==> r@[a.len() + j]@ == b@[j]@,
        decreases b.len() - k,
    {
        r.push(b[k].clone());
        k += 1;
    }
    proof {
        assert(r.deep_view() =~= a.deep_view() + b.deep_view());
    }
    r
}

/// Whether `p` is a canonical path key.
pub fn check_valid_key(p: &String) -> (r: bool)
    ensures
        r == valid_key(p@),
{
    if eq_str(p, ".") {
        return true;
    }
    let n = p.as_str().unicode_len();
    if n == 0 {
        return false;
    }
    if p.as_str().get_char(0) == '/' {
        return false;
    }
    if p.as_str().get_char(n - 1) == '/' {
        return false;
    }
    let mut i: usize = 0;
    while i < n
        invariant
            0 <= i <= n,
            n == p@.len(),
            n > 0,
            p@ != dot(),
            p@[0] != '/',
            p@[n - 1] != '/',
            forall|j: int| 0 < j < i && p@[j - 1] == '/' ==> #[trigger] p@[j] != '/',
            forall|j: int| 0 <= j < i ==> !dot_component_at(p@, j),
        decreases n - i,
    {
        let c = p.as_str().get_char(i);
        if c == '/' && i > 0 {
            if p.as_str().get_char(i - 1) == '/' {
                proof {
                    assert(p@ != dot());
                    assert(p@[i - 1] == '/' && p@[i as int] == '/');
                    assert(0 < i < p@.len());
                    assert(!valid_key(p@));
                }
                return false;
            }
        }
        if c == '.' {
            let at_start = i == 0 || p.as_str().get_char(i - 1) == '/';
            let at_end = i + 1 == n || p.as_str().get_char(i + 1) == '/';
            if at_start && at_end {
                proof {
                    assert(p@ != dot());
                    assert(dot_component_at(p@, i as int));
                    assert(!valid_key(p@));
                }
                return false;
            }
        }
        i += 1;
    }
    proof {
        assert(forall|j: int| !(0 <= j < n) ==> !dot_component_at(p@, j));
    }
    true
}

/// The directory that `p` is a child of.
pub fn parent_of(p: &String) -> (r: String)
    ensures
        r@ == parent_key(p@),
{
    let n = p.as_str().unicode_len();
    let mut ls: usize = 0;
    let mut found = false;
    let mut i: usize = 0;
    while i < n
        invariant
            0 <= i <= n,
            n == p@.len(),
            found ==> ls < i && p@[ls as int] == '/' && forall|j: int|
                ls < j < i ==> p@[j] != '/',
            !found ==> forall|j: int| 0 <= j < i ==> p@[j] != '/',
        decreases n - i,
    {
        if p.as_str().get_char(i) == '/' {
            ls = i;
            found = true;
        }
        i += 1;
    }
    proof {
        lemma_last_slash(p@);
        if found {
            if last_slash(p@) > ls {
                assert(p@[last_slash(p@)] == '/');
            }
            if last_slash(p@) < ls {
                assert(no_slash_from(p@, last_slash(p@) + 1));
            }
            assert(last_slash(p@) == ls);
        } else {
            if last_slash(p@) >= 0 {
                assert(p@[last_slash(p@)] == '/');
            }
        }
    }
    if found {
        let pre = p.as_str().substring_char(0, ls);
        String::from_str(pre)
    } else {
        String::from_str(".")
    }
}

/// Whether `p` lies strictly below the current directory.
pub fn under_dot_exec(p: &String) -> (r: bool)
    ensures
        r == under_dot(p@),
{
    if eq_str(p, ".") {
        return false;
    }
    if eq_str(p, "..") {
        return false;
    }
    let r = !starts_with_str(p, "../");
    proof {
        reveal_strlit("..");
        reveal_strlit("../");
        assert("../"@ =~= ".."@ + seq!['/']);
    }
    r
}

/// Whether `p` lies strictly below directory `d`, at any depth.
pub fn is_under_exec(p: &String, d: &String) -> (r: bool)
    ensures
        r == is_under(p@, d@),
{
    if eq_str(d, ".") {
        under_dot_exec(p)
    } else {
        let pre = join_key(d, "");
        proof {
            reveal_strlit("");
            assert(pre@ =~= d@ + seq!['/']);
        }
        starts_with_str(p, pre.as_str())
    }
}

/// Whether `p` is a direct child of directory `d`.
pub fn is_child_exec(p: &String, d: &String) -> (r: bool)
    ensures
        r == is_child(p@, d@),
{
    if !is_under_exec(p, d) {
        return false;
    }
    let n = p.as_str().unicode_len();
    let start: usize = if eq_str(d, ".") {
        0
    } else {
        let dn = d.as_str().unicode_len();
        proof {
            assert(seq_starts_with(p@, d@ + seq!['/']));
            assert((d@ + seq!['/']).len() == d@.len() + 1);
            assert(d@.len() + 1 <= p@.len());
        }
        dn + 1
    };
    proof {
        assert(start as int == crate::pathspec::child_start(d@));
    }
    let mut i: usize = start;
    while i < n
        invariant
            start <= i <= n,
            n == p@.len(),
            start as int == crate::pathspec::child_start(d@),
            is_under(p@, d@),
            forall|j: int| start <= j < i ==> p@[j] != '/',
        decreases n - i,
    {
        if p.as_str().get_char(i) == '/' {
            proof {
                assert(p@[i as int] == '/');
                assert(!no_slash_from(p@, start as int));
            }
            return false;
        }
        i += 1;
    }
    true
}

} // verus!
