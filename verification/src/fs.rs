//! The model of the directory trees an invocation works on.
//!
//! `Fs` maps canonical path keys to nodes: directories, or files with their
//! byte content. Its view is a `Map<Seq<char>, NodeView>`, and every key obeys
//! `map_wf`: keys are canonical, the current directory `.` is present, and
//! every non-root key has its parent directory in the map. The front end
//! mirrors the real filesystem into an `Fs` before an operation and applies
//! the resulting changes back afterwards; tests build the trees directly.
use vstd::prelude::*;

use crate::pathspec::{
    dot, is_child, is_root_key, is_under, parent_key, valid_key,
};
use crate::pathspec::{lemma_under_not_root, lemma_under_step, lemma_under_trans};
use crate::strutil::{check_valid_key, eq_str, is_child_exec, parent_of};

verus! {

/// One node of a modelled tree: a directory, or a file with its content.
#[derive(Debug)]
pub enum Node {
    Dir,
    File(Vec<u8>),
}

/// The mathematical value of a node.
#[verifier::ext_equal]
pub enum NodeView {
    Dir,
    File(Seq<u8>),
}

impl View for Node {
    type V = NodeView;

    open spec fn view(&self) -> NodeView {
        match self {
            Node::Dir => NodeView::Dir,
            Node::File(c) => NodeView::File(c@),
        }
    }
}

/// Well-formedness of a modelled tree: the current directory is present, all
/// keys are canonical, and every non-root key hangs under a directory that is
/// itself in the map.
pub open spec fn map_wf(m: Map<Seq<char>, NodeView>) -> bool {
    &&& m.contains_key(dot()) && m[dot()] is Dir
    &&& forall|p: Seq<char>| #[trigger] m.contains_key(p) ==> valid_key(p)
    &&& forall|p: Seq<char>|
        #[trigger] m.contains_key(p) && !is_root_key(p) ==> m.contains_key(parent_key(p))
            && m[parent_key(p)] is Dir
}

/// In a well-formed tree, a key strictly below `d` but not a direct child of
/// `d` lies below some directory of the tree that is a direct child of `d`.
pub proof fn lemma_under_has_child_dir(m: Map<Seq<char>, NodeView>, p: Seq<char>, d: Seq<char>)
    requires
        map_wf(m),
        m.contains_key(p),
        is_under(p, d),
        !is_child(p, d),
    ensures
        exists|c: Seq<char>|
            {
                &&& m.contains_key(c)
                &&& m[c] is Dir
                &&& #[trigger] is_child(c, d)
                &&& is_under(p, c)
            },
    decreases p.len(),
{
    lemma_under_not_root(p, d);
    lemma_under_step(p, d);
    let q = parent_key(p);
    if is_child(q, d) {
        assert(m.contains_key(q) && m[q] is Dir && is_child(q, d) && is_under(p, q));
    } else {
        assert(q != d);
        lemma_under_has_child_dir(m, q, d);
        let c = choose|c: Seq<char>|
            {
                &&& m.contains_key(c)
                &&& m[c] is Dir
                &&& #[trigger] is_child(c, d)
                &&& is_under(q, c)
            };
        lemma_under_trans(p, q, c);
        assert(m.contains_key(c) && m[c] is Dir && is_child(c, d) && is_under(p, c));
    }
}

/// In a well-formed tree, only directories have keys below them.
pub proof fn lemma_under_is_dir(m: Map<Seq<char>, NodeView>, p: Seq<char>, f: Seq<char>)
    requires
        map_wf(m),
        m.contains_key(p),
        m.contains_key(f),
        is_under(p, f),
    ensures
        m[f] is Dir,
    decreases p.len(),
{
    lemma_under_not_root(p, f);
    if is_child(p, f) {
        crate::pathspec::lemma_child_parent(p, f);
    } else {
        lemma_under_step(p, f);
        let q = parent_key(p);
        if q == f {
        } else {
            lemma_under_is_dir(m, q, f);
        }
    }
}

struct FsEntry {
    path: String,
    node: Node,
}

/// The modelled trees of one invocation, keyed by canonical relative paths.
pub struct Fs {
    entries: Vec<FsEntry>,
}

spec fn distinct_keys(s: Seq<FsEntry>) -> bool {
    forall|i: int, j: int| 0 <= i < j < s.len() ==> s[i].path@ != s[j].path@
}

spec fn map_of(s: Seq<FsEntry>) -> Map<Seq<char>, NodeView>
    decreases s.len(),
{
    if s.len() == 0 {
        Map::empty()
    } else {
        map_of(s.drop_last()).insert(s.last().path@, s.last().node@)
    }
}

proof fn lemma_map_of_contains(s: Seq<FsEntry>, k: Seq<char>)
    ensures
        map_of(s).contains_key(k) <==> exists|i: int| 0 <= i < s.len() && s[i].path@ == k,
    decreases s.len(),
{
    if s.len() > 0 {
        lemma_map_of_contains(s.drop_last(), k);
        if s.last().path@ == k {
            assert(s[s.len() - 1].path@ == k);
        } else {
            if map_of(s).contains_key(k) {
                let i = choose|i: int| 0 <= i < s.drop_last().len() && s.drop_last()[i].path@ == k;
                assert(s[i].path@ == k);
            }
            if exists|i: int| 0 <= i < s.len() && s[i].path@ == k {
                let i = choose|i: int| 0 <= i < s.len() && s[i].path@ == k;
                assert(i < s.len() - 1);
                assert(s.drop_last()[i].path@ == k);
            }
        }
    }
}

proof fn lemma_map_of_dom_finite(s: Seq<FsEntry>)
    ensures
        map_of(s).dom().finite(),
    decreases s.len(),
{
    if s.len() == 0 {
        assert(map_of(s).dom() =~= Set::<Seq<char>>::empty());
    } else {
        lemma_map_of_dom_finite(s.drop_last());
    }
}

proof fn lemma_map_of_value(s: Seq<FsEntry>, i: int)
    requires
        distinct_keys(s),
        0 <= i < s.len(),
    ensures
        map_of(s).contains_key(s[i].path@),
        map_of(s)[s[i].path@] == s[i].node@,
    decreases s.len(),
{
    if i == s.len() - 1 {
    } else {
        assert(distinct_keys(s.drop_last())) by {
            assert(forall|a: int, b: int|
                0 <= a < b < s.drop_last().len() ==> s.drop_last()[a].path@ != s.drop_last()[b].path@);
        }
        lemma_map_of_value(s.drop_last(), i);
        assert(s[i].path@ != s.last().path@);
    }
}

impl View for Fs {
    type V = Map<Seq<char>, NodeView>;

    closed spec fn view(&self) -> Map<Seq<char>, NodeView> {
        map_of(self.entries@)
    }
}

impl Fs {
    /// The representation holds each key once and models a well-formed tree.
    pub closed spec fn wf(&self) -> bool {
        distinct_keys(self.entries@) && map_wf(self@)
    }

    /// A well-formed `Fs` views to a well-formed map.
    pub proof fn lemma_wf(&self)
        requires
            self.wf(),
        ensures
            map_wf(self@),
    {
    }

    /// The view holds finitely many keys.
    pub proof fn lemma_dom_finite(&self)
        ensures
            self@.dom().finite(),
    {
        lemma_map_of_dom_finite(self.entries@);
    }

    /// An empty model: just the current directory.
    pub fn new() -> (r: Fs)
        ensures
            r.wf(),
            r@ == Map::<Seq<char>, NodeView>::empty().insert(dot(), NodeView::Dir),
    {
        let mut entries: Vec<FsEntry> = Vec::new();
        entries.push(FsEntry { path: String::from_str("."), node: Node::Dir });
        let fs = Fs { entries };
        proof {
            reveal_with_fuel(map_of, 2);
            assert(fs.entries@.drop_last() =~= Seq::<FsEntry>::empty());
            assert(map_of(fs.entries@.drop_last()) == map_of(Seq::<FsEntry>::empty()));
            assert(fs@ =~~= Map::<Seq<char>, NodeView>::empty().insert(dot(), NodeView::Dir));
            assert(map_wf(fs@)) by {
                assert(fs@.contains_key(dot()) && fs@[dot()] is Dir);
                assert(forall|p: Seq<char>| #[trigger] fs@.contains_key(p) ==> p == dot());
            }
        }
        fs
    }

    fn find_index(&self, p: &String) -> (r: Option<usize>)
        ensures
            match r {
                Some(i) => i < self.entries@.len() && self.entries@[i as int].path@ == p@,
                None => forall|j: int|
                    0 <= j < self.entries@.len() ==> self.entries@[j].path@ != p@,
            },
    {
        let mut i: usize = 0;
        while i < self.entries.len()
            invariant
                0 <= i <= self.entries@.len(),
                forall|j: int| 0 <= j < i ==> self.entries@[j].path@ != p@,
            decreases self.entries@.len() - i,
        {
            if self.entries[i].path.eq(p) {
                return Some(i);
            }
            i += 1;
        }
        None
    }

    /// Looks a key up, giving the node stored under it.
    pub fn get(&self, p: &String) -> (r: Option<&Node>)
        requires
            self.wf(),
        ensures
            match r {
                Some(n) => self@.contains_key(p@) && n@ == self@[p@],
                None => !self@.contains_key(p@),
            },
    {
        proof {
            lemma_map_of_contains(self.entries@, p@);
        }
        match self.find_index(p) {
            Some(i) => {
                proof {
                    lemma_map_of_value(self.entries@, i as int);
                }
                Some(&self.entries[i].node)
            },
            None => None,
        }
    }

    /// Whether a key is present at all.
    pub fn contains(&self, p: &String) -> (r: bool)
        requires
            self.wf(),
        ensures
            r == self@.contains_key(p@),
    {
        match self.get(p) {
            Some(_) => true,
            None => false,
        }
    }

    /// Whether a key is present and holds a regular file.
    pub fn is_file(&self, p: &String) -> (r: bool)
        requires
            self.wf(),
        ensures
            r == (self@.contains_key(p@) && self@[p@] is File),
    {
        match self.get(p) {
            Some(n) => match n {
                Node::File(_) => true,
                Node::Dir => false,
            },
            None => false,
        }
    }

    /// Whether a key is present and holds a directory.
    pub fn is_dir(&self, p: &String) -> (r: bool)
        requires
            self.wf(),
        ensures
            r == (self@.contains_key(p@) && self@[p@] is Dir),
    {
        match self.get(p) {
            Some(n) => match n {
                Node::Dir => true,
                Node::File(_) => false,
            },
            None => false,
        }
    }

    pub(crate) fn insert_node(&mut self, p: &String, node: Node)
        requires
            old(self).wf(),
            !old(self)@.contains_key(p@),
            valid_key(p@),
            !is_root_key(p@) ==> old(self)@.contains_key(parent_key(p@)) && old(self)@[parent_key(
                p@,
            )] is Dir,
        ensures
            final(self).wf(),
            final(self)@ == old(self)@.insert(p@, node@),
    {
        let ghost oldseq = self.entries@;
        let ghost oldmap = self@;
        proof {
            lemma_map_of_contains(oldseq, p@);
        }
        let path = p.clone();
        self.entries.push(FsEntry { path, node });
        proof {
            assert(self.entries@.drop_last() =~= oldseq);
            assert(self@ == oldmap.insert(p@, node@));
            assert(distinct_keys(self.entries@)) by {
                assert(forall|j: int| 0 <= j < oldseq.len() ==> oldseq[j].path@ != p@);
                assert(forall|j: int|
                    0 <= j < self.entries@.len() - 1 ==> self.entries@[j] == oldseq[j]);
            }
            assert(map_wf(self@)) by {
                assert(p@ != dot());
                assert forall|q: Seq<char>|
                    #[trigger] self@.contains_key(q) && !is_root_key(q) implies self@.contains_key(
                    parent_key(q),
                ) && self@[parent_key(q)] is Dir by {
                    if q == p@ {
                        assert(oldmap.contains_key(parent_key(q)));
                        assert(parent_key(q) != p@);
                    } else {
                        assert(oldmap.contains_key(q));
                        assert(oldmap.contains_key(parent_key(q)) && oldmap[parent_key(q)] is Dir);
                        assert(parent_key(q) != p@);
                    }
                }
            }
        }
    }

    pub(crate) fn remove_node(&mut self, p: &String)
        requires
            old(self).wf(),
            old(self)@.contains_key(p@),
            old(self)@[p@] is File,
        ensures
            final(self).wf(),
            final(self)@ == old(self)@.remove(p@),
    {
        let ghost oldseq = self.entries@;
        let ghost oldmap = self@;
        proof {
            lemma_map_of_contains(oldseq, p@);
        }
        let i = match self.find_index(p) {
            Some(i) => i,
            None => {
                proof {
                    assert(false);
                }
                0
            },
        };
        self.entries.remove(i);
        proof {
            let newseq = self.entries@;
            oldseq.remove_ensures(i as int);
            assert(distinct_keys(newseq)) by {
                assert forall|a: int, b: int| 0 <= a < b < newseq.len() implies newseq[a].path@
                    != newseq[b].path@ by {
                    let a2: int = if a < i { a } else { a + 1 };
                    let b2: int = if b < i { b } else { b + 1 };
                    assert(newseq[a] == oldseq[a2]);
                    assert(newseq[b] == oldseq[b2]);
                }
            }
            assert forall|k: Seq<char>| #![auto] map_of(newseq).contains_key(k) == (
            oldmap.contains_key(k) && k != p@) by {
                lemma_map_of_contains(newseq, k);
                lemma_map_of_contains(oldseq, k);
                if map_of(newseq).contains_key(k) {
                    let j = choose|j: int| 0 <= j < newseq.len() && newseq[j].path@ == k;
                    let j2: int = if j < i { j } else { j + 1 };
                    assert(oldseq[j2].path@ == k);
                    if k == p@ {
                        assert(oldseq[i as int].path@ == p@);
                        assert(j2 != i);
                        assert(false);
                    }
                }
                if oldmap.contains_key(k) && k != p@ {
                    let j = choose|j: int| 0 <= j < oldseq.len() && oldseq[j].path@ == k;
                    assert(j != i);
                    let j2: int = if j < i { j } else { j - 1 };
                    assert(newseq[j2].path@ == k);
                }
            }
            assert forall|k: Seq<char>| #![auto] map_of(newseq).contains_key(k) implies map_of(
                newseq,
            )[k] == oldmap[k] by {
                lemma_map_of_contains(newseq, k);
                let j = choose|j: int| 0 <= j < newseq.len() && newseq[j].path@ == k;
                lemma_map_of_value(newseq, j);
                let j2: int = if j < i { j } else { j + 1 };
                assert(newseq[j] == oldseq[j2]);
                lemma_map_of_value(oldseq, j2);
            }
            assert(self@ =~~= oldmap.remove(p@));
            assert(map_wf(self@)) by {
                assert(dot() != p@);
                assert forall|q: Seq<char>|
                    #[trigger] self@.contains_key(q) && !is_root_key(q) implies self@.contains_key(
                    parent_key(q),
                ) && self@[parent_key(q)] is Dir by {
                    assert(oldmap.contains_key(q));
                    assert(oldmap.contains_key(parent_key(q)) && oldmap[parent_key(q)] is Dir);
                    assert(parent_key(q) != p@);
                }
            }
        }
    }

    /// Replaces the content of an existing regular file.
    pub(crate) fn set_file(&mut self, p: &String, content: Vec<u8>)
        requires
            old(self).wf(),
            old(self)@.contains_key(p@),
            old(self)@[p@] is File,
        ensures
            final(self).wf(),
            final(self)@ == old(self)@.insert(p@, NodeView::File(content@)),
    {
        let ghost oldmap = self@;
        self.remove_node(p);
        proof {
            if !is_root_key(p@) {
                assert(oldmap.contains_key(parent_key(p@)) && oldmap[parent_key(p@)] is Dir);
                assert(parent_key(p@) != p@);
            }
        }
        self.insert_node(p, Node::File(content));
        proof {
            assert(self@ =~~= oldmap.insert(p@, NodeView::File(content@)));
        }
    }

    /// Adds a directory under an existing parent directory. Gives back whether
    /// the placement was valid and the directory was added.
    pub fn add_dir(&mut self, p: &String) -> (r: bool)
        requires
            old(self).wf(),
        ensures
            final(self).wf(),
            r == {
                &&& !old(self)@.contains_key(p@)
                &&& valid_key(p@)
                &&& (is_root_key(p@) || (old(self)@.contains_key(parent_key(p@)) && old(self)@[
                    parent_key(p@)
                ] is Dir))
            },
            r ==> final(self)@ == old(self)@.insert(p@, NodeView::Dir),
            !r ==> final(self)@ == old(self)@,
    {
        if !self.placement_ok(p) {
            return false;
        }
        self.insert_node(p, Node::Dir);
        true
    }

    /// Adds a regular file with the given content under an existing parent
    /// directory. Gives back whether the placement was valid.
    pub fn add_file(&mut self, p: &String, content: Vec<u8>) -> (r: bool)
        requires
            old(self).wf(),
        ensures
            final(self).wf(),
            r == {
                &&& !old(self)@.contains_key(p@)
                &&& valid_key(p@)
                &&& (is_root_key(p@) || (old(self)@.contains_key(parent_key(p@)) && old(self)@[
                    parent_key(p@)
                ] is Dir))
            },
            r ==> final(self)@ == old(self)@.insert(p@, NodeView::File(content@)),
            !r ==> final(self)@ == old(self)@,
    {
        if !self.placement_ok(p) {
            return false;
        }
        self.insert_node(p, Node::File(content));
        true
    }

    fn placement_ok(&self, p: &String) -> (r: bool)
        requires
            self.wf(),
        ensures
            r == {
                &&& !self@.contains_key(p@)
                &&& valid_key(p@)
                &&& (is_root_key(p@) || (self@.contains_key(parent_key(p@)) && self@[parent_key(
                    p@,
                )] is Dir))
            },
    {
        if !check_valid_key(p) {
            return false;
        }
        if self.contains(p) {
            return false;
        }
        if eq_str(p, ".") || eq_str(p, "..") {
            return true;
        }
        let par = parent_of(p);
        self.is_dir(&par)
    }

    /// Every key that is a direct child of directory `d`, each exactly once.
    pub fn children_of(&self, d: &String) -> (r: Vec<String>)
        requires
            self.wf(),
        ensures
            forall|i: int|
                0 <= i < r@.len() ==> self@.contains_key(#[trigger] r@[i]@) && is_child(r@[i]@, d@),
            forall|k: Seq<char>|
                #[trigger] self@.contains_key(k) && is_child(k, d@) ==> exists|i: int|
                    0 <= i < r@.len() && r@[i]@ == k,
            forall|i: int, j: int| 0 <= i < j < r@.len() ==> r@[i]@ != r@[j]@,
    {
        let mut r: Vec<String> = Vec::new();
        let mut e: usize = 0;
        while e < self.entries.len()
            invariant
                self.wf(),
                0 <= e <= self.entries@.len(),
                forall|a: int|
                    0 <= a < r@.len() ==> is_child(#[trigger] r@[a]@, d@) && exists|j: int|
                        0 <= j < e && self.entries@[j].path@ == r@[a]@,
                forall|j: int|
                    0 <= j < e && is_child(#[trigger] self.entries@[j].path@, d@) ==> exists|a: int|
                        0 <= a < r@.len() && r@[a]@ == self.entries@[j].path@,
                forall|a: int, b: int| 0 <= a < b < r@.len() ==> r@[a]@ != r@[b]@,
            decreases self.entries@.len() - e,
        {
            let ghost oldr = r@;
            if is_child_exec(&self.entries[e].path, d) {
                proof {
                    assert forall|a: int| 0 <= a < r@.len() implies r@[a]@
                        != self.entries@[e as int].path@ by {
                        let j = choose|j: int| 0 <= j < e && self.entries@[j].path@ == r@[a]@;
                        assert(self.entries@[j].path@ != self.entries@[e as int].path@);
                    }
                }
                r.push(self.entries[e].path.clone());
                proof {
                    assert forall|j: int|
                        0 <= j < e + 1 && is_child(
                            #[trigger] self.entries@[j].path@,
                            d@,
                        ) implies exists|a: int|
                        0 <= a < r@.len() && r@[a]@ == self.entries@[j].path@ by {
                        if j == e {
                            assert(r@[r@.len() - 1]@ == self.entries@[e as int].path@);
                        } else {
                            let a = choose|a: int|
                                0 <= a < oldr.len() && oldr[a]@ == self.entries@[j].path@;
                            assert(r@[a]@ == self.entries@[j].path@);
                        }
                    }
                }
            }
            e += 1;
        }
        proof {
            assert forall|a: int| 0 <= a < r@.len() implies self@.contains_key(
                #[trigger] r@[a]@,
            ) by {
                let j = choose|j: int|
                    0 <= j < self.entries@.len() && self.entries@[j].path@ == r@[a]@;
                lemma_map_of_value(self.entries@, j);
            }
            assert forall|k: Seq<char>|
                #[trigger] self@.contains_key(k) && is_child(k, d@) implies exists|i: int|
                0 <= i < r@.len() && r@[i]@ == k by {
                lemma_map_of_contains(self.entries@, k);
                let j = choose|j: int|
                    0 <= j < self.entries@.len() && self.entries@[j].path@ == k;
                assert(is_child(self.entries@[j].path@, d@));
            }
        }
        r
    }

    /// Every key of the tree, each exactly once.
    pub fn keys(&self) -> (r: Vec<String>)
        requires
            self.wf(),
        ensures
            forall|i: int| 0 <= i < r@.len() ==> self@.contains_key(#[trigger] r@[i]@),
            forall|k: Seq<char>|
                #[trigger] self@.contains_key(k) ==> exists|i: int|
                    0 <= i < r@.len() && r@[i]@ == k,
            forall|i: int, j: int| 0 <= i < j < r@.len() ==> r@[i]@ != r@[j]@,
    {
        let mut r: Vec<String> = Vec::new();
        let mut e: usize = 0;
        while e < self.entries.len()
            invariant
                self.wf(),
                0 <= e <= self.entries@.len(),
                r@.len() == e,
                forall|a: int| 0 <= a < e ==> r@[a]@ == #[trigger] self.entries@[a].path@,
            decreases self.entries@.len() - e,
        {
            r.push(self.entries[e].path.clone());
            e += 1;
        }
        proof {
            assert forall|i: int| 0 <= i < r@.len() implies self@.contains_key(
                #[trigger] r@[i]@,
            ) by {
                lemma_map_of_value(self.entries@, i);
            }
            assert forall|k: Seq<char>| #[trigger] self@.contains_key(k) implies exists|i: int|
                0 <= i < r@.len() && r@[i]@ == k by {
                lemma_map_of_contains(self.entries@, k);
                let i = choose|i: int|
                    0 <= i < self.entries@.len() && self.entries@[i].path@ == k;
                assert(r@[i]@ == k);
            }
            assert forall|i: int, j: int| 0 <= i < j < r@.len() implies r@[i]@ != r@[j]@ by {
                assert(self.entries@[i].path@ != self.entries@[j].path@);
            }
        }
        r
    }
}

} // verus!
