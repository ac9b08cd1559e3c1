//! An explicit model of the slice of the file system that the build
//! pipeline reads and writes.
//!
//! A path is a vector of name segments, each segment a vector of bytes
//! (operating-system file names are byte strings).  A tree is a flat list
//! of entries, one per existing path; well-formedness ([`FsTree::wf`])
//! asks that paths are distinct and that every proper prefix of an entry
//! is itself present as a directory.  Directories carry a readability
//! flag so that searches can be shown to tolerate unreadable branches.

use vstd::prelude::*;

verus! {

/// A single file-system node: a regular file with its contents, or a
/// directory that is either readable or not.
pub enum FsNode {
    File { data: Vec<u8> },
    Dir { readable: bool },
}

/// The spec-level shape of a node, with file contents as a byte sequence.
pub enum NodeModel {
    File { data: Seq<u8> },
    Dir { readable: bool },
}

impl FsNode {
    /// The spec-level value of this node.
    pub open spec fn model(self) -> NodeModel {
        match self {
            FsNode::File { data } => NodeModel::File { data: data@ },
            FsNode::Dir { readable } => NodeModel::Dir { readable },
        }
    }
}

/// One entry of a file-system snapshot: a path, given as its segments
/// from the model's root, and the node found there.
pub struct FsEntry {
    pub path: Vec<Vec<u8>>,
    pub node: FsNode,
}

/// An in-memory snapshot of the part of the file system that the build
/// pipeline works on.
pub struct FsTree {
    pub entries: Vec<FsEntry>,
}

/// `a` is a (not necessarily proper) leading prefix of `b`.
pub open spec fn is_prefix(a: Seq<Seq<u8>>, b: Seq<Seq<u8>>) -> bool {
    a.len() <= b.len() && a == b.subrange(0, a.len() as int)
}

/// `pre` is a leading prefix of the byte string `s`.
pub open spec fn is_seg_prefix(pre: Seq<u8>, s: Seq<u8>) -> bool {
    pre.len() <= s.len() && pre == s.subrange(0, pre.len() as int)
}

impl FsTree {
    /// Some entry of the snapshot sits at path `p`.
    pub open spec fn has(self, p: Seq<Seq<u8>>) -> bool {
        exists|i: int|
            0 <= i < self.entries@.len() && self.entries@[i].path.deep_view() == p
    }

    /// The index of the entry at path `p` (meaningful when `has(p)`).
    pub open spec fn idx_of(self, p: Seq<Seq<u8>>) -> int {
        choose|i: int|
            0 <= i < self.entries@.len() && self.entries@[i].path.deep_view() == p
    }

    /// The node at path `p` (meaningful when `has(p)`).
    pub open spec fn node_at(self, p: Seq<Seq<u8>>) -> NodeModel {
        self.entries@[self.idx_of(p)].node.model()
    }

    /// A regular file sits at `p`.
    pub open spec fn is_file(self, p: Seq<Seq<u8>>) -> bool {
        self.has(p) && self.node_at(p) is File
    }

    /// The contents of the file at `p` (meaningful when `is_file(p)`).
    pub open spec fn file_data(self, p: Seq<Seq<u8>>) -> Seq<u8> {
        match self.node_at(p) {
            NodeModel::File { data } => data,
            NodeModel::Dir { .. } => Seq::empty(),
        }
    }

    /// A directory sits at `p`.
    pub open spec fn is_dir(self, p: Seq<Seq<u8>>) -> bool {
        self.has(p) && self.node_at(p) is Dir
    }

    /// A readable directory sits at `p`.
    pub open spec fn is_rdir(self, p: Seq<Seq<u8>>) -> bool {
        self.is_dir(p) && match self.node_at(p) {
            NodeModel::Dir { readable } => readable,
            NodeModel::File { .. } => false,
        }
    }

    /// Well-formedness: paths are distinct and non-empty, and every
    /// proper prefix of an entry's path is present as a directory.
    pub open spec fn wf(self) -> bool {
        &&& forall|i: int, j: int|
            0 <= i < j < self.entries@.len() ==> #[trigger] self.entries@[i].path.deep_view()
                != #[trigger] self.entries@[j].path.deep_view()
        &&& forall|i: int|
            0 <= i < self.entries@.len() ==> (#[trigger] self.entries@[i].path@.len()) >= 1
        &&& forall|i: int, k: int|
            0 <= i < self.entries@.len() && 1 <= k < self.entries@[i].path@.len()
                ==> self.is_dir(#[trigger] self.entries@[i].path.deep_view().subrange(0, k))
    }

    /// The entry at index `i` is the unique one at its path, so the
    /// path-based spec functions agree with it.
    pub proof fn lemma_entry_idx(self, i: int)
        requires
            self.wf(),
            0 <= i < self.entries@.len(),
        ensures
            self.has(self.entries@[i].path.deep_view()),
            self.idx_of(self.entries@[i].path.deep_view()) == i,
            self.node_at(self.entries@[i].path.deep_view()) == self.entries@[i].node.model(),
    {
        let p = self.entries@[i].path.deep_view();
        assert(self.has(p));
        let j = self.idx_of(p);
        assert(self.entries@[j].path.deep_view() == p);
        if i < j {
            assert(self.entries@[i].path.deep_view() != self.entries@[j].path.deep_view());
        } else if j < i {
            assert(self.entries@[j].path.deep_view() != self.entries@[i].path.deep_view());
        }
    }
}

/// The deep view of a vector of byte strings indexes to the views of its
/// elements.
pub proof fn lemma_dv_index(v: Vec<Vec<u8>>, k: int)
    requires
        0 <= k < v@.len(),
    ensures
        v.deep_view().len() == v@.len(),
        v.deep_view()[k] == v@[k]@,
{
    assert(v.deep_view()[k] =~= v@[k]@);
}

/// Byte-string equality.
pub fn seg_eq(a: &Vec<u8>, b: &Vec<u8>) -> (r: bool)
    ensures
        r == (a@ == b@),
{
    if a.len() != b.len() {
        return false;
    }
    let mut i: usize = 0;
    while i < a.len()
        invariant
            a@.len() == b@.len(),
            0 <= i <= a@.len(),
            forall|k: int| 0 <= k < i ==> a@[k] == b@[k],
        decreases a@.len() - i,
    {
        if a[i] != b[i] {
            return false;
        }
        i = i + 1;
    }
    proof {
        assert(a@ =~= b@);
    }
    true
}

/// Does the byte string `s` start with `pre`?
pub fn seg_starts_with(s: &Vec<u8>, pre: &Vec<u8>) -> (r: bool)
    ensures
        r == is_seg_prefix(pre@, s@),
{
    if pre.len() > s.len() {
        proof {
            assert(!is_seg_prefix(pre@, s@));
        }
        return false;
    }
    let mut i: usize = 0;
    while i < pre.len()
        invariant
            pre@.len() <= s@.len(),
            0 <= i <= pre@.len(),
            forall|k: int| 0 <= k < i ==> pre@[k] == s@[k],
        decreases pre@.len() - i,
    {
        if pre[i] != s[i] {
            proof {
                assert(s@.subrange(0, pre@.len() as int)[i as int] == s@[i as int]);
            }
            return false;
        }
        i = i + 1;
    }
    proof {
        assert(pre@ =~= s@.subrange(0, pre@.len() as int));
    }
    true
}

/// Does the path `p` start with the path `pre`?
pub fn path_starts_with(p: &Vec<Vec<u8>>, pre: &Vec<Vec<u8>>) -> (r: bool)
    ensures
        r == is_prefix(pre.deep_view(), p.deep_view()),
{
    proof {
        assert(p.deep_view().len() == p@.len());
        assert(pre.deep_view().len() == pre@.len());
    }
    if pre.len() > p.len() {
        return false;
    }
    let mut i: usize = 0;
    while i < pre.len()
        invariant
            pre@.len() <= p@.len(),
            p.deep_view().len() == p@.len(),
            pre.deep_view().len() == pre@.len(),
            0 <= i <= pre@.len(),
            forall|k: int| 0 <= k < i ==> pre.deep_view()[k] == p.deep_view()[k],
        decreases pre@.len() - i,
    {
        let same = seg_eq(&pre[i], &p[i]);
        proof {
            lemma_dv_index(*p, i as int);
            lemma_dv_index(*pre, i as int);
        }
        if !same {
            proof {
                assert(p.deep_view().subrange(0, pre@.len() as int)[i as int]
                    == p.deep_view()[i as int]);
            }
            return false;
        }
        i = i + 1;
    }
    proof {
        assert(pre.deep_view() =~= p.deep_view().subrange(0, pre.deep_view().len() as int));
    }
    true
}

/// A fresh copy of a byte string.
pub fn seg_clone(a: &Vec<u8>) -> (r: Vec<u8>)
    ensures
        r@ == a@,
{
    let mut r: Vec<u8> = Vec::new();
    let mut i: usize = 0;
    while i < a.len()
        invariant
            0 <= i <= a@.len(),
            r@ =~= a@.subrange(0, i as int),
        decreases a@.len() - i,
    {
        r.push(a[i]);
        i = i + 1;
    }
    proof {
        assert(r@ =~= a@);
    }
    r
}

/// A fresh copy of a path.
pub fn path_clone(a: &Vec<Vec<u8>>) -> (r: Vec<Vec<u8>>)
    ensures
        r.deep_view() == a.deep_view(),
        r@.len() == a@.len(),
{
    let mut r: Vec<Vec<u8>> = Vec::new();
    let mut i: usize = 0;
    while i < a.len()
        invariant
            0 <= i <= a@.len(),
            r@.len() == i,
            forall|k: int| 0 <= k < i ==> #[trigger] r@[k]@ == a@[k]@,
        decreases a@.len() - i,
    {
        r.push(seg_clone(&a[i]));
        i = i + 1;
    }
    proof {
        assert forall|k: int| 0 <= k < a@.len() implies r.deep_view()[k] == a.deep_view()[k] by {
            lemma_dv_index(r, k);
            lemma_dv_index(*a, k);
        }
        assert(r.deep_view() =~= a.deep_view());
    }
    r
}

/// Path equality, segment by segment.
pub fn path_eq(a: &Vec<Vec<u8>>, b: &Vec<Vec<u8>>) -> (r: bool)
    ensures
        r == (a.deep_view() == b.deep_view()),
{
    proof {
        assert(a.deep_view().len() == a@.len());
        assert(b.deep_view().len() == b@.len());
    }
    if a.len() != b.len() {
        return false;
    }
    let mut i: usize = 0;
    while i < a.len()
        invariant
            a@.len() == b@.len(),
            a.deep_view().len() == a@.len(),
            b.deep_view().len() == b@.len(),
            0 <= i <= a@.len(),
            forall|k: int| 0 <= k < i ==> a.deep_view()[k] == b.deep_view()[k],
        decreases a@.len() - i,
    {
        let same = seg_eq(&a[i], &b[i]);
        proof {
            lemma_dv_index(*a, i as int);
            lemma_dv_index(*b, i as int);
        }
        if !same {
            return false;
        }
        i = i + 1;
    }
    proof {
        assert(a.deep_view() =~= b.deep_view());
    }
    true
}

/// How a tree extends another by one pushed entry: everything old is
/// kept in place, and the new path (absent before, with its proper
/// prefixes present as directories) now holds the new node.
pub proof fn lemma_push_entry(t: FsTree, t2: FsTree, e: FsEntry)
    requires
        t.wf(),
        t2.entries@ == t.entries@.push(e),
        !t.has(e.path.deep_view()),
        e.path@.len() >= 1,
        forall|k: int|
            1 <= k < e.path@.len() ==> t.is_dir(#[trigger] e.path.deep_view().subrange(0, k)),
    ensures
        t2.wf(),
        forall|p: Seq<Seq<u8>>|
            #[trigger] t2.has(p) <==> t.has(p) || p == e.path.deep_view(),
        forall|p: Seq<Seq<u8>>|
            t.has(p) ==> #[trigger] t2.node_at(p) == t.node_at(p),
        t2.has(e.path.deep_view()),
        t2.node_at(e.path.deep_view()) == e.node.model(),
{
    let n = t.entries@.len();
    let pv = e.path.deep_view();
    assert(t2.entries@[n as int] == e);
    assert forall|p: Seq<Seq<u8>>| #[trigger] t2.has(p) implies t.has(p) || p == pv by {
        let i = choose|i: int|
            0 <= i < t2.entries@.len() && t2.entries@[i].path.deep_view() == p;
        if i < n {
            assert(t.entries@[i].path.deep_view() == p);
        }
    }
    assert forall|p: Seq<Seq<u8>>| t.has(p) implies #[trigger] t2.has(p) by {
        let i = choose|i: int|
            0 <= i < t.entries@.len() && t.entries@[i].path.deep_view() == p;
        assert(t2.entries@[i].path.deep_view() == p);
    }
    assert(t2.has(pv));
    // Distinctness of t2.
    assert forall|i: int, j: int| 0 <= i < j < t2.entries@.len() implies
        #[trigger] t2.entries@[i].path.deep_view() != #[trigger] t2.entries@[j].path.deep_view()
    by {
        if j < n {
            assert(t.entries@[i].path.deep_view() != t.entries@[j].path.deep_view());
        } else {
            assert(t2.entries@[j].path.deep_view() == pv);
            if t2.entries@[i].path.deep_view() == pv {
                assert(t.entries@[i].path.deep_view() == pv);
                assert(t.has(pv));
            }
        }
    }
    // Old nodes are unchanged.
    assert forall|p: Seq<Seq<u8>>| t.has(p) implies #[trigger] t2.node_at(p) == t.node_at(p) by {
        let i = t.idx_of(p);
        assert(t2.entries@[i].path.deep_view() == p);
        let j = t2.idx_of(p);
        assert(0 <= j < t2.entries@.len() && t2.entries@[j].path.deep_view() == p);
        if i != j {
            if j == n {
                assert(pv == p);
                assert(!t.has(p));
            } else if i < j {
                assert(t2.entries@[i].path.deep_view() != t2.entries@[j].path.deep_view());
            } else {
                assert(t2.entries@[j].path.deep_view() != t2.entries@[i].path.deep_view());
            }
        }
    }
    // The new node.
    let j = t2.idx_of(pv);
    assert(0 <= j < t2.entries@.len() && t2.entries@[j].path.deep_view() == pv);
    if j < n {
        assert(t.entries@[j].path.deep_view() == pv);
        assert(t.has(pv));
    }
    assert(t2.node_at(pv) == e.node.model());
    // Prefix closure of t2.
    assert forall|i: int, k: int|
        0 <= i < t2.entries@.len() && 1 <= k < t2.entries@[i].path@.len() implies
        t2.is_dir(#[trigger] t2.entries@[i].path.deep_view().subrange(0, k))
    by {
        let q = t2.entries@[i].path.deep_view().subrange(0, k);
        if i < n {
            assert(t.is_dir(q));
        } else {
            assert(t2.entries@[i] == e);
            assert(t.is_dir(q));
        }
        assert(t2.node_at(q) == t.node_at(q));
    }
}

/// How a tree relates to another that differs in a single entry's node,
/// at a path that held a file before and holds a file after: only that
/// path's contents change.
pub proof fn lemma_update_entry(t: FsTree, t2: FsTree, i: int, e: FsEntry)
    requires
        t.wf(),
        0 <= i < t.entries@.len(),
        t2.entries@ == t.entries@.update(i, e),
        e.path@ == t.entries@[i].path@,
        t.entries@[i].node.model() is File,
        e.node.model() is File,
    ensures
        t2.wf(),
        forall|p: Seq<Seq<u8>>| #[trigger] t2.has(p) <==> t.has(p),
        forall|p: Seq<Seq<u8>>|
            t.has(p) && p != e.path.deep_view() ==> #[trigger] t2.node_at(p) == t.node_at(p),
        t2.node_at(e.path.deep_view()) == e.node.model(),
{
    let pv = e.path.deep_view();
    assert(e.path.deep_view() =~= t.entries@[i].path.deep_view());
    assert(t2.entries@[i] == e);
    assert forall|j: int| 0 <= j < t.entries@.len() implies
        #[trigger] t2.entries@[j].path.deep_view() == t.entries@[j].path.deep_view() by {
        if j != i {
            assert(t2.entries@[j] == t.entries@[j]);
        }
    }
    assert forall|p: Seq<Seq<u8>>| #[trigger] t2.has(p) implies t.has(p) by {
        let j = choose|j: int|
            0 <= j < t2.entries@.len() && t2.entries@[j].path.deep_view() == p;
        assert(t.entries@[j].path.deep_view() == p);
    }
    assert forall|p: Seq<Seq<u8>>| t.has(p) implies #[trigger] t2.has(p) by {
        let j = t.idx_of(p);
        assert(t2.entries@[j].path.deep_view() == p);
    }
    assert forall|a: int, b: int| 0 <= a < b < t2.entries@.len() implies
        #[trigger] t2.entries@[a].path.deep_view() != #[trigger] t2.entries@[b].path.deep_view()
    by {
        assert(t.entries@[a].path.deep_view() != t.entries@[b].path.deep_view());
    }
    assert forall|p: Seq<Seq<u8>>| t.has(p) && p != pv implies
        #[trigger] t2.node_at(p) == t.node_at(p) by {
        let a = t.idx_of(p);
        assert(t2.entries@[a].path.deep_view() == p);
        let b = t2.idx_of(p);
        assert(t2.entries@[b].path.deep_view() == p);
        if a != b {
            if a < b {
                assert(t2.entries@[a].path.deep_view() != t2.entries@[b].path.deep_view());
            } else {
                assert(t2.entries@[b].path.deep_view() != t2.entries@[a].path.deep_view());
            }
        }
        assert(a != i);
        assert(t2.entries@[a] == t.entries@[a]);
    }
    // The updated node.
    t.lemma_entry_idx(i);
    let b = t2.idx_of(pv);
    assert(t2.entries@[b].path.deep_view() == pv);
    if b != i {
        assert(t.entries@[b].path.deep_view() == t.entries@[i].path.deep_view());
        if b < i {
            assert(t.entries@[b].path.deep_view() != t.entries@[i].path.deep_view());
        } else {
            assert(t.entries@[i].path.deep_view() != t.entries@[b].path.deep_view());
        }
    }
    assert(t2.node_at(pv) == e.node.model());
    // Prefix closure: a file is never a proper prefix, so node changes at
    // a file path leave every prefix-directory fact intact.
    assert forall|a: int, k: int|
        0 <= a < t2.entries@.len() && 1 <= k < t2.entries@[a].path@.len() implies
        t2.is_dir(#[trigger] t2.entries@[a].path.deep_view().subrange(0, k))
    by {
        let q = t2.entries@[a].path.deep_view().subrange(0, k);
        assert(t.entries@[a].path.deep_view() == t2.entries@[a].path.deep_view());
        assert(t.entries@[a].path@.len() == t2.entries@[a].path@.len());
        assert(t.is_dir(q));
        if q == pv {
            assert(t.node_at(pv) == t.entries@[i].node.model());
        }
        assert(t2.node_at(q) == t.node_at(q));
    }
}

impl FsTree {
    /// An empty snapshot.
    pub fn empty() -> (t: FsTree)
        ensures
            t.wf(),
            t.entries@.len() == 0,
            forall|p: Seq<Seq<u8>>| !(#[trigger] t.has(p)),
    {
        FsTree { entries: Vec::new() }
    }

    /// Finds the entry index for path `p`, if any.
    pub fn lookup(&self, p: &Vec<Vec<u8>>) -> (r: Option<usize>)
        requires
            self.wf(),
        ensures
            match r {
                Some(i) => {
                    &&& i < self.entries@.len()
                    &&& self.entries@[i as int].path.deep_view() == p.deep_view()
                    &&& self.has(p.deep_view())
                    &&& self.idx_of(p.deep_view()) == i as int
                    &&& self.node_at(p.deep_view()) == self.entries@[i as int].node.model()
                },
                None => !self.has(p.deep_view()),
            },
    {
        let mut i: usize = 0;
        while i < self.entries.len()
            invariant
                self.wf(),
                0 <= i <= self.entries@.len(),
                forall|k: int|
                    0 <= k < i ==> #[trigger] self.entries@[k].path.deep_view()
                        != p.deep_view(),
            decreases self.entries@.len() - i,
        {
            if path_eq(&self.entries[i].path, p) {
                proof {
                    self.lemma_entry_idx(i as int);
                }
                return Some(i);
            }
            i = i + 1;
        }
        proof {
            if self.has(p.deep_view()) {
                let k = self.idx_of(p.deep_view());
                assert(self.entries@[k].path.deep_view() == p.deep_view());
            }
        }
        None
    }

    /// Is there a regular file at `p`?
    pub fn query_is_file(&self, p: &Vec<Vec<u8>>) -> (r: bool)
        requires
            self.wf(),
        ensures
            r == self.is_file(p.deep_view()),
    {
        match self.lookup(p) {
            Some(i) => match &self.entries[i].node {
                FsNode::File { .. } => true,
                FsNode::Dir { .. } => false,
            },
            None => false,
        }
    }

    /// Is there a directory at `p`?
    pub fn query_is_dir(&self, p: &Vec<Vec<u8>>) -> (r: bool)
        requires
            self.wf(),
        ensures
            r == self.is_dir(p.deep_view()),
    {
        match self.lookup(p) {
            Some(i) => match &self.entries[i].node {
                FsNode::File { .. } => false,
                FsNode::Dir { .. } => true,
            },
            None => false,
        }
    }

    /// Is there a readable directory at `p`?
    pub fn query_is_rdir(&self, p: &Vec<Vec<u8>>) -> (r: bool)
        requires
            self.wf(),
        ensures
            r == self.is_rdir(p.deep_view()),
    {
        match self.lookup(p) {
            Some(i) => match &self.entries[i].node {
                FsNode::File { .. } => false,
                FsNode::Dir { readable } => *readable,
            },
            None => false,
        }
    }

    /// The contents of the file at `p`, if a file sits there.
    pub fn query_file_data(&self, p: &Vec<Vec<u8>>) -> (r: Option<Vec<u8>>)
        requires
            self.wf(),
        ensures
            match r {
                Some(d) => self.is_file(p.deep_view()) && d@ == self.file_data(p.deep_view()),
                None => !self.is_file(p.deep_view()),
            },
    {
        match self.lookup(p) {
            Some(i) => match &self.entries[i].node {
                FsNode::File { data } => Some(seg_clone(data)),
                FsNode::Dir { .. } => None,
            },
            None => None,
        }
    }

    /// Adds a directory at `p`.  The parent chain must already be made of
    /// directories and nothing may sit at `p` yet.
    pub fn add_dir(&mut self, p: &Vec<Vec<u8>>, readable: bool)
        requires
            old(self).wf(),
            p@.len() >= 1,
            !old(self).has(p.deep_view()),
            forall|k: int|
                1 <= k < p@.len() ==> old(self).is_dir(#[trigger] p.deep_view().subrange(0, k)),
        ensures
            final(self).wf(),
            forall|q: Seq<Seq<u8>>|
                #[trigger] final(self).has(q) <==> old(self).has(q) || q == p.deep_view(),
            forall|q: Seq<Seq<u8>>|
                old(self).has(q) ==> #[trigger] final(self).node_at(q) == old(self).node_at(q),
            final(self).is_dir(p.deep_view()),
            final(self).is_rdir(p.deep_view()) == readable,
    {
        let e = FsEntry { path: path_clone(p), node: FsNode::Dir { readable } };
        proof {
            assert(e.path.deep_view() == p.deep_view());
            assert(e.path@.len() == p@.len());
        }
        let ghost t0 = *self;
        self.entries.push(e);
        proof {
            lemma_push_entry(t0, *self, FsEntry { path: e.path, node: FsNode::Dir { readable } });
        }
    }

    /// Adds a regular file at `p` with contents `data`.  The parent chain
    /// must already be made of directories and nothing may sit at `p` yet.
    pub fn add_file(&mut self, p: &Vec<Vec<u8>>, data: Vec<u8>)
        requires
            old(self).wf(),
            p@.len() >= 1,
            !old(self).has(p.deep_view()),
            forall|k: int|
                1 <= k < p@.len() ==> old(self).is_dir(#[trigger] p.deep_view().subrange(0, k)),
        ensures
            final(self).wf(),
            forall|q: Seq<Seq<u8>>|
                #[trigger] final(self).has(q) <==> old(self).has(q) || q == p.deep_view(),
            forall|q: Seq<Seq<u8>>|
                old(self).has(q) ==> #[trigger] final(self).node_at(q) == old(self).node_at(q),
            final(self).is_file(p.deep_view()),
            final(self).file_data(p.deep_view()) == data@,
    {
        let ghost dv = data@;
        let e = FsEntry { path: path_clone(p), node: FsNode::File { data } };
        proof {
            assert(e.path.deep_view() == p.deep_view());
            assert(e.path@.len() == p@.len());
        }
        let ghost t0 = *self;
        self.entries.push(e);
        proof {
            lemma_push_entry(t0, *self, self.entries@[t0.entries@.len() as int]);
            assert(self.node_at(p.deep_view()) == NodeModel::File { data: dv });
        }
    }
}

} // verus!
