//! Locating the upstream shared-library artifact in a build tree.
//!
//! The search target is a file of a fixed name.  A file counts as found
//! under a search root only when every directory on the way down from the
//! root is readable ([`reachable`]); an unreadable branch is treated as
//! empty, never as a failure of the whole search.  The breadth-first
//! search is run with an explicit work queue, and is proved both sound
//! (what it returns is such a file) and complete (if it returns nothing,
//! no such file is reachable).

use vstd::prelude::*;
use vstd::set_lib::lemma_len_subset;
use vstd::seq_lib::seq_to_set_is_finite;
use crate::fs_model::FsTree;
use crate::fs_model::FsEntry;
use crate::fs_model::FsNode;
use crate::fs_model::is_prefix;
use crate::fs_model::path_clone;
use crate::fs_model::path_starts_with;
use crate::fs_model::seg_eq;
use crate::fs_model::lemma_dv_index;

verus! {

/// The path one level above `p`.
pub open spec fn parent_of(p: Seq<Seq<u8>>) -> Seq<Seq<u8>> {
    p.drop_last()
}

/// Every directory strictly between `root` (inclusive) and `p`
/// (exclusive) is readable, so a walk of single-level listings starting
/// at `root` can reach `p`.
pub open spec fn reachable(t: FsTree, root: Seq<Seq<u8>>, p: Seq<Seq<u8>>) -> bool {
    &&& is_prefix(root, p)
    &&& root.len() < p.len()
    &&& forall|k: int| root.len() <= k < p.len() ==> t.is_rdir(#[trigger] p.subrange(0, k))
}

/// `p` is a reachable regular file under `root` whose final segment is
/// `name`.
pub open spec fn is_target(t: FsTree, root: Seq<Seq<u8>>, p: Seq<Seq<u8>>, name: Seq<u8>) -> bool {
    &&& reachable(t, root, p)
    &&& t.is_file(p)
    &&& p.last() == name
}

/// Some reachable file named `name` sits under `root`.
pub open spec fn has_target(t: FsTree, root: Seq<Seq<u8>>, name: Seq<u8>) -> bool {
    exists|p: Seq<Seq<u8>>| is_target(t, root, p, name)
}

/// Prefixes compose.
pub proof fn lemma_prefix_trans(a: Seq<Seq<u8>>, b: Seq<Seq<u8>>, c: Seq<Seq<u8>>)
    requires
        is_prefix(a, b),
        is_prefix(b, c),
    ensures
        is_prefix(a, c),
{
    assert(a =~= c.subrange(0, a.len() as int));
}

/// A prefix of equal length is the sequence itself.
pub proof fn lemma_prefix_same_len(a: Seq<Seq<u8>>, b: Seq<Seq<u8>>)
    requires
        is_prefix(a, b),
        a.len() == b.len(),
    ensures
        a == b,
{
    assert(a =~= b);
}

/// Short subranges of a sequence and of one of its prefixes agree.
pub proof fn lemma_prefix_subrange(a: Seq<Seq<u8>>, b: Seq<Seq<u8>>, k: int)
    requires
        is_prefix(a, b),
        0 <= k <= a.len(),
    ensures
        a.subrange(0, k) == b.subrange(0, k),
{
    assert(a.subrange(0, k) =~= b.subrange(0, k));
}

/// All paths that occur in the snapshot, together with a chosen root:
/// everything a search starting at `root` could ever enqueue.
spec fn cand_set(t: FsTree, root: Seq<Seq<u8>>) -> Set<Seq<Seq<u8>>> {
    Set::new(|q: Seq<Seq<u8>>| t.has(q) || q == root)
}

proof fn lemma_cand_set_finite(t: FsTree, root: Seq<Seq<u8>>)
    ensures
        cand_set(t, root).finite(),
{
    let mapped = t.entries@.map_values(|e: FsEntry| e.path.deep_view());
    let m = mapped.to_set().insert(root);
    seq_to_set_is_finite(mapped);
    assert forall|q: Seq<Seq<u8>>| cand_set(t, root).contains(q) implies m.contains(q) by {
        if t.has(q) {
            let i = choose|i: int|
                0 <= i < t.entries@.len() && t.entries@[i].path.deep_view() == q;
            assert(mapped[i] == q);
            assert(mapped.contains(q));
        }
    }
    lemma_len_subset(cand_set(t, root), m);
}

/// An entry at index `jj` that is a direct child of `d` on the way to `p`.
spec fn child_witness(t: FsTree, d: Seq<Seq<u8>>, jj: int, p: Seq<Seq<u8>>) -> bool {
    &&& 0 <= jj < t.entries@.len()
    &&& t.entries@[jj].path.deep_view().len() == d.len() + 1
    &&& is_prefix(d, t.entries@[jj].path.deep_view())
    &&& is_prefix(t.entries@[jj].path.deep_view(), p)
}

/// When a target `p` lies at or below a popped node `d`, `d` is a
/// readable directory strictly above `p`, and some entry is a direct
/// child of `d` on the way to `p`.
proof fn lemma_pop_step(t: FsTree, root: Seq<Seq<u8>>, d: Seq<Seq<u8>>, p: Seq<Seq<u8>>, name: Seq<u8>)
    requires
        t.wf(),
        is_target(t, root, p, name),
        is_prefix(d, p),
        is_prefix(root, d),
        d == root || t.is_dir(d),
    ensures
        d.len() < p.len(),
        t.is_rdir(d),
        exists|jj: int| child_witness(t, d, jj, p),
{
    if d.len() == p.len() {
        lemma_prefix_same_len(d, p);
        if d == root {
            assert(root.len() < p.len());
        }
        assert(false);
    }
    assert(p.subrange(0, d.len() as int) =~= d);
    assert(t.is_rdir(p.subrange(0, d.len() as int)));
    let c = p.subrange(0, d.len() as int + 1);
    assert(is_prefix(d, c)) by {
        assert(d =~= c.subrange(0, d.len() as int));
    }
    assert(is_prefix(c, p)) by {
        assert(c =~= p.subrange(0, c.len() as int));
    }
    if c.len() == p.len() {
        assert(c =~= p);
        let jj = t.idx_of(p);
        assert(t.entries@[jj].path.deep_view() == p);
        assert(child_witness(t, d, jj, p));
    } else {
        let ip = t.idx_of(p);
        assert(t.entries@[ip].path.deep_view() == p);
        assert(t.entries@[ip].path@.len() == p.len());
        assert(t.is_dir(t.entries@[ip].path.deep_view().subrange(0, d.len() as int + 1)));
        assert(t.is_dir(c));
        let jj = t.idx_of(c);
        assert(t.entries@[jj].path.deep_view() == c);
        assert(child_witness(t, d, jj, p));
    }
}

/// Breadth-first search, with an explicit queue of directories still to
/// list, for a reachable file named `name` under `root`.  Unreadable
/// directories end their branch silently: they are dequeued and
/// contribute no children.
#[verifier::loop_isolation(false)]
#[verifier::rlimit(100)]
pub fn bfs_find(t: &FsTree, root: &Vec<Vec<u8>>, name: &Vec<u8>) -> (r: Option<Vec<Vec<u8>>>)
    requires
        t.wf(),
    ensures
        match r {
            Some(p) => is_target(*t, root.deep_view(), p.deep_view(), name@),
            None => !has_target(*t, root.deep_view(), name@),
        },
{
    let ghost rootv = root.deep_view();
    let ghost namev = name@;
    let ghost cands = cand_set(*t, rootv);
    proof {
        lemma_cand_set_finite(*t, rootv);
    }
    let mut queue: Vec<Vec<Vec<u8>>> = Vec::new();
    queue.push(path_clone(root));
    let ghost mut popped: Set<Seq<Seq<u8>>> = Set::empty();
    proof {
        assert(queue@[0].deep_view() == rootv);
        assert(is_prefix(rootv, rootv)) by {
            assert(rootv =~= rootv.subrange(0, rootv.len() as int));
        }
        assert forall|p: Seq<Seq<u8>>| #[trigger] is_target(*t, rootv, p, namev) implies
            exists|qi: int|
                0 <= qi < queue@.len() && is_prefix(#[trigger] queue@[qi].deep_view(), p) by {
            assert(is_prefix(queue@[0].deep_view(), p));
        }
    }
    while queue.len() > 0
        invariant
            popped.finite(),
            forall|e: Seq<Seq<u8>>| #[trigger] popped.contains(e) ==> cands.contains(e),
            forall|e: Seq<Seq<u8>>| #[trigger] popped.contains(e)
                ==> e == rootv || (e.len() > rootv.len() && popped.contains(parent_of(e))),
            forall|qi: int| 0 <= qi < queue@.len()
                ==> cands.contains(#[trigger] queue@[qi].deep_view())
                    && !popped.contains(queue@[qi].deep_view()),
            forall|qi: int, qj: int| 0 <= qi < qj < queue@.len()
                ==> #[trigger] queue@[qi].deep_view() != #[trigger] queue@[qj].deep_view(),
            forall|qi: int| 0 <= qi < queue@.len()
                ==> #[trigger] queue@[qi].deep_view() == rootv
                    || (queue@[qi].deep_view().len() > rootv.len()
                        && popped.contains(parent_of(queue@[qi].deep_view()))),
            forall|qi: int| 0 <= qi < queue@.len()
                ==> is_prefix(rootv, #[trigger] queue@[qi].deep_view()),
            forall|qi: int| 0 <= qi < queue@.len()
                ==> #[trigger] queue@[qi].deep_view() == rootv
                    || (t.is_dir(queue@[qi].deep_view())
                        && reachable(*t, rootv, queue@[qi].deep_view())),
            forall|p: Seq<Seq<u8>>| #[trigger] is_target(*t, rootv, p, namev)
                ==> exists|qi: int|
                    0 <= qi < queue@.len() && is_prefix(#[trigger] queue@[qi].deep_view(), p),
        decreases cands.difference(popped).len(),
    {
        let ghost queue_pre = queue@;
        let dir = queue.remove(0);
        let ghost d = dir.deep_view();
        let ghost popped_pre = popped;
        proof {
            assert(queue_pre[0].deep_view() == d);
            assert(cands.contains(d));
            assert(!popped.contains(d));
            assert(is_prefix(rootv, d));
            assert(d == rootv || (d.len() > rootv.len() && popped.contains(parent_of(d))));
            assert(d == rootv || (t.is_dir(d) && reachable(*t, rootv, d)));
            assert(queue@ =~= queue_pre.subrange(1, queue_pre.len() as int));
        }
        let rd = t.query_is_rdir(&dir);
        if rd {
            proof {
                // Re-establish discoverability: every target keeps a
                // witness in the remaining queue, or gains a child of `d`
                // as its pending witness.
                assert forall|p: Seq<Seq<u8>>| #[trigger] is_target(*t, rootv, p, namev) implies
                    (exists|qi: int|
                        0 <= qi < queue@.len()
                            && is_prefix(#[trigger] queue@[qi].deep_view(), p))
                    || (exists|jj: int| 0 <= jj < t.entries@.len()
                            && child_witness(*t, d, jj, p))
                by {
                    let qi0 = choose|qi: int|
                        0 <= qi < queue_pre.len() && is_prefix(
                            #[trigger] queue_pre[qi].deep_view(),
                            p,
                        );
                    if qi0 == 0 {
                        lemma_pop_step(*t, rootv, d, p, namev);
                    } else {
                        assert(queue@[qi0 - 1].deep_view() == queue_pre[qi0].deep_view());
                        assert(is_prefix(queue@[qi0 - 1].deep_view(), p));
                    }
                }
            }
            let mut j: usize = 0;
            while j < t.entries.len()
                invariant
                    0 <= j <= t.entries@.len(),
                    forall|qi: int| 0 <= qi < queue@.len()
                        ==> cands.contains(#[trigger] queue@[qi].deep_view())
                            && !popped.contains(queue@[qi].deep_view()),
                    forall|qi: int, qj: int| 0 <= qi < qj < queue@.len()
                        ==> #[trigger] queue@[qi].deep_view()
                            != #[trigger] queue@[qj].deep_view(),
                    forall|qi: int| 0 <= qi < queue@.len()
                        ==> #[trigger] queue@[qi].deep_view() != d,
                    forall|qi: int| 0 <= qi < queue@.len()
                        ==> #[trigger] queue@[qi].deep_view() == rootv
                            || (queue@[qi].deep_view().len() > rootv.len()
                                && (popped.contains(parent_of(queue@[qi].deep_view()))
                                    || (parent_of(queue@[qi].deep_view()) == d
                                        && exists|jj: int|
                                            0 <= jj < j && t.entries@[jj].path.deep_view()
                                                == #[trigger] queue@[qi].deep_view()))),
                    forall|qi: int| 0 <= qi < queue@.len()
                        ==> is_prefix(rootv, #[trigger] queue@[qi].deep_view()),
                    forall|qi: int| 0 <= qi < queue@.len()
                        ==> #[trigger] queue@[qi].deep_view() == rootv
                            || (t.is_dir(queue@[qi].deep_view())
                                && reachable(*t, rootv, queue@[qi].deep_view())),
                    forall|p: Seq<Seq<u8>>| #[trigger] is_target(*t, rootv, p, namev)
                        ==> (exists|qi: int|
                            0 <= qi < queue@.len()
                                && is_prefix(#[trigger] queue@[qi].deep_view(), p))
                            || (exists|jj: int| j <= jj < t.entries@.len()
                                    && child_witness(*t, d, jj, p)),
                decreases t.entries@.len() - j,
            {
                let ghost qtop = queue@;
                let e = &t.entries[j];
                let is_child = e.path.len() >= 1 && e.path.len() - 1 == dir.len()
                    && path_starts_with(&e.path, &dir);
                proof {
                    assert(e.path.deep_view().len() == e.path@.len());
                    assert(d.len() == dir@.len());
                }
                if is_child {
                    let ghost c = t.entries@[j as int].path.deep_view();
                    proof {
                        t.lemma_entry_idx(j as int);
                        assert(c.len() == d.len() + 1);
                        assert(t.has(c));
                        // c is reachable from the root through d.
                        assert(is_prefix(rootv, c)) by {
                            lemma_prefix_trans(rootv, d, c);
                        }
                        assert forall|k: int| rootv.len() <= k < c.len() implies
                            t.is_rdir(#[trigger] c.subrange(0, k)) by {
                            if k < d.len() {
                                assert(d != rootv);
                                assert(reachable(*t, rootv, d));
                                assert(t.is_rdir(d.subrange(0, k)));
                                lemma_prefix_subrange(d, c, k);
                            } else {
                                assert(k == d.len());
                                lemma_prefix_subrange(d, c, d.len() as int);
                                assert(d.subrange(0, d.len() as int) =~= d);
                            }
                        }
                        assert(reachable(*t, rootv, c));
                    }
                    match &e.node {
                        FsNode::File { .. } => {
                            let last = &e.path[e.path.len() - 1];
                            if seg_eq(last, name) {
                                proof {
                                    lemma_dv_index(t.entries@[j as int].path, d.len() as int);
                                    assert(c.last() == c[c.len() - 1]);
                                    assert(is_target(*t, rootv, c, namev));
                                }
                                return Some(path_clone(&e.path));
                            }
                            proof {
                                lemma_dv_index(t.entries@[j as int].path, d.len() as int);
                                assert(c.last() != namev);
                                // A mismatched file child can be no pending
                                // witness: restore the invariant.
                                assert forall|p: Seq<Seq<u8>>|
                                    #[trigger] is_target(*t, rootv, p, namev) implies
                                    (exists|qi: int|
                                        0 <= qi < queue@.len()
                                            && is_prefix(
                                            #[trigger] queue@[qi].deep_view(),
                                            p,
                                        )) || (exists|jj: int|
                                        j + 1 <= jj < t.entries@.len()
                                            && child_witness(*t, d, jj, p))
                                by {
                                    if !(exists|qi: int|
                                        0 <= qi < queue@.len()
                                            && is_prefix(
                                            #[trigger] queue@[qi].deep_view(),
                                            p,
                                        )) {
                                        let jj = choose|jj: int|
                                            j <= jj < t.entries@.len()
                                                && child_witness(*t, d, jj, p);
                                        if jj == j {
                                            if c.len() == p.len() {
                                                lemma_prefix_same_len(c, p);
                                                assert(p.last() == namev);
                                                assert(false);
                                            } else {
                                                let ip = t.idx_of(p);
                                                assert(t.entries@[ip].path.deep_view() == p);
                                                assert(t.is_dir(
                                                    t.entries@[ip].path.deep_view().subrange(
                                                        0,
                                                        c.len() as int,
                                                    ),
                                                ));
                                                lemma_prefix_subrange(c, p, c.len() as int);
                                                assert(c =~= c.subrange(0, c.len() as int));
                                                assert(t.is_dir(c));
                                                assert(false);
                                            }
                                        }
                                    }
                                }
                            }
                        },
                        FsNode::Dir { .. } => {
                            proof {
                                assert(parent_of(c) =~= d);
                                if popped.contains(c) {
                                    assert(c.len() > rootv.len());
                                    assert(popped.contains(parent_of(c)));
                                    assert(false);
                                }
                                assert forall|qi: int| 0 <= qi < queue@.len() implies
                                    queue@[qi].deep_view() != c by {
                                    if queue@[qi].deep_view() == c {
                                        assert(c != rootv);
                                        if popped.contains(parent_of(c)) {
                                            assert(false);
                                        } else {
                                            let jj = choose|jj: int|
                                                0 <= jj < j && t.entries@[jj].path.deep_view()
                                                    == c;
                                            assert(t.entries@[jj].path.deep_view()
                                                != t.entries@[j as int].path.deep_view());
                                            assert(false);
                                        }
                                    }
                                }
                            }
                            queue.push(path_clone(&e.path));
                            proof {
                                assert(queue@[queue@.len() - 1].deep_view() == c);
                                assert forall|p: Seq<Seq<u8>>|
                                    #[trigger] is_target(*t, rootv, p, namev) implies
                                    (exists|qi: int|
                                        0 <= qi < queue@.len()
                                            && is_prefix(
                                            #[trigger] queue@[qi].deep_view(),
                                            p,
                                        )) || (exists|jj: int|
                                        j + 1 <= jj < t.entries@.len()
                                            && child_witness(*t, d, jj, p))
                                by {
                                    if !(exists|qi: int|
                                        0 <= qi < qtop.len()
                                            && is_prefix(#[trigger] qtop[qi].deep_view(), p)) {
                                        let jj = choose|jj: int|
                                            j <= jj < t.entries@.len()
                                                && child_witness(*t, d, jj, p);
                                        if jj == j {
                                            assert(is_prefix(
                                                queue@[queue@.len() - 1].deep_view(),
                                                p,
                                            ));
                                        } else {
                                            assert(child_witness(*t, d, jj, p));
                                        }
                                    } else {
                                        let qi0 = choose|qi: int|
                                            0 <= qi < qtop.len()
                                                && is_prefix(
                                                #[trigger] qtop[qi].deep_view(),
                                                p,
                                            );
                                        assert(queue@[qi0].deep_view() == qtop[qi0].deep_view());
                                        assert(is_prefix(queue@[qi0].deep_view(), p));
                                    }
                                }
                            }
                        },
                    }
                } else {
                    proof {
                        // A non-child entry can be no pending witness.
                        assert forall|p: Seq<Seq<u8>>|
                            #[trigger] is_target(*t, rootv, p, namev) implies
                            (exists|qi: int|
                                0 <= qi < queue@.len()
                                    && is_prefix(#[trigger] queue@[qi].deep_view(), p))
                                || (exists|jj: int|
                                j + 1 <= jj < t.entries@.len()
                                    && child_witness(*t, d, jj, p))
                        by {
                            if !(exists|qi: int|
                                0 <= qi < queue@.len()
                                    && is_prefix(#[trigger] queue@[qi].deep_view(), p)) {
                                let jj = choose|jj: int|
                                    j <= jj < t.entries@.len() && child_witness(*t, d, jj, p);
                                if jj == j {
                                    assert(t.entries@[j as int].path.deep_view().len()
                                        == t.entries@[j as int].path@.len());
                                    assert(false);
                                }
                            }
                        }
                    }
                }
                j = j + 1;
            }
        } else {
            proof {
                // An unreadable node cannot sit above any target, so every
                // target keeps a witness in the remaining queue.
                assert forall|p: Seq<Seq<u8>>| #[trigger] is_target(*t, rootv, p, namev) implies
                    exists|qi: int|
                        0 <= qi < queue@.len() && is_prefix(#[trigger] queue@[qi].deep_view(), p)
                by {
                    let qi0 = choose|qi: int|
                        0 <= qi < queue_pre.len() && is_prefix(
                            #[trigger] queue_pre[qi].deep_view(),
                            p,
                        );
                    if qi0 == 0 {
                        lemma_pop_step(*t, rootv, d, p, namev);
                        assert(false);
                    } else {
                        assert(queue@[qi0 - 1].deep_view() == queue_pre[qi0].deep_view());
                        assert(is_prefix(queue@[qi0 - 1].deep_view(), p));
                    }
                }
            }
        }
        proof {
            popped = popped.insert(d);
            cands.lemma_set_insert_diff_decreases(popped_pre, d);
        }
    }
    proof {
        if has_target(*t, rootv, namev) {
            let p = choose|p: Seq<Seq<u8>>| is_target(*t, rootv, p, namev);
            assert(is_target(*t, rootv, p, namev));
        }
    }
    None
}

/// The directory-name prefix that marks the upstream dependency's build
/// directories: the bytes of `extractous-`.
pub open spec fn upstream_prefix() -> Seq<u8> {
    seq![101u8, 120u8, 116u8, 114u8, 97u8, 99u8, 116u8, 111u8, 117u8, 115u8, 45u8]
}

/// The bytes of the optimized profile directory name, `release`.
pub open spec fn release_seg() -> Seq<u8> {
    seq![114u8, 101u8, 108u8, 101u8, 97u8, 115u8, 101u8]
}

/// The bytes of the debug profile directory name, `debug`.
pub open spec fn debug_seg() -> Seq<u8> {
    seq![100u8, 101u8, 98u8, 117u8, 103u8]
}

/// The bytes of the directory name `build`.
pub open spec fn build_seg() -> Seq<u8> {
    seq![98u8, 117u8, 105u8, 108u8, 100u8]
}

/// The bytes of `extractous-`.
pub fn upstream_prefix_bytes() -> (v: Vec<u8>)
    ensures
        v@ == upstream_prefix(),
{
    let mut v: Vec<u8> = Vec::new();
    v.push(101);
    v.push(120);
    v.push(116);
    v.push(114);
    v.push(97);
    v.push(99);
    v.push(116);
    v.push(111);
    v.push(117);
    v.push(115);
    v.push(45);
    proof {
        assert(v@ =~= upstream_prefix());
    }
    v
}

/// The bytes of `release`.
pub fn release_bytes() -> (v: Vec<u8>)
    ensures
        v@ == release_seg(),
{
    let mut v: Vec<u8> = Vec::new();
    v.push(114);
    v.push(101);
    v.push(108);
    v.push(101);
    v.push(97);
    v.push(115);
    v.push(101);
    proof {
        assert(v@ =~= release_seg());
    }
    v
}

/// The bytes of `debug`.
pub fn debug_bytes() -> (v: Vec<u8>)
    ensures
        v@ == debug_seg(),
{
    let mut v: Vec<u8> = Vec::new();
    v.push(100);
    v.push(101);
    v.push(98);
    v.push(117);
    v.push(103);
    proof {
        assert(v@ =~= debug_seg());
    }
    v
}

/// The bytes of `build`.
pub fn build_bytes() -> (v: Vec<u8>)
    ensures
        v@ == build_seg(),
{
    let mut v: Vec<u8> = Vec::new();
    v.push(98);
    v.push(117);
    v.push(105);
    v.push(108);
    v.push(100);
    proof {
        assert(v@ =~= build_seg());
    }
    v
}

/// Pushing a segment onto a path pushes its view onto the deep view.
pub proof fn lemma_dv_push(v: Vec<Vec<u8>>, w: Vec<Vec<u8>>, s: Vec<u8>)
    requires
        w@ == v@.push(s),
    ensures
        w.deep_view() == v.deep_view().push(s@),
{
    assert forall|k: int| 0 <= k < w@.len() implies w.deep_view()[k] == v.deep_view().push(
        s@,
    )[k] by {
        lemma_dv_index(w, k);
        if k < v@.len() {
            lemma_dv_index(v, k);
        }
    }
    assert(w.deep_view() =~= v.deep_view().push(s@));
}

/// A fresh copy of the first `n` segments of `p`.
pub fn path_prefix(p: &Vec<Vec<u8>>, n: usize) -> (r: Vec<Vec<u8>>)
    requires
        n <= p@.len(),
    ensures
        r.deep_view() == p.deep_view().subrange(0, n as int),
        r@.len() == n,
{
    let mut r: Vec<Vec<u8>> = Vec::new();
    let mut i: usize = 0;
    while i < n
        invariant
            0 <= i <= n <= p@.len(),
            r@.len() == i,
            forall|k: int| 0 <= k < i ==> #[trigger] r@[k]@ == p@[k]@,
        decreases n - i,
    {
        r.push(crate::fs_model::seg_clone(&p[i]));
        i = i + 1;
    }
    proof {
        assert forall|k: int| 0 <= k < n implies r.deep_view()[k] == p.deep_view().subrange(
            0,
            n as int,
        )[k] by {
            lemma_dv_index(r, k);
            lemma_dv_index(*p, k);
        }
        assert(r.deep_view() =~= p.deep_view().subrange(0, n as int));
    }
    r
}

/// The primary artifact already sits directly in the build invocation's
/// own output directory.
pub open spec fn direct_hit(t: FsTree, out: Seq<Seq<u8>>, name: Seq<u8>) -> bool {
    t.is_file(out.push(name))
}

/// The shared build root two levels above the output directory, under
/// which sibling dependency build directories live.
pub open spec fn dep_root(out: Seq<Seq<u8>>) -> Seq<Seq<u8>> {
    out.subrange(0, out.len() - 2)
}

/// `c` names a sibling build directory of the upstream dependency.
pub open spec fn sibling_seed(t: FsTree, out: Seq<Seq<u8>>, c: Seq<u8>) -> bool {
    &&& out.len() >= 2
    &&& t.is_rdir(dep_root(out))
    &&& t.is_dir(dep_root(out).push(c))
    &&& crate::fs_model::is_seg_prefix(upstream_prefix(), c)
}

/// The artifact is reachable under some sibling upstream build directory.
pub open spec fn sibling_hit(t: FsTree, out: Seq<Seq<u8>>, name: Seq<u8>) -> bool {
    exists|c: Seq<u8>| sibling_seed(t, out, c) && has_target(t, dep_root(out).push(c), name)
}

/// The `build` directory of the opposite build profile, when the output
/// directory has the conventional `{profile}/build/{pkg}/out` shape.
pub open spec fn opposite_root(out: Seq<Seq<u8>>) -> Option<Seq<Seq<u8>>> {
    if out.len() >= 4 {
        if out[out.len() - 4] == release_seg() {
            Some(out.subrange(0, out.len() - 4).push(debug_seg()).push(build_seg()))
        } else if out[out.len() - 4] == debug_seg() {
            Some(out.subrange(0, out.len() - 4).push(release_seg()).push(build_seg()))
        } else {
            None
        }
    } else {
        None
    }
}

/// The artifact is reachable under the opposite profile's build root.
pub open spec fn opposite_hit(t: FsTree, out: Seq<Seq<u8>>, name: Seq<u8>) -> bool {
    match opposite_root(out) {
        Some(r) => has_target(t, r, name),
        None => false,
    }
}

/// The nearest ancestor of `out` (including `out` itself) whose final
/// segment is literally `build`.
pub open spec fn build_anc(out: Seq<Seq<u8>>) -> Option<Seq<Seq<u8>>>
    decreases out.len(),
{
    if out.len() == 0 {
        None
    } else if out.last() == build_seg() {
        Some(out)
    } else {
        build_anc(out.drop_last())
    }
}

/// The artifact is reachable somewhere under the nearest `build`
/// ancestor.
pub open spec fn global_hit(t: FsTree, out: Seq<Seq<u8>>, name: Seq<u8>) -> bool {
    match build_anc(out) {
        Some(r) => has_target(t, r, name),
        None => false,
    }
}

/// Some search strategy finds the artifact.
pub open spec fn any_hit(t: FsTree, out: Seq<Seq<u8>>, name: Seq<u8>) -> bool {
    ||| direct_hit(t, out, name)
    ||| sibling_hit(t, out, name)
    ||| opposite_hit(t, out, name)
    ||| global_hit(t, out, name)
}

/// What the locator promises of a returned path `p`: it is a file named
/// `name`, and it comes from the first strategy, in search order, that
/// has a hit at all.
pub open spec fn located(t: FsTree, out: Seq<Seq<u8>>, name: Seq<u8>, p: Seq<Seq<u8>>) -> bool {
    &&& t.is_file(p)
    &&& p.len() >= 1
    &&& p.last() == name
    &&& (direct_hit(t, out, name) ==> p == out.push(name))
    &&& (!direct_hit(t, out, name) && sibling_hit(t, out, name) ==> exists|c: Seq<u8>|
        sibling_seed(t, out, c) && is_target(t, dep_root(out).push(c), p, name))
    &&& (!direct_hit(t, out, name) && !sibling_hit(t, out, name) && opposite_hit(t, out, name)
        ==> is_target(t, opposite_root(out).unwrap(), p, name))
    &&& (!direct_hit(t, out, name) && !sibling_hit(t, out, name) && !opposite_hit(t, out, name)
        && global_hit(t, out, name) ==> is_target(t, build_anc(out).unwrap(), p, name))
}

/// First strategy: look for the artifact directly in the output
/// directory.
fn find_direct(t: &FsTree, out: &Vec<Vec<u8>>, name: &Vec<u8>) -> (r: Option<Vec<Vec<u8>>>)
    requires
        t.wf(),
    ensures
        match r {
            Some(p) => {
                &&& p.deep_view() == out.deep_view().push(name@)
                &&& t.is_file(p.deep_view())
            },
            None => !direct_hit(*t, out.deep_view(), name@),
        },
{
    let mut p = path_clone(out);
    p.push(crate::fs_model::seg_clone(name));
    proof {
        assert forall|k: int| 0 <= k < p@.len() implies p.deep_view()[k]
            == out.deep_view().push(name@)[k] by {
            lemma_dv_index(p, k);
            if k < out@.len() {
                lemma_dv_index(*out, k);
            }
        }
        assert(p.deep_view() =~= out.deep_view().push(name@));
    }
    if t.query_is_file(&p) {
        Some(p)
    } else {
        None
    }
}

/// Second strategy: breadth-first search of every sibling build
/// directory whose name carries the upstream dependency's prefix.
#[verifier::loop_isolation(false)]
fn find_in_upstream_tree(t: &FsTree, out: &Vec<Vec<u8>>, name: &Vec<u8>) -> (r: Option<
    Vec<Vec<u8>>,
>)
    requires
        t.wf(),
    ensures
        match r {
            Some(p) => exists|c: Seq<u8>|
                sibling_seed(*t, out.deep_view(), c) && is_target(
                    *t,
                    dep_root(out.deep_view()).push(c),
                    p.deep_view(),
                    name@,
                ),
            None => !sibling_hit(*t, out.deep_view(), name@),
        },
{
    let ghost outv = out.deep_view();
    let ghost namev = name@;
    proof {
        assert(outv.len() == out@.len());
    }
    if out.len() < 2 {
        return None;
    }
    let broot = path_prefix(out, out.len() - 2);
    let ghost brootv = broot.deep_view();
    proof {
        assert(brootv == dep_root(outv));
    }
    if !t.query_is_rdir(&broot) {
        return None;
    }
    let pre = upstream_prefix_bytes();
    let mut j: usize = 0;
    while j < t.entries.len()
        invariant
            0 <= j <= t.entries@.len(),
            forall|jj: int| 0 <= jj < j ==> {
                let q = #[trigger] t.entries@[jj].path.deep_view();
                (q.len() == brootv.len() + 1 && is_prefix(brootv, q) && t.entries@[jj].node
                    is Dir && crate::fs_model::is_seg_prefix(upstream_prefix(), q.last()))
                    ==> !has_target(*t, q, namev)
            },
        decreases t.entries@.len() - j,
    {
        let e = &t.entries[j];
        let ghost q = t.entries@[j as int].path.deep_view();
        proof {
            assert(q.len() == e.path@.len());
        }
        let is_seed = e.path.len() >= 1 && e.path.len() - 1 == broot.len()
            && path_starts_with(&e.path, &broot);
        if is_seed {
            let last = &e.path[e.path.len() - 1];
            proof {
                lemma_dv_index(t.entries@[j as int].path, q.len() - 1);
            }
            let named = crate::fs_model::seg_starts_with(last, &pre);
            let dirish = match &e.node {
                FsNode::Dir { .. } => true,
                FsNode::File { .. } => false,
            };
            if named && dirish {
                match bfs_find(t, &e.path, name) {
                    Some(p) => {
                        proof {
                            t.lemma_entry_idx(j as int);
                            let c = q.last();
                            assert(q =~= brootv.push(c));
                            assert(t.is_dir(dep_root(outv).push(c)));
                            assert(sibling_seed(*t, outv, c));
                        }
                        return Some(p);
                    },
                    None => {},
                }
            }
        }
        j = j + 1;
    }
    proof {
        if sibling_hit(*t, outv, namev) {
            let c = choose|c: Seq<u8>|
                sibling_seed(*t, outv, c) && has_target(*t, dep_root(outv).push(c), namev);
            let q = dep_root(outv).push(c);
            assert(t.is_dir(q));
            let jj = t.idx_of(q);
            assert(t.entries@[jj].path.deep_view() == q);
            t.lemma_entry_idx(jj);
            assert(is_prefix(brootv, q)) by {
                assert(brootv =~= q.subrange(0, brootv.len() as int));
            }
            assert(q.last() == c);
            assert(t.entries@[jj].node is Dir);
            assert(!has_target(*t, q, namev));
            assert(false);
        }
    }
    None
}

/// Third strategy: search the opposite build profile's `build` root.
fn find_in_opposite_profile(t: &FsTree, out: &Vec<Vec<u8>>, name: &Vec<u8>) -> (r: Option<
    Vec<Vec<u8>>,
>)
    requires
        t.wf(),
    ensures
        match r {
            Some(p) => opposite_root(out.deep_view()) is Some && is_target(
                *t,
                opposite_root(out.deep_view()).unwrap(),
                p.deep_view(),
                name@,
            ),
            None => !opposite_hit(*t, out.deep_view(), name@),
        },
{
    let ghost outv = out.deep_view();
    proof {
        assert(outv.len() == out@.len());
    }
    if out.len() < 4 {
        return None;
    }
    let prof = &out[out.len() - 4];
    proof {
        lemma_dv_index(*out, out@.len() - 4);
    }
    let rel = release_bytes();
    let deb = debug_bytes();
    let opp: Vec<u8> = if seg_eq(prof, &rel) {
        deb
    } else if seg_eq(prof, &deb) {
        rel
    } else {
        return None;
    };
    let mut sib = path_prefix(out, out.len() - 4);
    let ghost sib0 = sib;
    sib.push(opp);
    let ghost sib1 = sib;
    proof {
        lemma_dv_push(sib0, sib1, sib1@[sib1@.len() - 1]);
    }
    sib.push(build_bytes());
    proof {
        lemma_dv_push(sib1, sib, sib@[sib@.len() - 1]);
        assert(sib.deep_view() == opposite_root(outv).unwrap());
    }
    if !t.query_is_dir(&sib) {
        proof {
            if opposite_hit(*t, outv, name@) {
                let p = choose|p: Seq<Seq<u8>>|
                    is_target(*t, opposite_root(outv).unwrap(), p, name@);
                assert(is_target(*t, sib.deep_view(), p, name@));
                assert(t.is_rdir(p.subrange(0, sib.deep_view().len() as int)));
                assert(p.subrange(0, sib.deep_view().len() as int) =~= sib.deep_view());
                assert(false);
            }
        }
        return None;
    }
    let r = bfs_find(t, &sib, name);
    proof {
        if r is None && opposite_hit(*t, outv, name@) {
            assert(has_target(*t, sib.deep_view(), name@));
        }
    }
    r
}

/// Fourth strategy: ascend to the nearest directory literally named
/// `build` and search everything under it.
#[verifier::loop_isolation(false)]
fn find_global(t: &FsTree, out: &Vec<Vec<u8>>, name: &Vec<u8>) -> (r: Option<Vec<Vec<u8>>>)
    requires
        t.wf(),
    ensures
        match r {
            Some(p) => build_anc(out.deep_view()) is Some && is_target(
                *t,
                build_anc(out.deep_view()).unwrap(),
                p.deep_view(),
                name@,
            ),
            None => !global_hit(*t, out.deep_view(), name@),
        },
{
    let ghost outv = out.deep_view();
    proof {
        assert(outv.len() == out@.len());
        assert(outv.subrange(0, outv.len() as int) =~= outv);
    }
    let b = build_bytes();
    let mut k: usize = out.len();
    while k > 0
        invariant
            0 <= k <= out@.len(),
            build_anc(outv) == build_anc(outv.subrange(0, k as int)),
        decreases k,
    {
        proof {
            lemma_dv_index(*out, k - 1);
            assert(outv.subrange(0, k as int).last() == outv[k - 1]);
        }
        if seg_eq(&out[k - 1], &b) {
            let anc = path_prefix(out, k);
            proof {
                assert(build_anc(outv.subrange(0, k as int))
                    == Some(outv.subrange(0, k as int)));
                assert(anc.deep_view() == build_anc(outv).unwrap());
            }
            let r = bfs_find(t, &anc, name);
            proof {
                if r is None && global_hit(*t, outv, name@) {
                    assert(has_target(*t, anc.deep_view(), name@));
                }
            }
            return r;
        }
        proof {
            assert(outv.subrange(0, k as int).drop_last() =~= outv.subrange(0, k - 1));
        }
        k = k - 1;
    }
    proof {
        assert(outv.subrange(0, 0) =~= Seq::<Seq<u8>>::empty());
        assert(build_anc(outv) is None);
    }
    None
}

/// Searches the candidate regions for the artifact named `name`, in
/// strictly decreasing order of specificity: the output directory
/// itself, sibling upstream build directories, the opposite profile's
/// build root, and finally everything under the nearest `build`
/// ancestor.  The first strategy with a hit supplies the result.
pub fn locate(t: &FsTree, out_dir: &Vec<Vec<u8>>, name: &Vec<u8>) -> (r: Option<Vec<Vec<u8>>>)
    requires
        t.wf(),
    ensures
        r is Some <==> any_hit(*t, out_dir.deep_view(), name@),
        match r {
            Some(p) => located(*t, out_dir.deep_view(), name@, p.deep_view()),
            None => !any_hit(*t, out_dir.deep_view(), name@),
        },
{
    let ghost outv = out_dir.deep_view();
    let ghost namev = name@;
    match find_direct(t, out_dir, name) {
        Some(p) => {
            proof {
                assert(direct_hit(*t, outv, namev));
                assert(p.deep_view().last() == namev);
            }
            return Some(p);
        },
        None => {},
    }
    match find_in_upstream_tree(t, out_dir, name) {
        Some(p) => {
            proof {
                let c = choose|c: Seq<u8>|
                    sibling_seed(*t, outv, c) && is_target(
                        *t,
                        dep_root(outv).push(c),
                        p.deep_view(),
                        namev,
                    );
                assert(has_target(*t, dep_root(outv).push(c), namev));
                assert(sibling_hit(*t, outv, namev));
            }
            return Some(p);
        },
        None => {},
    }
    match find_in_opposite_profile(t, out_dir, name) {
        Some(p) => {
            proof {
                assert(has_target(*t, opposite_root(outv).unwrap(), namev));
                assert(opposite_hit(*t, outv, namev));
            }
            return Some(p);
        },
        None => {},
    }
    match find_global(t, out_dir, name) {
        Some(p) => {
            proof {
                assert(has_target(*t, build_anc(outv).unwrap(), namev));
                assert(global_hit(*t, outv, namev));
            }
            return Some(p);
        },
        None => {},
    }
    None
}

} // verus!
