//! Staging the shared libraries into the run-time directory.
//!
//! Staging first looks for the primary artifact in the destination: if
//! it is already there, nothing is touched at all, whether or not the
//! source tree even exists.  Otherwise the destination directory chain
//! is created, and every direct child of the source directory whose
//! extension matches the platform's shared-library extension class is
//! copied over under its own name.  A failed copy is fatal, because a
//! silently missing sibling library would only surface much later, as a
//! load failure at run time.

use vstd::prelude::*;
use crate::fs_model::FsTree;
use crate::fs_model::FsEntry;
use crate::fs_model::FsNode;
use crate::fs_model::lemma_push_entry;
use crate::fs_model::lemma_update_entry;
use crate::fs_model::lemma_dv_index;
use crate::fs_model::path_clone;
use crate::fs_model::path_starts_with;
use crate::fs_model::seg_clone;
use crate::platform::ExtClass;
use crate::platform::matches_ext;
use crate::platform::ext_is;

verus! {

/// Why staging failed.  Every variant is fatal to the build.
#[derive(Clone, Copy, PartialEq, Eq, Structural, Debug)]
pub enum StageError {
    /// A file sits where the destination directory chain must go.
    DestNotCreatable,
    /// The source directory is missing or cannot be listed.
    SourceUnreadable,
    /// A directory occupies the destination path of a file to copy.
    DestOccupied,
}

/// A file blocks some step of the destination directory chain.
pub open spec fn dest_blocked(t: FsTree, dest: Seq<Seq<u8>>) -> bool {
    exists|k: int| 1 <= k <= dest.len() && t.is_file(#[trigger] dest.subrange(0, k))
}

/// `s` names a direct child file of `src` with the platform's
/// shared-library extension.
pub open spec fn matching_child(t: FsTree, src: Seq<Seq<u8>>, s: Seq<u8>, e: ExtClass) -> bool {
    t.is_file(src.push(s)) && matches_ext(s, e)
}

/// Some matching child's destination is occupied by a directory.
pub open spec fn stage_collision(t: FsTree, src: Seq<Seq<u8>>, dest: Seq<Seq<u8>>, e: ExtClass) -> bool {
    exists|s: Seq<u8>| #[trigger] matching_child(t, src, s, e) && t.is_dir(dest.push(s))
}

/// What a successful slow-path staging run does to the tree: the
/// destination chain exists as directories, every matching child of the
/// source is present in the destination with identical contents, and
/// nothing else has changed.
pub open spec fn stage_copies_ok(
    t0: FsTree,
    src: Seq<Seq<u8>>,
    dest: Seq<Seq<u8>>,
    e: ExtClass,
    t2: FsTree,
) -> bool {
    &&& t2.wf()
    &&& forall|s: Seq<u8>| #[trigger] matching_child(t0, src, s, e)
        ==> t2.is_file(dest.push(s)) && t2.file_data(dest.push(s)) == t0.file_data(src.push(s))
    &&& forall|p: Seq<Seq<u8>>| #[trigger] t2.has(p) <==> t0.has(p) || (exists|k: int|
        1 <= k <= dest.len() && p == dest.subrange(0, k)) || (exists|s: Seq<u8>|
        #[trigger] matching_child(t0, src, s, e) && p == dest.push(s))
    &&& forall|p: Seq<Seq<u8>>|
        t0.has(p) && !(exists|s: Seq<u8>|
            #[trigger] matching_child(t0, src, s, e) && p == dest.push(s))
            ==> #[trigger] t2.node_at(p) == t0.node_at(p)
    &&& forall|k: int| 1 <= k <= dest.len() ==> t2.is_dir(#[trigger] dest.subrange(0, k))
}

/// Creates the destination directory chain, step by step, leaving
/// everything already present alone.  Fails only when a regular file
/// blocks the chain.
#[verifier::loop_isolation(false)]
pub fn create_dir_all(t: FsTree, dest: &Vec<Vec<u8>>) -> (r: Result<FsTree, StageError>)
    requires
        t.wf(),
        dest@.len() >= 1,
        dest@.len() < usize::MAX,
    ensures
        match r {
            Ok(t2) => {
                &&& t2.wf()
                &&& !dest_blocked(t, dest.deep_view())
                &&& forall|p: Seq<Seq<u8>>| #[trigger] t2.has(p) <==> t.has(p) || (exists|k: int|
                    1 <= k <= dest.deep_view().len() && p == dest.deep_view().subrange(0, k))
                &&& forall|p: Seq<Seq<u8>>|
                    t.has(p) ==> #[trigger] t2.node_at(p) == t.node_at(p)
                &&& forall|k: int| 1 <= k <= dest.deep_view().len()
                    ==> t2.is_dir(#[trigger] dest.deep_view().subrange(0, k))
            },
            Err(e) => e == StageError::DestNotCreatable && dest_blocked(t, dest.deep_view()),
        },
{
    let ghost destv = dest.deep_view();
    proof {
        assert(destv.len() == dest@.len());
    }
    let mut cur = t;
    let mut k: usize = 1;
    while k <= dest.len()
        invariant
            1 <= k <= dest@.len() + 1,
            cur.wf(),
            forall|p: Seq<Seq<u8>>| #[trigger] cur.has(p) <==> t.has(p) || (exists|kk: int|
                1 <= kk < k && p == destv.subrange(0, kk)),
            forall|p: Seq<Seq<u8>>| t.has(p) ==> #[trigger] cur.node_at(p) == t.node_at(p),
            forall|kk: int| 1 <= kk < k ==> cur.is_dir(#[trigger] destv.subrange(0, kk)),
        decreases dest@.len() + 1 - k,
    {
        let ghost cur0 = cur;
        let step = crate::locator::path_prefix(dest, k);
        proof {
            assert(step.deep_view() == destv.subrange(0, k as int));
        }
        match cur.lookup(&step) {
            Some(i) => {
                let blocked = match &cur.entries[i].node {
                    FsNode::File { .. } => true,
                    FsNode::Dir { .. } => false,
                };
                if blocked {
                    proof {
                        assert(cur.is_file(destv.subrange(0, k as int)));
                        assert(t.has(destv.subrange(0, k as int))) by {
                            if !t.has(destv.subrange(0, k as int)) {
                                let kk = choose|kk: int|
                                    1 <= kk < k && destv.subrange(0, k as int)
                                        == destv.subrange(0, kk);
                                assert(destv.subrange(0, k as int).len() == k);
                                assert(false);
                            }
                        }
                        assert(t.is_file(destv.subrange(0, k as int)));
                        assert(dest_blocked(t, destv));
                    }
                    return Err(StageError::DestNotCreatable);
                }
            },
            None => {
                proof {
                    assert forall|kk: int| 1 <= kk < k implies cur.is_dir(
                        #[trigger] step.deep_view().subrange(0, kk),
                    ) by {
                        assert(step.deep_view().subrange(0, kk) =~= destv.subrange(0, kk));
                    }
                }
                cur.add_dir(&step, true);
                proof {
                    assert forall|p: Seq<Seq<u8>>| #[trigger] cur.has(p) implies t.has(p) || (
                    exists|kk: int| 1 <= kk < k + 1 && p == destv.subrange(0, kk)) by {
                        if !t.has(p) && p != destv.subrange(0, k as int) {
                            assert(cur0.has(p));
                        }
                    }
                }
            },
        }
        k = k + 1;
    }
    proof {
        assert forall|kk: int| 1 <= kk <= destv.len() implies !t.is_file(
            #[trigger] destv.subrange(0, kk),
        ) by {
            if t.is_file(destv.subrange(0, kk)) {
                assert(cur.node_at(destv.subrange(0, kk)) == t.node_at(destv.subrange(0, kk)));
                assert(cur.is_dir(destv.subrange(0, kk)));
            }
        }
    }
    Ok(cur)
}

/// Places a file with contents `data` at `p`, overwriting a file
/// already there.  The parent chain must be directories and no
/// directory may sit at `p` itself.
#[verifier::rlimit(30)]
pub fn set_file(t: FsTree, p: &Vec<Vec<u8>>, data: Vec<u8>) -> (t2: FsTree)
    requires
        t.wf(),
        p@.len() >= 1,
        forall|k: int| 1 <= k < p@.len() ==> t.is_dir(#[trigger] p.deep_view().subrange(0, k)),
        !t.is_dir(p.deep_view()),
    ensures
        t2.wf(),
        forall|q: Seq<Seq<u8>>| #[trigger] t2.has(q) <==> t.has(q) || q == p.deep_view(),
        forall|q: Seq<Seq<u8>>|
            t.has(q) && q != p.deep_view() ==> #[trigger] t2.node_at(q) == t.node_at(q),
        t2.is_file(p.deep_view()),
        t2.file_data(p.deep_view()) == data@,
{
    let ghost dv = data@;
    let mut cur = t;
    let found = cur.lookup(p);
    match found {
        Some(i) => {
            let ghost t0 = cur;
            let e = cur.entries.remove(i);
            let e2 = FsEntry { path: e.path, node: FsNode::File { data } };
            cur.entries.insert(i, e2);
            proof {
                assert(cur.entries@ =~= t0.entries@.update(
                    i as int,
                    cur.entries@[i as int],
                ));
                assert(cur.entries@[i as int].path@ == t0.entries@[i as int].path@);
                lemma_update_entry(t0, cur, i as int, cur.entries@[i as int]);
                assert(cur.entries@[i as int].path.deep_view() == p.deep_view());
                assert(cur.node_at(p.deep_view()) == (crate::fs_model::NodeModel::File { data: dv }));
            }
            cur
        },
        None => {
            let e = FsEntry { path: path_clone(p), node: FsNode::File { data } };
            let ghost t0 = cur;
            cur.entries.push(e);
            proof {
                assert(cur.entries@[t0.entries@.len() as int].path.deep_view()
                    == p.deep_view());
                lemma_push_entry(t0, cur, cur.entries@[t0.entries@.len() as int]);
                assert(cur.node_at(p.deep_view()) == (crate::fs_model::NodeModel::File { data: dv }));
            }
            cur
        },
    }
}

/// Stages the platform's shared libraries from `source` into `dest`.
///
/// If the primary artifact already sits in `dest`, the tree is returned
/// untouched — the cross-invocation idempotency guarantee, which holds
/// even when no source tree exists.  Otherwise the destination chain is
/// created and every direct child file of `source` whose extension
/// matches `ext` is copied into `dest` under its own name, with
/// identical contents.  Each error variant comes if and only if its
/// condition holds, in the order the steps run.
#[verifier::loop_isolation(false)]
#[verifier::rlimit(100)]
pub fn stage(
    t: FsTree,
    source: &Vec<Vec<u8>>,
    dest: &Vec<Vec<u8>>,
    ext: ExtClass,
    primary: &Vec<u8>,
) -> (r: Result<FsTree, StageError>)
    requires
        t.wf(),
        dest@.len() >= 1,
        dest@.len() < usize::MAX,
    ensures
        t.is_file(dest.deep_view().push(primary@)) ==> r == Ok::<FsTree, StageError>(t),
        !t.is_file(dest.deep_view().push(primary@)) ==> {
            let destv = dest.deep_view();
            let srcv = source.deep_view();
            &&& (r is Ok <==> !dest_blocked(t, destv) && t.is_rdir(srcv) && !stage_collision(
                t,
                srcv,
                destv,
                ext,
            ))
            &&& (r matches Ok(t2) ==> stage_copies_ok(t, srcv, destv, ext, t2))
            &&& (r == Err::<FsTree, StageError>(StageError::DestNotCreatable) <==> dest_blocked(
                t,
                destv,
            ))
            &&& (r == Err::<FsTree, StageError>(StageError::SourceUnreadable) <==> !dest_blocked(
                t,
                destv,
            ) && !t.is_rdir(srcv))
            &&& (r == Err::<FsTree, StageError>(StageError::DestOccupied) <==> !dest_blocked(
                t,
                destv,
            ) && t.is_rdir(srcv) && stage_collision(t, srcv, destv, ext))
        },
{
    let ghost destv = dest.deep_view();
    let ghost srcv = source.deep_view();
    proof {
        assert(destv.len() == dest@.len());
        assert(srcv.len() == source@.len());
    }
    // Fast path: the primary artifact is already staged.
    let mut destfile = path_clone(dest);
    destfile.push(seg_clone(primary));
    proof {
        assert forall|k: int| 0 <= k < destfile@.len() implies destfile.deep_view()[k]
            == destv.push(primary@)[k] by {
            lemma_dv_index(destfile, k);
            if k < dest@.len() {
                lemma_dv_index(*dest, k);
            }
        }
        assert(destfile.deep_view() =~= destv.push(primary@));
    }
    if t.query_is_file(&destfile) {
        return Ok(t);
    }
    // Is the destination chain free of blocking files?
    let mut k: usize = 1;
    while k <= dest.len()
        invariant
            1 <= k <= dest@.len() + 1,
            forall|kk: int| 1 <= kk < k ==> !t.is_file(#[trigger] destv.subrange(0, kk)),
        decreases dest@.len() + 1 - k,
    {
        let step = crate::locator::path_prefix(dest, k);
        if t.query_is_file(&step) {
            proof {
                assert(t.is_file(destv.subrange(0, k as int)));
            }
            return Err(StageError::DestNotCreatable);
        }
        k = k + 1;
    }
    proof {
        assert(!dest_blocked(t, destv));
    }
    // Can the source directory be listed at all?
    if !t.query_is_rdir(source) {
        return Err(StageError::SourceUnreadable);
    }
    // Gather the matching children of the source directory.
    let mut names: Vec<Vec<u8>> = Vec::new();
    let mut datas: Vec<Vec<u8>> = Vec::new();
    let mut j: usize = 0;
    while j < t.entries.len()
        invariant
            0 <= j <= t.entries@.len(),
            names@.len() == datas@.len(),
            forall|idx: int| 0 <= idx < names@.len() ==> {
                &&& matching_child(t, srcv, #[trigger] names@[idx]@, ext)
                &&& datas@[idx]@ == t.file_data(srcv.push(names@[idx]@))
                &&& exists|jj: int|
                    0 <= jj < j && #[trigger] t.entries@[jj].path.deep_view() == srcv.push(
                        names@[idx]@,
                    )
            },
            forall|i1: int, i2: int| 0 <= i1 < i2 < names@.len()
                ==> #[trigger] names@[i1]@ != #[trigger] names@[i2]@,
            forall|s: Seq<u8>| #[trigger] matching_child(t, srcv, s, ext) ==> (exists|idx: int|
                0 <= idx < names@.len() && #[trigger] names@[idx]@ == s) || t.idx_of(
                srcv.push(s),
            ) >= j,
        decreases t.entries@.len() - j,
    {
        let ghost names0 = names@;
        let e = &t.entries[j];
        let ghost q = t.entries@[j as int].path.deep_view();
        proof {
            assert(q.len() == e.path@.len());
        }
        let is_child = e.path.len() >= 1 && e.path.len() - 1 == source.len()
            && path_starts_with(&e.path, source);
        if is_child {
            let last = &e.path[e.path.len() - 1];
            proof {
                lemma_dv_index(t.entries@[j as int].path, q.len() - 1);
                assert(q =~= srcv.push(last@));
            }
            let keep = match &e.node {
                FsNode::File { .. } => true,
                FsNode::Dir { .. } => false,
            };
            if keep && ext_is(last, ext) {
                proof {
                    t.lemma_entry_idx(j as int);
                    assert(t.is_file(srcv.push(last@)));
                    assert(matching_child(t, srcv, last@, ext));
                    assert forall|i1: int| 0 <= i1 < names@.len() implies names@[i1]@
                        != last@ by {
                        if names@[i1]@ == last@ {
                            let jj = choose|jj: int|
                                0 <= jj < j && t.entries@[jj].path.deep_view() == srcv.push(
                                    names@[i1]@,
                                );
                            assert(t.entries@[jj].path.deep_view()
                                != t.entries@[j as int].path.deep_view());
                            assert(false);
                        }
                    }
                }
                let data = match &e.node {
                    FsNode::File { data } => seg_clone(data),
                    FsNode::Dir { .. } => Vec::new(),
                };
                names.push(seg_clone(last));
                datas.push(data);
            }
        }
        proof {
            assert forall|s: Seq<u8>| #[trigger] matching_child(t, srcv, s, ext) implies (
            exists|idx: int| 0 <= idx < names@.len() && #[trigger] names@[idx]@ == s)
                || t.idx_of(srcv.push(s)) >= j + 1 by {
                if exists|idx: int| 0 <= idx < names0.len() && #[trigger] names0[idx]@ == s {
                    let idx = choose|idx: int|
                        0 <= idx < names0.len() && #[trigger] names0[idx]@ == s;
                    assert(names@[idx]@ == s);
                } else if !(exists|idx: int|
                    0 <= idx < names@.len() && #[trigger] names@[idx]@ == s) {
                    assert(t.has(srcv.push(s)));
                    let jx = t.idx_of(srcv.push(s));
                    assert(t.entries@[jx].path.deep_view() == srcv.push(s));
                    if jx == j {
                        t.lemma_entry_idx(j as int);
                        assert(q == srcv.push(s));
                        assert(q.len() == srcv.len() + 1);
                        assert(crate::fs_model::is_prefix(srcv, q)) by {
                            assert(srcv =~= q.subrange(0, srcv.len() as int));
                        }
                        assert(t.node_at(q) is File);
                        assert(t.entries@[j as int].node.model() is File);
                        assert(q.last() == s);
                        assert(matches_ext(q.last(), ext));
                        assert(names@.len() >= 1 && names@[names@.len() - 1]@ == s);
                        assert(false);
                    }
                }
            }
        }
        j = j + 1;
    }
    // No matching child's destination may be occupied by a directory.
    let mut i: usize = 0;
    while i < names.len()
        invariant
            0 <= i <= names@.len(),
            forall|ii: int| 0 <= ii < i ==> !t.is_dir(destv.push(#[trigger] names@[ii]@)),
        decreases names@.len() - i,
    {
        let mut target = path_clone(dest);
        target.push(seg_clone(&names[i]));
        proof {
            assert forall|kk: int| 0 <= kk < target@.len() implies target.deep_view()[kk]
                == destv.push(names@[i as int]@)[kk] by {
                lemma_dv_index(target, kk);
                if kk < dest@.len() {
                    lemma_dv_index(*dest, kk);
                }
            }
            assert(target.deep_view() =~= destv.push(names@[i as int]@));
        }
        if t.query_is_dir(&target) {
            proof {
                assert(matching_child(t, srcv, names@[i as int]@, ext));
                assert(stage_collision(t, srcv, destv, ext));
            }
            return Err(StageError::DestOccupied);
        }
        i = i + 1;
    }
    proof {
        assert(!stage_collision(t, srcv, destv, ext)) by {
            if stage_collision(t, srcv, destv, ext) {
                let s = choose|s: Seq<u8>|
                    #[trigger] matching_child(t, srcv, s, ext) && t.is_dir(destv.push(s));
                assert(t.idx_of(srcv.push(s)) < t.entries@.len()) by {
                    let jx = t.idx_of(srcv.push(s));
                    assert(t.entries@[jx].path.deep_view() == srcv.push(s));
                }
                let idx = choose|idx: int|
                    0 <= idx < names@.len() && #[trigger] names@[idx]@ == s;
                assert(!t.is_dir(destv.push(names@[idx]@)));
                assert(false);
            }
        }
    }
    // Create the destination chain and copy the matching children in.
    let ghost tsnap = t;
    let t1 = match create_dir_all(t, dest) {
        Ok(x) => x,
        Err(e) => {
            return Err(e);
        },
    };
    let mut cur = t1;
    let mut i2: usize = 0;
    while i2 < names.len()
        invariant
            0 <= i2 <= names@.len(),
            cur.wf(),
            forall|idx: int| 0 <= idx < i2 ==> {
                &&& cur.is_file(destv.push(#[trigger] names@[idx]@))
                &&& cur.file_data(destv.push(names@[idx]@)) == datas@[idx]@
            },
            forall|p: Seq<Seq<u8>>| #[trigger] cur.has(p) <==> t1.has(p) || (exists|idx: int|
                0 <= idx < i2 && p == destv.push(#[trigger] names@[idx]@)),
            forall|p: Seq<Seq<u8>>|
                t1.has(p) && !(exists|idx: int|
                    0 <= idx < i2 && p == destv.push(#[trigger] names@[idx]@))
                    ==> #[trigger] cur.node_at(p) == t1.node_at(p),
        decreases names@.len() - i2,
    {
        let mut target = path_clone(dest);
        target.push(seg_clone(&names[i2]));
        let ghost tv = destv.push(names@[i2 as int]@);
        proof {
            assert forall|kk: int| 0 <= kk < target@.len() implies target.deep_view()[kk]
                == tv[kk] by {
                lemma_dv_index(target, kk);
                if kk < dest@.len() {
                    lemma_dv_index(*dest, kk);
                }
            }
            assert(target.deep_view() =~= tv);
            // The parent chain of the target is made of directories.
            assert forall|kk: int| 1 <= kk < tv.len() implies cur.is_dir(
                #[trigger] target.deep_view().subrange(0, kk),
            ) by {
                assert(tv.subrange(0, kk) =~= destv.subrange(0, kk));
                assert(t1.is_dir(destv.subrange(0, kk)));
                assert(destv.subrange(0, kk).len() == kk);
                assert forall|idx: int| 0 <= idx < i2 implies destv.subrange(0, kk)
                    != destv.push(#[trigger] names@[idx]@) by {
                    assert(destv.push(names@[idx]@).len() == destv.len() + 1);
                }
                assert(cur.node_at(destv.subrange(0, kk)) == t1.node_at(destv.subrange(0, kk)));
            }
            // No directory sits at the target itself.
            assert(!cur.is_dir(tv)) by {
                if cur.is_dir(tv) {
                    assert(cur.has(tv));
                    if !t1.has(tv) {
                        let idx = choose|idx: int|
                            0 <= idx < i2 && tv == destv.push(#[trigger] names@[idx]@);
                        assert(cur.is_file(destv.push(names@[idx]@)));
                        assert(false);
                    }
                    assert forall|idx: int| 0 <= idx < i2 implies tv != destv.push(
                        #[trigger] names@[idx]@,
                    ) by {
                        if tv == destv.push(names@[idx]@) {
                            assert(cur.is_file(destv.push(names@[idx]@)));
                        }
                    }
                    assert(cur.node_at(tv) == t1.node_at(tv));
                    assert(t1.is_dir(tv));
                    if !tsnap.has(tv) {
                        let kk = choose|kk: int|
                            1 <= kk <= destv.len() && tv == destv.subrange(0, kk);
                        assert(tv.len() == destv.len() + 1);
                        assert(destv.subrange(0, kk).len() == kk);
                        assert(false);
                    }
                    assert(t1.node_at(tv) == tsnap.node_at(tv));
                    assert(tsnap.is_dir(tv));
                    assert(!t.is_dir(destv.push(names@[i2 as int]@)));
                    assert(false);
                }
            }
        }
        let ghost cur0 = cur;
        let d2 = seg_clone(&datas[i2]);
        cur = set_file(cur, &target, d2);
        proof {
            assert forall|idx: int| 0 <= idx < i2 + 1 implies {
                &&& cur.is_file(destv.push(#[trigger] names@[idx]@))
                &&& cur.file_data(destv.push(names@[idx]@)) == datas@[idx]@
            } by {
                if idx < i2 {
                    if destv.push(names@[idx]@) != tv {
                        assert(cur0.has(destv.push(names@[idx]@)));
                        assert(cur.node_at(destv.push(names@[idx]@)) == cur0.node_at(
                            destv.push(names@[idx]@),
                        ));
                    } else {
                        assert(destv.push(names@[idx]@).last() == names@[idx]@);
                        assert(tv.last() == names@[i2 as int]@);
                        assert(names@[idx]@ == names@[i2 as int]@);
                        assert(false);
                    }
                }
            }
        }
        i2 = i2 + 1;
    }
    // Stitch the loop facts into the staging contract.
    proof {
        assert forall|s: Seq<u8>| #[trigger] matching_child(tsnap, srcv, s, ext) implies {
            &&& cur.is_file(destv.push(s))
            &&& cur.file_data(destv.push(s)) == tsnap.file_data(srcv.push(s))
        } by {
            assert(tsnap.has(srcv.push(s)));
            let jx = tsnap.idx_of(srcv.push(s));
            assert(tsnap.entries@[jx].path.deep_view() == srcv.push(s));
            let idx = choose|idx: int| 0 <= idx < names@.len() && #[trigger] names@[idx]@ == s;
            assert(cur.is_file(destv.push(names@[idx]@)));
        }
        assert forall|p: Seq<Seq<u8>>| #[trigger] cur.has(p) implies tsnap.has(p) || (exists|
            k2: int,
        |
            1 <= k2 <= destv.len() && p == destv.subrange(0, k2)) || (exists|s: Seq<u8>|
            #[trigger] matching_child(tsnap, srcv, s, ext) && p == destv.push(s)) by {
            if !tsnap.has(p) && !(exists|k2: int|
                1 <= k2 <= destv.len() && p == destv.subrange(0, k2)) {
                let idx = choose|idx: int|
                    0 <= idx < names@.len() && p == destv.push(#[trigger] names@[idx]@);
                assert(matching_child(tsnap, srcv, names@[idx]@, ext));
            }
        }
        assert forall|p: Seq<Seq<u8>>|
            tsnap.has(p) && !(exists|s: Seq<u8>|
                #[trigger] matching_child(tsnap, srcv, s, ext) && p == destv.push(s)) implies
            #[trigger] cur.node_at(p) == tsnap.node_at(p) by {
            assert forall|idx: int| 0 <= idx < names@.len() implies p != destv.push(
                #[trigger] names@[idx]@,
            ) by {
                if p == destv.push(names@[idx]@) {
                    assert(matching_child(tsnap, srcv, names@[idx]@, ext));
                }
            }
            assert(cur.node_at(p) == t1.node_at(p));
        }
        assert forall|k2: int| 1 <= k2 <= destv.len() implies cur.is_dir(
            #[trigger] destv.subrange(0, k2),
        ) by {
            assert(t1.is_dir(destv.subrange(0, k2)));
            assert(destv.subrange(0, k2).len() == k2);
            assert forall|idx: int| 0 <= idx < names@.len() implies destv.subrange(0, k2)
                != destv.push(#[trigger] names@[idx]@) by {
                assert(destv.push(names@[idx]@).len() == destv.len() + 1);
            }
            assert(cur.node_at(destv.subrange(0, k2)) == t1.node_at(destv.subrange(0, k2)));
        }
        assert(stage_copies_ok(tsnap, srcv, destv, ext, cur));
    }
    Ok(cur)
}

} // verus!
