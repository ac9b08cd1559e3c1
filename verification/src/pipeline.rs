//! The build pipeline: idempotency check, locate, stage, configure.
//!
//! On every run the pipeline first checks whether the primary artifact
//! is already staged; if so it leaves the tree untouched.  Otherwise it
//! locates the artifact, stages the whole source directory, and in
//! either case reports whether the loader directive is to be emitted —
//! the directive belongs to every build, cached ones included.

use vstd::prelude::*;
use crate::fs_model::FsTree;
use crate::fs_model::lemma_dv_index;
use crate::fs_model::path_clone;
use crate::fs_model::seg_clone;
use crate::locator::any_hit;
use crate::locator::located;
use crate::locator::locate;
use crate::locator::parent_of;
use crate::locator::path_prefix;
use crate::platform::PlatformCaps;
use crate::platform::matches_ext;
use crate::stager::StageError;
use crate::stager::dest_blocked;
use crate::stager::stage;
use crate::stager::stage_collision;
use crate::stager::stage_copies_ok;

verus! {

/// Why a whole build run failed.  Both variants are fatal.
#[derive(Clone, Copy, PartialEq, Eq, Structural, Debug)]
pub enum BuildError {
    /// Every search strategy was exhausted without finding the artifact.
    ArtifactNotFound,
    /// Staging failed.
    Staging(StageError),
}

/// The result of a successful run: the tree after staging, and whether
/// the origin-relative loader directive is to be emitted.
pub struct BuildOutcome {
    pub tree: FsTree,
    pub emit_origin_rpath: bool,
}

/// The bytes of the directory name `priv`.
pub open spec fn priv_seg() -> Seq<u8> {
    seq![112u8, 114u8, 105u8, 118u8]
}

/// The bytes of the directory name `native`.
pub open spec fn native_seg() -> Seq<u8> {
    seq![110u8, 97u8, 116u8, 105u8, 118u8, 101u8]
}

/// The staging directory: `priv/native` under the project root, which
/// sits two levels above this sub-crate's own root.
pub open spec fn staging_dir(crate_root: Seq<Seq<u8>>) -> Seq<Seq<u8>> {
    crate_root.subrange(0, crate_root.len() - 2).push(priv_seg()).push(native_seg())
}

/// The staging error `e` explains the state of the world: the condition
/// under which staging from `src` into `dest` fails with exactly `e`.
pub open spec fn stage_err_cond(
    t: FsTree,
    src: Seq<Seq<u8>>,
    dest: Seq<Seq<u8>>,
    ext: crate::platform::ExtClass,
    e: StageError,
) -> bool {
    match e {
        StageError::DestNotCreatable => dest_blocked(t, dest),
        StageError::SourceUnreadable => !dest_blocked(t, dest) && !t.is_rdir(src),
        StageError::DestOccupied => !dest_blocked(t, dest) && t.is_rdir(src)
            && stage_collision(t, src, dest, ext),
    }
}

/// The bytes of `priv`.
pub fn priv_bytes() -> (v: Vec<u8>)
    ensures
        v@ == priv_seg(),
{
    let mut v: Vec<u8> = Vec::new();
    v.push(112);
    v.push(114);
    v.push(105);
    v.push(118);
    proof {
        assert(v@ =~= priv_seg());
    }
    v
}

/// The bytes of `native`.
pub fn native_bytes() -> (v: Vec<u8>)
    ensures
        v@ == native_seg(),
{
    let mut v: Vec<u8> = Vec::new();
    v.push(110);
    v.push(97);
    v.push(116);
    v.push(105);
    v.push(118);
    v.push(101);
    proof {
        assert(v@ =~= native_seg());
    }
    v
}

/// The one build-tool metadata line that embeds the origin-relative
/// run-time search path: `cargo:rustc-link-arg=-Wl,-rpath,$ORIGIN`.
pub open spec fn origin_rpath_line() -> Seq<u8> {
    seq![
        99u8, 97u8, 114u8, 103u8, 111u8, 58u8, 114u8, 117u8, 115u8, 116u8, 99u8, 45u8, 108u8,
        105u8, 110u8, 107u8, 45u8, 97u8, 114u8, 103u8, 61u8, 45u8, 87u8, 108u8, 44u8, 45u8,
        114u8, 112u8, 97u8, 116u8, 104u8, 44u8, 36u8, 79u8, 82u8, 73u8, 71u8, 73u8, 78u8,
    ]
}

/// The loader directive for the platform: exactly one line on families
/// whose loader resolves a search path relative to the loaded binary,
/// nothing on the others.  A missing directive is not an error.
pub fn rpath_directive(caps: PlatformCaps) -> (r: Option<Vec<u8>>)
    ensures
        caps.origin_rpath ==> (r matches Some(d) && d@ == origin_rpath_line()),
        !caps.origin_rpath ==> r is None,
{
    if !caps.origin_rpath {
        return None;
    }
    let mut v: Vec<u8> = Vec::new();
    v.push(99);
    v.push(97);
    v.push(114);
    v.push(103);
    v.push(111);
    v.push(58);
    v.push(114);
    v.push(117);
    v.push(115);
    v.push(116);
    v.push(99);
    v.push(45);
    v.push(108);
    v.push(105);
    v.push(110);
    v.push(107);
    v.push(45);
    v.push(97);
    v.push(114);
    v.push(103);
    v.push(61);
    v.push(45);
    v.push(87);
    v.push(108);
    v.push(44);
    v.push(45);
    v.push(114);
    v.push(112);
    v.push(97);
    v.push(116);
    v.push(104);
    v.push(44);
    v.push(36);
    v.push(79);
    v.push(82);
    v.push(73);
    v.push(71);
    v.push(73);
    v.push(78);
    proof {
        assert(v@ =~= origin_rpath_line());
    }
    Some(v)
}

/// Runs the whole pipeline on the snapshot `t`.
///
/// With the primary artifact already staged, the tree comes back
/// untouched, whether or not any upstream build output exists.
/// Otherwise the artifact is located — in strict strategy order — and
/// its directory is staged.  The outcome always carries the loader
/// directive decision; a run whose platform extension class matches the
/// primary artifact's name leaves the staging directory ready to take
/// the fast path on every later run.
#[verifier::rlimit(60)]
pub fn run_build(
    t: FsTree,
    out_dir: &Vec<Vec<u8>>,
    crate_root: &Vec<Vec<u8>>,
    caps: PlatformCaps,
    primary: &Vec<u8>,
) -> (r: Result<BuildOutcome, BuildError>)
    requires
        t.wf(),
        crate_root@.len() >= 2,
        crate_root@.len() < usize::MAX,
    ensures
        ({
            let destv = staging_dir(crate_root.deep_view());
            let outv = out_dir.deep_view();
            let fast = t.is_file(destv.push(primary@));
            &&& (r matches Ok(o) ==> o.emit_origin_rpath == caps.origin_rpath && o.tree.wf())
            &&& (fast ==> (r matches Ok(o) && o.tree == t))
            &&& (!fast ==> (r == Err::<BuildOutcome, BuildError>(BuildError::ArtifactNotFound)
                <==> !any_hit(t, outv, primary@)))
            &&& (!fast ==> (r matches Ok(o) ==> exists|p: Seq<Seq<u8>>|
                #[trigger] located(t, outv, primary@, p) && stage_copies_ok(
                    t,
                    parent_of(p),
                    destv,
                    caps.ext,
                    o.tree,
                )))
            &&& (!fast ==> (r matches Err(BuildError::Staging(e))
                ==> exists|p: Seq<Seq<u8>>|
                    #[trigger] located(t, outv, primary@, p) && stage_err_cond(
                        t,
                        parent_of(p),
                        destv,
                        caps.ext,
                        e,
                    )))
            &&& (r matches Ok(o) ==> (matches_ext(primary@, caps.ext) ==> o.tree.is_file(
                destv.push(primary@),
            )))
            &&& (!fast && any_hit(t, outv, primary@) && (forall|p: Seq<Seq<u8>>|
                #[trigger] located(t, outv, primary@, p) ==> !dest_blocked(t, destv)
                    && t.is_rdir(parent_of(p)) && !stage_collision(
                    t,
                    parent_of(p),
                    destv,
                    caps.ext,
                )) ==> r is Ok)
        }),
{
    let ghost crv = crate_root.deep_view();
    let ghost outv = out_dir.deep_view();
    let ghost destv = staging_dir(crv);
    proof {
        assert(crv.len() == crate_root@.len());
    }
    // The staging directory: `priv/native` two levels above this crate.
    let mut dest = path_prefix(crate_root, crate_root.len() - 2);
    let ghost dest0 = dest;
    dest.push(priv_bytes());
    let ghost dest1 = dest;
    proof {
        crate::locator::lemma_dv_push(dest0, dest1, dest1@[dest1@.len() - 1]);
    }
    dest.push(native_bytes());
    proof {
        crate::locator::lemma_dv_push(dest1, dest, dest@[dest@.len() - 1]);
        assert(dest.deep_view() == destv);
        assert(dest@.len() == crate_root@.len());
    }
    // Fast path: already staged, nothing to touch.
    let mut destfile = path_clone(&dest);
    destfile.push(seg_clone(primary));
    proof {
        assert forall|k: int| 0 <= k < destfile@.len() implies destfile.deep_view()[k]
            == destv.push(primary@)[k] by {
            lemma_dv_index(destfile, k);
            if k < dest@.len() {
                lemma_dv_index(dest, k);
            }
        }
        assert(destfile.deep_view() =~= destv.push(primary@));
    }
    if t.query_is_file(&destfile) {
        return Ok(BuildOutcome { tree: t, emit_origin_rpath: caps.origin_rpath });
    }
    // Locate the artifact, in strict strategy order.
    let found = match locate(&t, out_dir, primary) {
        Some(p) => p,
        None => {
            return Err(BuildError::ArtifactNotFound);
        },
    };
    let ghost pv = found.deep_view();
    proof {
        assert(located(t, outv, primary@, pv));
        assert(pv.len() == found@.len());
        assert(parent_of(pv) =~= pv.subrange(0, pv.len() - 1));
    }
    // Stage everything that sits beside the artifact.
    let source = path_prefix(&found, found.len() - 1);
    proof {
        assert(source.deep_view() == parent_of(pv));
    }
    match stage(t, &source, &dest, caps.ext, primary) {
        Ok(t2) => {
            proof {
                if matches_ext(primary@, caps.ext) {
                    assert(parent_of(pv).push(pv.last()) =~= pv);
                    assert(crate::stager::matching_child(
                        t,
                        parent_of(pv),
                        primary@,
                        caps.ext,
                    ));
                    assert(t2.is_file(destv.push(primary@)));
                }
            }
            Ok(BuildOutcome { tree: t2, emit_origin_rpath: caps.origin_rpath })
        },
        Err(e) => {
            proof {
                assert(stage_err_cond(t, parent_of(pv), destv, caps.ext, e));
            }
            Err(BuildError::Staging(e))
        },
    }
}

} // verus!
