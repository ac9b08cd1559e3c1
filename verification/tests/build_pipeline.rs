use doc_dig::fs_model::FsTree;
use doc_dig::locator::{bfs_find, locate};
use doc_dig::pipeline::{run_build, rpath_directive, BuildError};
use doc_dig::platform::{caps_for, ext_is, ExtClass, OsFamily, PlatformCaps};
use doc_dig::stager::{stage, StageError};

fn seg(s: &str) -> Vec<u8> {
    s.as_bytes().to_vec()
}

fn path(segs: &[&str]) -> Vec<Vec<u8>> {
    segs.iter().map(|s| seg(s)).collect()
}

/// Adds every missing prefix of `p` as a readable directory.
fn mkdirs(t: &mut FsTree, p: &[&str]) {
    for k in 1..=p.len() {
        let pref = path(&p[..k]);
        if !t.query_is_dir(&pref) {
            t.add_dir(&pref, true);
        }
    }
}

fn mkfile(t: &mut FsTree, p: &[&str], data: &[u8]) {
    mkdirs(t, &p[..p.len() - 1]);
    t.add_file(&path(p), data.to_vec());
}

fn linux() -> PlatformCaps {
    caps_for(OsFamily::Linux)
}

#[test]
fn idempotent_fast_path_without_upstream_tree() {
    // The primary artifact is already staged; no build tree exists at
    // all, and the run must still succeed without touching anything.
    let mut t = FsTree::empty();
    mkfile(&mut t, &["proj", "priv", "native", "libtika_native.so"], b"lib");
    let n_before = t.entries.len();
    let out_dir = path(&["somewhere", "that", "does", "not", "exist"]);
    let crate_root = path(&["proj", "native", "doc_dig"]);
    let r = run_build(t, &out_dir, &crate_root, linux(), &seg("libtika_native.so"));
    let o = r.ok().expect("fast path must succeed");
    assert!(o.emit_origin_rpath);
    assert_eq!(o.tree.entries.len(), n_before);
    assert!(o
        .tree
        .query_is_file(&path(&["proj", "priv", "native", "libtika_native.so"])));
}

#[test]
fn same_profile_hit_preferred_over_opposite_profile() {
    // The artifact sits both in a same-profile sibling upstream
    // directory and in the opposite profile; the sibling must win.
    let mut t = FsTree::empty();
    let out = ["target", "release", "build", "doc_dig-1", "out"];
    mkdirs(&mut t, &out);
    mkfile(
        &mut t,
        &["target", "release", "build", "extractous-1", "out", "libtika_native.so"],
        b"same-profile",
    );
    mkfile(
        &mut t,
        &["target", "debug", "build", "extractous-9", "out", "libtika_native.so"],
        b"opposite-profile",
    );
    let found = locate(&t, &path(&out), &seg("libtika_native.so")).expect("must be found");
    assert_eq!(
        found,
        path(&["target", "release", "build", "extractous-1", "out", "libtika_native.so"])
    );
}

#[test]
fn bfs_finds_deep_target_despite_unreadable_sibling() {
    // The target lies several directories down; an unreadable sibling
    // at the first level must neither hide it nor abort the search.
    let mut t = FsTree::empty();
    mkdirs(&mut t, &["root"]);
    t.add_dir(&path(&["root", "locked"]), false);
    t.add_dir(&path(&["root", "locked", "hidden"]), true);
    mkfile(&mut t, &["root", "a", "b", "c", "libtika_native.so"], b"deep");
    let r = bfs_find(&t, &path(&["root"]), &seg("libtika_native.so"));
    assert_eq!(
        r,
        Some(path(&["root", "a", "b", "c", "libtika_native.so"]))
    );
}

#[test]
fn unreadable_branch_hides_its_contents() {
    // A target below an unreadable directory is not reachable.
    let mut t = FsTree::empty();
    mkdirs(&mut t, &["root"]);
    t.add_dir(&path(&["root", "locked"]), false);
    mkfile(&mut t, &["root", "locked", "sub", "libtika_native.so"], b"x");
    let r = bfs_find(&t, &path(&["root"]), &seg("libtika_native.so"));
    assert_eq!(r, None);
}

#[test]
fn staging_copies_only_the_platform_extension() {
    let mut t = FsTree::empty();
    mkfile(&mut t, &["src", "liba.so"], b"aaa");
    mkfile(&mut t, &["src", "libb.dylib"], b"bbb");
    mkfile(&mut t, &["src", "readme.txt"], b"ttt");

    // Linux-style family: `.so` only.
    let t2 = stage(
        t,
        &path(&["src"]),
        &path(&["dest"]),
        ExtClass::SharedObject,
        &seg("libtika_native.so"),
    )
    .ok()
    .expect("staging must succeed");
    assert!(t2.query_is_file(&path(&["dest", "liba.so"])));
    assert!(!t2.query_is_file(&path(&["dest", "libb.dylib"])));
    assert!(!t2.query_is_file(&path(&["dest", "readme.txt"])));

    // Apple-style family: `.dylib` only.
    let mut t3 = FsTree::empty();
    mkfile(&mut t3, &["src", "liba.so"], b"aaa");
    mkfile(&mut t3, &["src", "libb.dylib"], b"bbb");
    mkfile(&mut t3, &["src", "readme.txt"], b"ttt");
    let t4 = stage(
        t3,
        &path(&["src"]),
        &path(&["dest"]),
        ExtClass::DynamicLibrary,
        &seg("libtika_native.dylib"),
    )
    .ok()
    .expect("staging must succeed");
    assert!(!t4.query_is_file(&path(&["dest", "liba.so"])));
    assert!(t4.query_is_file(&path(&["dest", "libb.dylib"])));
    assert!(!t4.query_is_file(&path(&["dest", "readme.txt"])));
}

#[test]
fn exhausted_search_reports_not_found() {
    // A populated build tree without the artifact anywhere: the
    // locator must return nothing and the pipeline must fail loudly.
    let mut t = FsTree::empty();
    let out = ["target", "release", "build", "doc_dig-1", "out"];
    mkdirs(&mut t, &out);
    mkfile(
        &mut t,
        &["target", "release", "build", "extractous-1", "out", "libother.so"],
        b"not it",
    );
    let crate_root = path(&["proj", "native", "doc_dig"]);
    assert_eq!(locate(&t, &path(&out), &seg("libtika_native.so")), None);
    let r = run_build(t, &path(&out), &crate_root, linux(), &seg("libtika_native.so"));
    assert_eq!(r.err().expect("must fail"), BuildError::ArtifactNotFound);
}

#[test]
fn end_to_end_staging_then_fast_path() {
    // Empty destination; the upstream sibling directory holds the
    // primary artifact and one sibling library.  After one run both
    // are staged byte-identically; a second run is a fast-path no-op.
    let mut t = FsTree::empty();
    let out = ["proj", "native", "doc_dig", "target", "release", "build", "doc_dig-1", "out"];
    mkdirs(&mut t, &out);
    let src = ["proj", "native", "doc_dig", "target", "release", "build", "extractous-7", "out"];
    mkfile(
        &mut t,
        &["proj", "native", "doc_dig", "target", "release", "build", "extractous-7", "out", "libtika_native.so"],
        b"tika-bytes",
    );
    mkfile(
        &mut t,
        &["proj", "native", "doc_dig", "target", "release", "build", "extractous-7", "out", "libfoo.so"],
        b"foo-bytes",
    );
    let _ = src;
    mkdirs(&mut t, &["proj", "priv", "native"]);
    let crate_root = path(&["proj", "native", "doc_dig"]);
    let primary = seg("libtika_native.so");

    let r = run_build(t, &path(&out), &crate_root, linux(), &primary);
    let o = r.ok().expect("first run must stage");
    assert!(o.emit_origin_rpath);
    assert_eq!(
        o.tree
            .query_file_data(&path(&["proj", "priv", "native", "libtika_native.so"])),
        Some(b"tika-bytes".to_vec())
    );
    assert_eq!(
        o.tree
            .query_file_data(&path(&["proj", "priv", "native", "libfoo.so"])),
        Some(b"foo-bytes".to_vec())
    );

    // Second run: fast path, nothing changes.
    let n_before = o.tree.entries.len();
    let r2 = run_build(o.tree, &path(&out), &crate_root, linux(), &primary);
    let o2 = r2.ok().expect("second run must succeed");
    assert!(o2.emit_origin_rpath);
    assert_eq!(o2.tree.entries.len(), n_before);
}

#[test]
fn direct_output_hit_wins() {
    let mut t = FsTree::empty();
    let out = ["target", "release", "build", "doc_dig-1", "out"];
    mkfile(
        &mut t,
        &["target", "release", "build", "doc_dig-1", "out", "libtika_native.so"],
        b"vendored",
    );
    mkfile(
        &mut t,
        &["target", "release", "build", "extractous-1", "libtika_native.so"],
        b"sibling",
    );
    let found = locate(&t, &path(&out), &seg("libtika_native.so")).expect("must be found");
    assert_eq!(
        found,
        path(&["target", "release", "build", "doc_dig-1", "out", "libtika_native.so"])
    );
}

#[test]
fn global_fallback_searches_nearest_build_ancestor() {
    // No direct hit, no upstream-named sibling, no opposite profile
    // (the profile directory has an unconventional name): the search
    // must still find the artifact under the nearest `build` ancestor.
    let mut t = FsTree::empty();
    let out = ["target", "bench", "build", "doc_dig-1", "out"];
    mkdirs(&mut t, &out);
    mkfile(
        &mut t,
        &["target", "bench", "build", "upstream-cache", "libtika_native.so"],
        b"cached",
    );
    let found = locate(&t, &path(&out), &seg("libtika_native.so")).expect("must be found");
    assert_eq!(
        found,
        path(&["target", "bench", "build", "upstream-cache", "libtika_native.so"])
    );
}

#[test]
fn staging_error_variants() {
    // Source directory missing entirely.
    let mut t = FsTree::empty();
    mkdirs(&mut t, &["dest"]);
    let r = stage(
        t,
        &path(&["nowhere"]),
        &path(&["dest"]),
        ExtClass::SharedObject,
        &seg("libtika_native.so"),
    );
    assert_eq!(r.err().expect("must fail"), StageError::SourceUnreadable);

    // A file blocks the destination chain.
    let mut t2 = FsTree::empty();
    mkfile(&mut t2, &["dest"], b"in the way");
    mkfile(&mut t2, &["src", "liba.so"], b"aaa");
    let r2 = stage(
        t2,
        &path(&["src"]),
        &path(&["dest", "native"]),
        ExtClass::SharedObject,
        &seg("libtika_native.so"),
    );
    assert_eq!(r2.err().expect("must fail"), StageError::DestNotCreatable);

    // A directory occupies a file's destination.
    let mut t3 = FsTree::empty();
    mkfile(&mut t3, &["src", "liba.so"], b"aaa");
    mkdirs(&mut t3, &["dest", "liba.so"]);
    let r3 = stage(
        t3,
        &path(&["src"]),
        &path(&["dest"]),
        ExtClass::SharedObject,
        &seg("libtika_native.so"),
    );
    assert_eq!(r3.err().expect("must fail"), StageError::DestOccupied);
}

#[test]
fn pipeline_reports_staging_failure() {
    // The artifact is found, but a file sits where the staging
    // directory chain must go.
    let mut t = FsTree::empty();
    let out = ["proj", "native", "doc_dig", "target", "release", "build", "doc_dig-1", "out"];
    mkdirs(&mut t, &out);
    mkfile(
        &mut t,
        &["proj", "native", "doc_dig", "target", "release", "build", "extractous-7", "out", "libtika_native.so"],
        b"x",
    );
    mkfile(&mut t, &["proj", "priv"], b"in the way");
    let crate_root = path(&["proj", "native", "doc_dig"]);
    let r = run_build(t, &path(&out), &crate_root, linux(), &seg("libtika_native.so"));
    assert_eq!(
        r.err().expect("must fail"),
        BuildError::Staging(StageError::DestNotCreatable)
    );
}

#[test]
fn unreadable_source_directory_fails_staging() {
    let mut t = FsTree::empty();
    t.add_dir(&path(&["src"]), false);
    mkdirs(&mut t, &["dest"]);
    let r = stage(
        t,
        &path(&["src"]),
        &path(&["dest"]),
        ExtClass::SharedObject,
        &seg("libtika_native.so"),
    );
    assert_eq!(r.err().expect("must fail"), StageError::SourceUnreadable);
}

#[test]
fn rpath_directive_per_family() {
    assert_eq!(
        rpath_directive(caps_for(OsFamily::Linux)),
        Some(b"cargo:rustc-link-arg=-Wl,-rpath,$ORIGIN".to_vec())
    );
    assert_eq!(rpath_directive(caps_for(OsFamily::Apple)), None);
    assert_eq!(rpath_directive(caps_for(OsFamily::Other)), None);
}

#[test]
fn extension_classification() {
    assert!(ext_is(&seg("libtika_native.so"), ExtClass::SharedObject));
    assert!(!ext_is(&seg("libtika_native.so"), ExtClass::DynamicLibrary));
    assert!(ext_is(&seg("libx.dylib"), ExtClass::DynamicLibrary));
    // A leading dot with no other dot opens no extension.
    assert!(!ext_is(&seg(".so"), ExtClass::SharedObject));
    // Only the last dot counts.
    assert!(!ext_is(&seg("libz.so.1"), ExtClass::SharedObject));
    assert!(ext_is(&seg("libz.1.so"), ExtClass::SharedObject));
    assert!(!ext_is(&seg("libnodots"), ExtClass::SharedObject));
}

#[test]
fn metadata_rendering() {
    let meta = vec![
        (b"Content-Type".to_vec(), b"text/plain".to_vec()),
        (b"Author".to_vec(), b"nobody".to_vec()),
    ];
    assert_eq!(
        doc_dig::meta_to_string(&meta),
        b"Content-Type=text/plain\nAuthor=nobody\n".to_vec()
    );
    assert_eq!(doc_dig::meta_to_string(&vec![]), Vec::<u8>::new());
}
