//! Platform capabilities: which shared-library extension a platform
//! family uses, and whether its loader understands an origin-relative
//! run-time search path.
//!
//! The two capabilities are resolved once, at the start of a pipeline
//! run, instead of being scattered through the code as conditionals.

use vstd::prelude::*;

verus! {

/// The closed set of operating-system families the pipeline tells apart.
#[derive(Clone, Copy, PartialEq, Eq, Structural)]
pub enum OsFamily {
    Linux,
    Apple,
    Other,
}

/// The extension class of shared libraries on a platform family.
#[derive(Clone, Copy, PartialEq, Eq, Structural)]
pub enum ExtClass {
    SharedObject,
    DynamicLibrary,
}

/// The capabilities the pipeline needs from the platform.
#[derive(Clone, Copy, PartialEq, Eq, Structural)]
pub struct PlatformCaps {
    /// Which file extension marks a shared library here.
    pub ext: ExtClass,
    /// Whether the loader accepts a search path relative to the loaded
    /// binary's own directory.
    pub origin_rpath: bool,
}

/// The bytes of the extension `so`.
pub open spec fn so_ext() -> Seq<u8> {
    seq![115u8, 111u8]
}

/// The bytes of the extension `dylib`.
pub open spec fn dylib_ext() -> Seq<u8> {
    seq![100u8, 121u8, 108u8, 105u8, 98u8]
}

/// The extension bytes of an extension class.
pub open spec fn ext_seq(e: ExtClass) -> Seq<u8> {
    match e {
        ExtClass::SharedObject => so_ext(),
        ExtClass::DynamicLibrary => dylib_ext(),
    }
}

/// The capabilities of each family: Apple-style systems use `dylib`,
/// the rest use `so`; only Linux-style loaders get the origin-relative
/// search path here.
pub open spec fn spec_caps_for(f: OsFamily) -> PlatformCaps {
    match f {
        OsFamily::Linux => PlatformCaps { ext: ExtClass::SharedObject, origin_rpath: true },
        OsFamily::Apple => PlatformCaps { ext: ExtClass::DynamicLibrary, origin_rpath: false },
        OsFamily::Other => PlatformCaps { ext: ExtClass::SharedObject, origin_rpath: false },
    }
}

/// Resolves the platform capabilities for a family.
pub fn caps_for(f: OsFamily) -> (c: PlatformCaps)
    ensures
        c == spec_caps_for(f),
{
    match f {
        OsFamily::Linux => PlatformCaps { ext: ExtClass::SharedObject, origin_rpath: true },
        OsFamily::Apple => PlatformCaps { ext: ExtClass::DynamicLibrary, origin_rpath: false },
        OsFamily::Other => PlatformCaps { ext: ExtClass::SharedObject, origin_rpath: false },
    }
}

/// The position of the last dot that can open an extension, looking at
/// positions below `i`: a dot at position zero never counts, because a
/// name that starts with its only dot is a hidden file, not an
/// extension.
pub open spec fn ext_split(s: Seq<u8>, i: int) -> Option<int>
    decreases i,
{
    if i <= 1 {
        None
    } else if s[i - 1] == 46u8 {
        Some(i - 1)
    } else {
        ext_split(s, i - 1)
    }
}

/// The extension of a file name, as the platform's naming convention
/// has it: the part after the last dot, provided that dot is not the
/// leading byte.
pub open spec fn ext_of(s: Seq<u8>) -> Option<Seq<u8>> {
    match ext_split(s, s.len() as int) {
        Some(j) => Some(s.subrange(j + 1, s.len() as int)),
        None => None,
    }
}

/// The name carries exactly the extension of class `e`.
pub open spec fn matches_ext(name: Seq<u8>, e: ExtClass) -> bool {
    ext_of(name) == Some(ext_seq(e))
}

/// The bytes of the extension of class `e`.
pub fn ext_bytes(e: ExtClass) -> (v: Vec<u8>)
    ensures
        v@ == ext_seq(e),
{
    let mut v: Vec<u8> = Vec::new();
    match e {
        ExtClass::SharedObject => {
            v.push(115);
            v.push(111);
        },
        ExtClass::DynamicLibrary => {
            v.push(100);
            v.push(121);
            v.push(108);
            v.push(105);
            v.push(98);
        },
    }
    proof {
        assert(v@ =~= ext_seq(e));
    }
    v
}

/// The extension of `name`, if it has one.
#[verifier::loop_isolation(false)]
pub fn extension_of(name: &Vec<u8>) -> (r: Option<Vec<u8>>)
    ensures
        match r {
            Some(x) => ext_of(name@) == Some(x@),
            None => ext_of(name@) is None,
        },
{
    let mut i: usize = name.len();
    while i > 1
        invariant
            0 <= i <= name@.len(),
            ext_split(name@, name@.len() as int) == ext_split(name@, i as int),
        decreases i,
    {
        if name[i - 1] == 46 {
            let mut x: Vec<u8> = Vec::new();
            let mut k: usize = i;
            while k < name.len()
                invariant
                    i <= k <= name@.len(),
                    x@ =~= name@.subrange(i as int, k as int),
                decreases name@.len() - k,
            {
                x.push(name[k]);
                k = k + 1;
            }
            proof {
                assert(x@ =~= name@.subrange(i as int, name@.len() as int));
            }
            return Some(x);
        }
        i = i - 1;
    }
    None
}

/// Does `name` carry exactly the extension of class `e`?
pub fn ext_is(name: &Vec<u8>, e: ExtClass) -> (r: bool)
    ensures
        r == matches_ext(name@, e),
{
    match extension_of(name) {
        Some(x) => crate::fs_model::seg_eq(&x, &ext_bytes(e)),
        None => false,
    }
}

} // verus!
