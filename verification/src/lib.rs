//! Native-artifact discovery and staging for a dynamically loaded extension.
//!
//! During a build, the shared libraries produced by an upstream native
//! dependency must be found somewhere under the build tree, copied into a
//! stable staging directory, and the dynamic loader must be told to search
//! the extension's own directory at run time.  The search, the copy rules
//! and the loader decision are ordinary logic over a file-system snapshot,
//! and this crate states and proves them over an explicit model of that
//! snapshot ([`fs_model::FsTree`]).

use vstd::prelude::*;

pub mod fs_model;
pub mod locator;
pub mod platform;
pub mod pipeline;
pub mod stager;

verus! {

/// The rendering of the first `n` metadata pairs: each pair as
/// `key=value` on a line of its own.
pub open spec fn rendered_meta(items: Seq<(Vec<u8>, Vec<u8>)>, n: int) -> Seq<u8>
    decreases n,
{
    if n <= 0 {
        Seq::empty()
    } else {
        rendered_meta(items, n - 1) + items[n - 1].0@ + seq![61u8] + items[n - 1].1@ + seq![
            10u8,
        ]
    }
}

/// Appends the bytes of `src` to `dst`.
pub fn append_bytes(dst: &mut Vec<u8>, src: &Vec<u8>)
    ensures
        final(dst)@ == old(dst)@ + src@,
{
    let mut i: usize = 0;
    while i < src.len()
        invariant
            0 <= i <= src@.len(),
            dst@ =~= old(dst)@ + src@.subrange(0, i as int),
        decreases src@.len() - i,
    {
        dst.push(src[i]);
        i = i + 1;
    }
    proof {
        assert(dst@ =~= old(dst)@ + src@);
    }
}

/// Renders a metadata value — a list of key-value pairs of byte
/// strings — into one printable byte string, each pair as `key=value`
/// on a line of its own.
pub fn meta_to_string(meta: &Vec<(Vec<u8>, Vec<u8>)>) -> (r: Vec<u8>)
    ensures
        r@ == rendered_meta(meta@, meta@.len() as int),
{
    let mut r: Vec<u8> = Vec::new();
    let mut i: usize = 0;
    while i < meta.len()
        invariant
            0 <= i <= meta@.len(),
            r@ == rendered_meta(meta@, i as int),
        decreases meta@.len() - i,
    {
        let ghost r0 = r@;
        append_bytes(&mut r, &meta[i].0);
        r.push(61);
        proof {
            assert(r@ =~= r0 + meta@[i as int].0@ + seq![61u8]);
        }
        let ghost r1 = r@;
        append_bytes(&mut r, &meta[i].1);
        r.push(10);
        proof {
            assert(r@ =~= r1 + meta@[i as int].1@ + seq![10u8]);
        }
        i = i + 1;
    }
    r
}

} // verus!
