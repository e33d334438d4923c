//! Byte-level raster helpers: interleaving coverage layers into one RGBA
//! upload buffer and reading one channel back out of an RGBA image.

use vstd::prelude::*;

verus! {

/// Interleave four single-channel coverage layers into RGBA: texel `i` of the
/// result is `(nb[i], ns[i], pb[i], ps[i])`. The layer lengths are taken from
/// `nb`; the other three must be at least as long.
pub fn pack_rgba(nb: &[u8], ns: &[u8], pb: &[u8], ps: &[u8]) -> (out: Vec<u8>)
    requires
        ns@.len() >= nb@.len(),
        pb@.len() >= nb@.len(),
        ps@.len() >= nb@.len(),
        nb@.len() * 4 <= usize::MAX,
    ensures
        out@.len() == 4 * nb@.len(),
        forall|i: int|
            0 <= i < nb@.len() ==> {
                &&& #[trigger] out@[4 * i] == nb@[i]
                &&& out@[4 * i + 1] == ns@[i]
                &&& out@[4 * i + 2] == pb@[i]
                &&& out@[4 * i + 3] == ps@[i]
            },
{
    let n = nb.len();
    let mut out: Vec<u8> = Vec::with_capacity(n * 4);
    let mut i: usize = 0;
    while i < n
        invariant
            n == nb@.len(),
            i <= n,
            ns@.len() >= n,
            pb@.len() >= n,
            ps@.len() >= n,
            out@.len() == 4 * i,
            forall|j: int|
                0 <= j < i ==> {
                    &&& #[trigger] out@[4 * j] == nb@[j]
                    &&& out@[4 * j + 1] == ns@[j]
                    &&& out@[4 * j + 2] == pb@[j]
                    &&& out@[4 * j + 3] == ps@[j]
                },
        decreases n - i,
    {
        let ghost prev = out@;
        out.push(nb[i]);
        out.push(ns[i]);
        out.push(pb[i]);
        out.push(ps[i]);
        assert forall|j: int| 0 <= j < i + 1 implies {
            &&& #[trigger] out@[4 * j] == nb@[j]
            &&& out@[4 * j + 1] == ns@[j]
            &&& out@[4 * j + 2] == pb@[j]
            &&& out@[4 * j + 3] == ps@[j]
        } by {
            if j < i {
                assert(out@[4 * j] == prev[4 * j]);
            }
        }
        i = i + 1;
    }
    out
}

/// The first (red) byte of each of the first `n` RGBA texels of an image
/// read back from a canvas.
pub fn red_channel(rgba: &[u8], n: usize) -> (out: Vec<u8>)
    requires
        4 * n <= rgba@.len() + 3,
    ensures
        out@.len() == n,
        forall|i: int| 0 <= i < n ==> #[trigger] out@[i] == rgba@[4 * i],
{
    let len = rgba.len();
    let mut out: Vec<u8> = Vec::with_capacity(n);
    let mut i: usize = 0;
    while i < n
        invariant
            len == rgba@.len(),
            i <= n,
            4 * n <= rgba@.len() + 3,
            out@.len() == i,
            forall|j: int| 0 <= j < i ==> #[trigger] out@[j] == rgba@[4 * j],
        decreases n - i,
    {
        out.push(rgba[i * 4]);
        i = i + 1;
    }
    out
}

} // verus!
