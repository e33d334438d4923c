//! Sizes of the GPU resources the renderer allocates.

use vstd::prelude::*;

verus! {

/// Particles handled by one compute workgroup.
pub const WORKGROUP_SIZE: u32 = 64;

/// Round a texture dimension up to the next multiple of four.
pub fn round_up_to_4(v: u32) -> (r: u32)
    requires
        v + 3 <= u32::MAX,
    ensures
        r % 4 == 0,
        v <= r < v + 4,
{
    let s = v + 3;
    let r = s & !3u32;
    assert(r == s - s % 4 && (s - s % 4) % 4 == 0) by (bit_vector)
        requires
            r == s & !3u32,
    ;
    r
}

/// Compute workgroups needed to cover `count` particles.
pub fn workgroups(count: u32) -> (r: u32)
    requires
        count + WORKGROUP_SIZE <= u32::MAX,
    ensures
        r * WORKGROUP_SIZE >= count,
        r * WORKGROUP_SIZE < count + WORKGROUP_SIZE,
{
    let r = (count + WORKGROUP_SIZE - 1) / WORKGROUP_SIZE;
    assert(r * 64 >= count && r * 64 < count + 64) by (nonlinear_arith)
        requires
            r == (count + 63) / 64,
            count >= 0,
    ;
    r
}

/// Half of a render-target extent, at least one texel.
pub fn half_extent(v: u32) -> (r: u32)
    ensures
        r == if v / 2 >= 1 {
            v / 2
        } else {
            1
        },
{
    let half = v / 2;
    if half >= 1 {
        half
    } else {
        1
    }
}

} // verus!
