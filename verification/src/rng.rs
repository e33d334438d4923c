//! The xorshift32 generator that scatters the initial particles.

use vstd::prelude::*;

verus! {

/// Marsaglia's xorshift32 step: `s ^= s << 13; s ^= s >> 17; s ^= s << 5`,
/// with shifts that drop the bits moved out of 32.
pub open spec fn xorshift32(s: u32) -> u32 {
    let a = s ^ (s << 13u32);
    let b = a ^ (a >> 17u32);
    b ^ (b << 5u32)
}

/// Advance the generator state by one step and return the new state.
pub fn xorshift_next(s: &mut u32) -> (r: u32)
    ensures
        *final(s) == xorshift32(*old(s)),
        r == *final(s),
{
    *s ^= *s << 13;
    *s ^= *s >> 17;
    *s ^= *s << 5;
    *s
}

/// Law: a nonzero state never steps to zero, so a nonzero seed keeps the
/// generator running; zero is the one state that maps to itself.
pub proof fn law_xorshift_nonzero(s: u32)
    ensures
        s != 0 ==> xorshift32(s) != 0,
        s == 0 ==> xorshift32(s) == 0,
{
    let a = s ^ (s << 13u32);
    let b = a ^ (a >> 17u32);
    assert(s != 0 ==> a != 0) by (bit_vector)
        requires
            a == s ^ (s << 13u32),
    ;
    assert(a != 0 ==> b != 0) by (bit_vector)
        requires
            b == a ^ (a >> 17u32),
    ;
    assert(b != 0 ==> b ^ (b << 5u32) != 0) by (bit_vector);
    assert(s == 0 ==> xorshift32(s) == 0) by (bit_vector);
}

/// Law: the step is one-to-one; distinct states never merge, so every state
/// lies on a pure cycle.
pub proof fn law_xorshift_injective(s: u32, t: u32)
    ensures
        s != t ==> xorshift32(s) != xorshift32(t),
{
    let a = s ^ (s << 13u32);
    let b = a ^ (a >> 17u32);
    let c = t ^ (t << 13u32);
    let d = c ^ (c >> 17u32);
    assert(s != t ==> a != c) by (bit_vector)
        requires
            a == s ^ (s << 13u32),
            c == t ^ (t << 13u32),
    ;
    assert(a != c ==> b != d) by (bit_vector)
        requires
            b == a ^ (a >> 17u32),
            d == c ^ (c >> 17u32),
    ;
    assert(b != d ==> b ^ (b << 5u32) != d ^ (d << 5u32)) by (bit_vector);
}

} // verus!
