//! The xorshift generator that drives the wallpaper's particles.

use vstd::prelude::*;

verus! {

/// One xorshift32 step (shifts 13, 17, 5).
pub open spec fn xorshift(x: u32) -> u32 {
    let a = x ^ (x << 13u32);
    let b = a ^ (a >> 17u32);
    b ^ (b << 5u32)
}

/// A xorshift32 generator. Its state is never zero: zero is the one state
/// that xorshift maps to itself.
#[derive(Debug)]
pub struct Rng(pub u32);

impl Rng {
    /// A generator seeded with `seed`, forced odd so that it is not zero.
    pub fn new(seed: u32) -> (r: Rng)
        ensures
            r.0 == seed | 1,
            r.0 != 0,
    {
        assert((seed | 1) != 0) by (bit_vector);
        Rng(seed | 1)
    }

    /// Advances the generator and returns its new state.
    pub fn next(&mut self) -> (x: u32)
        ensures
            x == xorshift(old(self).0),
            final(self).0 == x,
    {
        let mut x = self.0;
        x ^= x << 13;
        x ^= x >> 17;
        x ^= x << 5;
        self.0 = x;
        x
    }
}

/// The seed of display `i`'s generator, mixed from the process seed.
pub fn display_seed(seed: u32, i: u32) -> (s: u32)
    requires
        i < u32::MAX,
    ensures
        s == (seed as nat * (i as nat + 1) + 0x9E37_79B9) % 0x1_0000_0000,
{
    let m = seed.wrapping_mul(i + 1);
    let s = m.wrapping_add(0x9E37_79B9);
    assert(s == (seed as nat * (i as nat + 1) + 0x9E37_79B9) % 0x1_0000_0000) by (nonlinear_arith)
        requires
            m == (seed as nat * (i as nat + 1)) % 0x1_0000_0000,
            s == (if m + 0x9E37_79B9 > u32::MAX {
                m + 0x9E37_79B9 - 0x1_0000_0000
            } else {
                m + 0x9E37_79B9
            }),
    ;
    s
}

/// xorshift maps a non-zero state to a non-zero state, so a generator made
/// by `Rng::new` never reaches the fixed point zero however often it runs.
pub proof fn lemma_xorshift_nonzero(x: u32)
    requires
        x != 0,
    ensures
        xorshift(x) != 0,
{
    let a = x ^ (x << 13u32);
    assert(a != 0) by (bit_vector)
        requires
            x != 0,
            a == x ^ (x << 13u32),
    ;
    let b = a ^ (a >> 17u32);
    assert(b != 0) by (bit_vector)
        requires
            a != 0,
            b == a ^ (a >> 17u32),
    ;
    assert(b ^ (b << 5u32) != 0) by (bit_vector)
        requires
            b != 0,
    ;
}

} // verus!
