//! The 64-bit linear congruential generator of the solver.
use vstd::prelude::*;

verus! {

/// One step of the generator.
pub open spec fn lcg_step(g: u64) -> u64 {
    g.wrapping_mul(6364136223846793005u64).wrapping_add(1442695040888963407u64)
}

/// Advances the generator and returns its new state.
pub fn next_random64(generator: &mut u64) -> (r: u64)
    ensures
        r == lcg_step(*old(generator)),
        *final(generator) == r,
{
    let g = generator.wrapping_mul(6364136223846793005u64).wrapping_add(1442695040888963407u64);
    *generator = g;
    g
}

/// The high 32 bits of the next state.
pub fn next_random32(generator: &mut u64) -> (r: u32)
    ensures
        r == lcg_step(*old(generator)) / 0x1_0000_0000,
        *final(generator) == lcg_step(*old(generator)),
{
    let g = next_random64(generator);
    proof {
        assert(g >> 32u64 == g / 0x1_0000_0000) by (bit_vector);
    }
    (g >> 32) as u32
}

/// A pseudo-random number in `[l, r)` (or `l` when `l == r`): the next
/// 32-bit draw scaled into the interval.
pub fn pick_random(generator: &mut u64, l: u32, r: u32) -> (res: u32)
    requires
        l <= r,
    ensures
        l == r ==> res == l && *final(generator) == *old(generator),
        l < r ==> l <= res < r,
        l < r ==> *final(generator) == lcg_step(*old(generator)),
        l < r ==> res == l + (((r - l) as int) * ((lcg_step(*old(generator)) / 0x1_0000_0000) as int))
            / 0x1_0000_0000,
{
    if l == r {
        return l;
    }
    let delta: u32 = r - l;
    let tmp: u32 = next_random32(generator);
    proof {
        assert((delta as int) * (tmp as int) < 0x1_0000_0000 * 0x1_0000_0000) by (nonlinear_arith)
            requires
                delta < 0x1_0000_0000,
                tmp < 0x1_0000_0000,
        ;
    }
    let p: u64 = delta as u64 * tmp as u64;
    let scaled: u64 = p >> 32;
    proof {
        assert(p >> 32u64 == p / 0x1_0000_0000) by (bit_vector);
        assert((delta as int) * (tmp as int) < (delta as int) * 0x1_0000_0000) by (nonlinear_arith)
            requires
                delta > 0,
                tmp < 0x1_0000_0000,
        ;
    }
    l + scaled as u32
}

} // verus!
