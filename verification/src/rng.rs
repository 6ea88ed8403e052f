//! A seedable deterministic pseudo-random number generator (the wyrand
//! generator), carried by the engine as a plain `u64` state word.
//!
//! The whole generator is a three-line integer function of its state, so it
//! is implemented here and verified against that statement: the next state
//! and the output are pinned exactly.  This is what makes every randomized
//! step of the engine a mathematical function of the previous state, and the
//! engine as a whole reproducible from a seed.

use vstd::prelude::*;
use vstd::arithmetic::mul::lemma_mul_upper_bound;

verus! {

/// Additive constant of the wyrand state advance.
pub const WY_INC: u64 = 0x2d35_8dcc_aa6c_78a5;

/// Xor constant fed into the folded multiply.
pub const WY_XOR: u64 = 0x8bb8_4b93_962e_acc9;

/// 2^64, the fold boundary of the 128-bit product.
pub const WY_FOLD: u128 = 0x1_0000_0000_0000_0000;

/// The generator state after one draw.
pub open spec fn wy_next(s: u64) -> u64 {
    s.wrapping_add(WY_INC)
}

/// The two 64-bit halves of the exact product `a * b`, xor-folded together.
pub open spec fn wy_fold(a: u64, b: u64) -> u64 {
    ((((a * b) / (WY_FOLD as int)) as u64) ^ (((a * b) % (WY_FOLD as int)) as u64))
}

/// The value produced by one draw from state `s`.
pub open spec fn wy_out(s: u64) -> u64 {
    wy_fold(wy_next(s), wy_next(s) ^ WY_XOR)
}

/// One draw: returns the new state and the produced value.
pub fn wy_step(s: u64) -> (r: (u64, u64))
    ensures
        r.0 == wy_next(s),
        r.1 == wy_out(s),
{
    let ns = s.wrapping_add(WY_INC);
    let a: u128 = ns as u128;
    let b: u128 = (ns ^ WY_XOR) as u128;
    proof {
        lemma_mul_upper_bound(a as int, u64::MAX as int, b as int, u64::MAX as int);
    }
    let t: u128 = a * b;
    let hi: u64 = (t / WY_FOLD) as u64;
    let lo: u64 = (t % WY_FOLD) as u64;
    (ns, hi ^ lo)
}

} // verus!
