//! A 64-bit linear congruential generator returning its well-mixed high half.

use vstd::prelude::*;
use vstd::arithmetic::div_mod::lemma_add_mod_noop;

verus! {

/// Multiplier of the generator.
pub const LCG_MUL: u64 = 6364136223846793005;
/// Increment of the generator.
pub const LCG_INC: u64 = 1442695040888963407;

/// One step of the generator: `(s * LCG_MUL + LCG_INC) mod 2^64`.
pub open spec fn lcg_step(s: u64) -> u64 {
    ((s as nat * LCG_MUL as nat + LCG_INC as nat) % 0x1_0000_0000_0000_0000nat) as u64
}

/// The state after `k` steps from `s`.
pub open spec fn lcg_iter(s: u64, k: nat) -> u64
    decreases k,
{
    if k == 0 {
        s
    } else {
        lcg_step(lcg_iter(s, (k - 1) as nat))
    }
}

/// What a draw reports for the state it leaves behind: its high 32 bits.
pub open spec fn lcg_output(s: u64) -> u32 {
    (s / 0x1_0000_0000u64) as u32
}

/// The value returned by draw number `k` (counting from 0) of a generator
/// that starts in state `s`.
pub open spec fn lcg_draw(s: u64, k: nat) -> u32 {
    lcg_output(lcg_iter(s, k + 1))
}

/// 64-bit LCG, returning the (well-mixed) high 32 bits.
pub struct Rng(pub u64);

impl Rng {
    /// Advances the state one step and returns the high 32 bits of the new state.
    pub fn next(&mut self) -> (r: u32)
        ensures
            final(self).0 == lcg_step(old(self).0),
            r == lcg_output(final(self).0),
    {
        let s = self.0;
        let m = s.wrapping_mul(LCG_MUL);
        let n = m.wrapping_add(LCG_INC);
        proof {
            lemma_add_mod_noop(
                s as int * LCG_MUL as int,
                LCG_INC as int,
                0x1_0000_0000_0000_0000int,
            );
            assert(n == lcg_step(s));
            assert(n >> 32 == n / 0x1_0000_0000u64) by (bit_vector);
        }
        self.0 = n;
        (self.0 >> 32) as u32
    }
}

/// Draws compose: taking `a` steps and then `b` more is taking `a + b` steps.
pub proof fn lemma_lcg_iter_add(s: u64, a: nat, b: nat)
    ensures
        lcg_iter(lcg_iter(s, a), b) == lcg_iter(s, a + b),
    decreases b,
{
    if b > 0 {
        lemma_lcg_iter_add(s, a, (b - 1) as nat);
    }
}

} // verus!
