use vstd::prelude::*;

verus! {

/// The fixed odd seed that a zero state is remapped to before stepping.
pub const ZERO_SEED_REMAP: u64 = 0x9E37_79B9_7F4A_7C15u64;

/// The xorshift64* output multiplier.
pub const OUTPUT_MULTIPLIER: u64 = 0x2545_F491_4F6C_DD1Du64;

/// The state a step starts from: zero stands for [`ZERO_SEED_REMAP`].
pub open spec fn effective_state(state: u64) -> u64 {
    if state == 0 {
        ZERO_SEED_REMAP
    } else {
        state
    }
}

/// The xorshift64 state transition (shifts 12, 25, 27).
pub open spec fn xorshift(x: u64) -> u64 {
    let a = x ^ (x >> 12u64);
    let b = a ^ (a << 25u64);
    b ^ (b >> 27u64)
}

/// The output drawn from a post-step state: a wrapping multiply.
pub open spec fn scramble(x: u64) -> u64 {
    ((x as nat * OUTPUT_MULTIPLIER as nat) % 0x1_0000_0000_0000_0000nat) as u64
}

/// xorshift64*-style PRNG, one u64 of state. ZII: state 0 is valid, it is
/// remapped to a fixed odd constant first, so a zeroed Rng is just one
/// particular seed. Deterministic by construction.
#[derive(Clone, Copy, PartialEq, Eq, Debug)]
pub struct Rng(pub u64);

impl Default for Rng {
    fn default() -> (r: Rng)
        ensures
            r.0 == 0,
    {
        Rng(0)
    }
}

/// A nonzero state stays nonzero under the xorshift step: every shift-xor
/// is invertible, so zero has only zero as its preimage.
pub proof fn lemma_xorshift_nonzero(x: u64)
    requires
        x != 0,
    ensures
        xorshift(x) != 0,
{
    let a = x ^ (x >> 12u64);
    assert(a != 0) by (bit_vector)
        requires x != 0u64, a == x ^ (x >> 12u64);
    let b = a ^ (a << 25u64);
    assert(b != 0) by (bit_vector)
        requires a != 0u64, b == a ^ (a << 25u64);
    let c = b ^ (b >> 27u64);
    assert(c != 0) by (bit_vector)
        requires b != 0u64, c == b ^ (b >> 27u64);
}

impl Rng {
    /// Steps the state and returns the next draw. The new state is never
    /// zero, so the stream never restarts.
    pub fn next_u64(&mut self) -> (r: u64)
        ensures
            final(self).0 == xorshift(effective_state(old(self).0)),
            r == scramble(final(self).0),
            final(self).0 != 0,
    {
        if self.0 == 0 {
            self.0 = ZERO_SEED_REMAP;
        }
        let mut x = self.0;
        x = x ^ (x >> 12u64);
        x = x ^ (x << 25u64);
        x = x ^ (x >> 27u64);
        self.0 = x;
        proof {
            lemma_xorshift_nonzero(effective_state(old(self).0));
        }
        x.wrapping_mul(OUTPUT_MULTIPLIER)
    }
}


/// Multipliers that spread the turn and the draw key over all 64 bits
/// before they mix into the seed.
pub const TURN_SPREAD: u64 = 0x9E37_79B9_7F4A_7C15u64;
pub const KEY_SPREAD: u64 = 0xC2B2_AE3D_27D4_EB4Fu64;

/// The state of the generator keyed by (seed, turn, n).
pub open spec fn keyed_state(seed: u64, turn: u64, n: u64) -> u64 {
    seed ^ (((turn as nat * TURN_SPREAD as nat) % 0x1_0000_0000_0000_0000nat) as u64) ^ (((n as nat
        * KEY_SPREAD as nat) % 0x1_0000_0000_0000_0000nat) as u64)
}

impl Rng {
    /// The generator for one roll site, keyed by (seed, turn, n): draws are
    /// reproducible from the key alone and need no generator state threaded
    /// through the world.
    pub fn at(seed: u64, turn: u64, n: u64) -> (r: Rng)
        ensures
            r.0 == keyed_state(seed, turn, n),
    {
        Rng(seed ^ turn.wrapping_mul(TURN_SPREAD) ^ n.wrapping_mul(KEY_SPREAD))
    }
}

} // verus!
