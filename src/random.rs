use core::ops::Range;
use vstd::prelude::*;

verus! {

/// Multiplier of the xorshift64* output function.
pub const MULTIPLIER: u64 = 0x2545_f491_4f6c_dd1d;

/// One step of the three-shift xorshift mixing sequence.
pub open spec fn mix(n: u64) -> u64 {
    let a = n ^ (n >> 12u64);
    let b = a ^ (a << 25u64);
    b ^ (b >> 27u64)
}

/// The 64-bit output for a freshly mixed state.
pub open spec fn scramble(n: u64) -> u64 {
    n.wrapping_mul(MULTIPLIER)
}

/// The sixteen high bits of a 64-bit word.
pub open spec fn high16(x: u64) -> u16 {
    (x >> 48u64) as u16
}

/// The value in `[start, end)` drawn from a generator whose state is `state`.
pub open spec fn pick_in(start: u16, end: u16, state: u64) -> u16 {
    (start + high16(scramble(mix(state))) as int % (end - start) as int) as u16
}

/// The state reached from `state` after `n` draws.
pub open spec fn state_after(state: u64, n: nat) -> u64
    decreases n,
{
    if n == 0 {
        state
    } else {
        mix(state_after(state, (n - 1) as nat))
    }
}

/// A xorshift64* pseudo-random generator owned by its user.
pub struct FastRng {
    state: u64,
}

impl View for FastRng {
    type V = u64;

    closed spec fn view(&self) -> u64 {
        self.state
    }
}

impl FastRng {
    /// A generator whose state is `seed`.
    pub fn new(seed: u64) -> (r: FastRng)
        ensures
            r@ == seed,
    {
        FastRng { state: seed }
    }

    /// Advances the state by one mixing step and returns the scrambled output.
    pub fn next(&mut self) -> (r: u64)
        ensures
            final(self)@ == mix(old(self)@),
            r == scramble(mix(old(self)@)),
    {
        let mut n = self.state;
        n = n ^ (n >> 12u64);
        n = n ^ (n << 25u64);
        n = n ^ (n >> 27u64);
        self.state = n;
        n.wrapping_mul(MULTIPLIER)
    }
}

/// The sixteen high bits of `x`.
pub fn u64_to_u16(x: u64) -> (r: u16)
    ensures
        r == high16(x),
        r as u64 == x >> 48u64,
{
    assert(x >> 48u64 <= 0xffffu64) by (bit_vector);
    (x >> 48u64) as u16
}

/// Draws a value in `range` from `rng`.
pub fn u16(rng: &mut FastRng, range: Range<u16>) -> (r: u16)
    requires
        range.start < range.end,
    ensures
        final(rng)@ == mix(old(rng)@),
        r == pick_in(range.start, range.end, old(rng)@),
        range.start <= r < range.end,
{
    let len = range.end - range.start;
    let x = u64_to_u16(rng.next());
    range.start + (x % len)
}

} // verus!
