use vstd::prelude::*;

verus! {

/// Multiplier of the generator.
pub const LCG_MUL: u64 = 6364136223846793005;

/// Increment of the generator.
pub const LCG_ADD: u64 = 1442695040888963407;

/// The state that follows `s`: `s * LCG_MUL + LCG_ADD` modulo 2^64.
pub open spec fn lcg_next(s: u64) -> u64 {
    ((s as int * LCG_MUL as int + LCG_ADD as int) % 0x1_0000_0000_0000_0000) as u64
}

/// A 64-bit linear congruential generator: reproducible, not secure.
pub struct Rng {
    state: u64,
}

impl Rng {
    /// The current state.
    pub closed spec fn state_of(self) -> u64 {
        self.state
    }

    /// A generator that starts from `seed`.
    pub fn new(seed: u64) -> (r: Rng)
        ensures
            r.state_of() == seed,
    {
        Rng { state: seed }
    }

    /// Advances the state and returns it.
    pub fn next_u64(&mut self) -> (v: u64)
        ensures
            v == lcg_next(old(self).state_of()),
            final(self).state_of() == v,
    {
        let s = self.state;
        let m = s.wrapping_mul(LCG_MUL);
        let n = m.wrapping_add(LCG_ADD);
        proof {
            let r: int = 0x1_0000_0000_0000_0000;
            vstd::arithmetic::div_mod::lemma_add_mod_noop(s as int * LCG_MUL as int, LCG_ADD as int, r);
            assert(LCG_ADD as int % r == LCG_ADD as int);
            assert(m as int == (s as int * LCG_MUL as int) % r);
            assert(n as int == (m as int + LCG_ADD as int) % r);
        }
        self.state = n;
        n
    }

    /// A number below `max` taken from the next state (0, with the state
    /// left alone, when `max` is 0).
    pub fn gen_range(&mut self, max: usize) -> (v: usize)
        ensures
            max == 0 ==> v == 0 && final(self).state_of() == old(self).state_of(),
            max > 0 ==> final(self).state_of() == lcg_next(old(self).state_of()) && v == (
            final(self).state_of() as usize) % max,
            max > 0 ==> v < max,
    {
        if max == 0 {
            return 0;
        }
        (self.next_u64() as usize) % max
    }
}

} // verus!
