use vstd::prelude::*;

verus! {

/// Deterministic pseudo-random number source owned by the engine.
///
/// The draft only needs a uniformly spread stream of words that the caller
/// can seed; cryptographic strength is a non-goal. This is the 64-bit
/// "splitmix" mixing sequence.
pub struct Prng {
    state: u64,
}

impl Prng {
    /// Starts the stream at the given seed.
    pub fn new(seed: u64) -> Prng {
        Prng { state: seed }
    }

    /// Draws the next word of the stream.
    pub fn next_u64(&mut self) -> u64 {
        self.state = self.state.wrapping_add(0x9E3779B97F4A7C15);
        let mut z: u64 = self.state;
        z = (z ^ (z >> 30)).wrapping_mul(0xBF58476D1CE4E5B9);
        z = (z ^ (z >> 27)).wrapping_mul(0x94D049BB133111EB);
        z ^ (z >> 31)
    }

    /// Draws an index below `bound`, to select uniformly out of `bound` items.
    pub fn next_below(&mut self, bound: usize) -> (r: usize)
        requires
            bound > 0,
        ensures
            r < bound,
    {
        let word = self.next_u64();
        let r = word % (bound as u64);
        assert(r < bound as u64);
        r as usize
    }
}

} // verus!
