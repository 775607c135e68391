//! A tiny multiplicative string hasher over a 64-bit state.
//!
//! Each byte folds into the state as `state * 31 + byte`, wrapping on
//! overflow; the state itself is the finished hash.

use vstd::prelude::*;

verus! {

/// One byte folded into the state, wrapping at 2^64.
pub open spec fn mix_step(h: u64, b: u8) -> u64 {
    (((h as int) * 31 + (b as int)) % 0x10000000000000000) as u64
}

/// The state after folding in the first `j` bytes of `data`.
pub open spec fn spec_digest(h: u64, data: Seq<u8>, j: int) -> u64
    decreases j,
{
    if j <= 0 {
        h
    } else {
        mix_step(spec_digest(h, data, j - 1), data[j - 1])
    }
}

/// The hasher: its state is the hash of everything written so far.
pub struct Hasher(pub u64);

impl Default for Hasher {
    /// A fresh hasher starts from zero.
    fn default() -> (r: Hasher)
        ensures
            r.0 == 0,
    {
        Hasher(0)
    }
}

impl Hasher {
    /// The hash of everything written so far.
    pub fn finish(&self) -> (r: u64)
        ensures
            r == self.0,
    {
        self.0
    }

    /// Fold a byte string into the state.
    pub fn write(&mut self, data: &[u8])
        ensures
            final(self).0 == spec_digest(old(self).0, data@, data@.len() as int),
    {
        let ghost h0 = self.0;
        let n = data.len();
        let mut i: usize = 0;
        while i < n
            invariant
                n == data@.len(),
                i <= n,
                self.0 == spec_digest(h0, data@, i as int),
            decreases n - i,
        {
            let b = data[i];
            let prev = self.0;
            let t: u128 = (prev as u128) * 31 + (b as u128);
            let next = (t % 0x10000000000000000u128) as u64;
            proof {
                assert(next == mix_step(prev, b));
            }
            self.0 = next;
            i = i + 1;
        }
    }
}

} // verus!
