//! Building blocks of the selection experiments: an integer mixing hash,
//! an in-place heap selection of the largest counts, and an open-addressing
//! counter table.

use vstd::prelude::*;

verus! {

broadcast use vstd::seq_lib::group_to_multiset_ensures, vstd::seq_lib::to_multiset_update;

/// The avalanche mix of one 32-bit value.
pub open spec fn spec_hash_u32(x: u32) -> u32 {
    let h0 = ((x as u64) + 1) as u64;
    let h1 = h0 ^ (h0 >> 16);
    let h2 = ((h1 * 0x85ebca6b) as u64) & 0xffffffff;
    let h3 = h2 ^ (h2 >> 13);
    let h4 = ((h3 * 0xc2b2ae35) as u64) & 0xffffffff;
    (h4 ^ (h4 >> 16)) as u32
}

/// Mix the bits of `x` into a well-spread 32-bit hash.
pub fn hash_u32(x: u32) -> (r: u32)
    ensures
        r == spec_hash_u32(x),
{
    let h0: u64 = (x as u64) + 1;
    let h1: u64 = h0 ^ (h0 >> 16);
    proof {
        assert(h0 <= 0x100000000 ==> (h0 ^ (h0 >> 16)) <= 0x10001ffff) by (bit_vector);
    }
    let h2: u64 = (h1 * 0x85ebca6b) & 0xffffffff;
    proof {
        assert((((h1 * 0x85ebca6b) as u64) & 0xffffffffu64) <= 0xffffffffu64) by (bit_vector);
    }
    let h3: u64 = h2 ^ (h2 >> 13);
    proof {
        assert(h2 <= 0xffffffff ==> (h2 ^ (h2 >> 13)) <= 0xffffffff) by (bit_vector);
    }
    let h4: u64 = (h3 * 0xc2b2ae35) & 0xffffffff;
    proof {
        assert((((h3 * 0xc2b2ae35) as u64) & 0xffffffffu64) <= 0xffffffffu64) by (bit_vector);
        assert(h4 <= 0xffffffff ==> (h4 ^ (h4 >> 16)) <= 0xffffffff) by (bit_vector);
    }
    (h4 ^ (h4 >> 16)) as u32
}

/// Exchange two entries; the collection of entries is untouched.
fn swap_entries(v: &mut Vec<(u32, u32)>, i: usize, j: usize)
    requires
        i < old(v)@.len(),
        j < old(v)@.len(),
    ensures
        final(v)@.len() == old(v)@.len(),
        final(v)@ == old(v)@.update(i as int, old(v)@[j as int]).update(
            j as int,
            old(v)@[i as int],
        ),
        final(v)@.to_multiset() == old(v)@.to_multiset(),
{
    let ghost v0 = v@;
    let a = v[i];
    let b = v[j];
    v.set(i, b);
    v.set(j, a);
    proof {
        if i == j {
            assert(v@ =~= v0);
            assert(v@.to_multiset() =~= v0.to_multiset());
        } else {
            assert(v0.update(i as int, b)[j as int] == v0[j as int]);
            assert(v@.to_multiset() =~= v0.to_multiset());
        }
    }
}

/// Rearrange `kcs` so that its `min(k, len)` largest counts are selected
/// by an in-place bounded heap; the entries themselves are only permuted.
pub fn sort_largests_with_heap(kcs: &mut Vec<(u32, u32)>, k: usize)
    requires
        old(kcs)@.len() >= 1,
        k >= 1,
    ensures
        final(kcs)@.len() == old(kcs)@.len(),
        final(kcs)@.to_multiset() == old(kcs)@.to_multiset(),
{
    let ghost m0 = kcs@.to_multiset();
    let ghost n0 = kcs@.len();
    let len = kcs.len();
    let k = if k < len {
        k
    } else {
        len
    };
    // First phase: the first k entries become a heap with the smallest
    // count at the root.
    let mut cur: usize = 1;
    while cur < k
        invariant
            kcs@.len() == n0,
            kcs@.to_multiset() == m0,
            k <= kcs@.len(),
        decreases k - cur,
    {
        let mut cidx = cur;
        while cidx > 0
            invariant
                kcs@.len() == n0,
                kcs@.to_multiset() == m0,
                cidx < k <= kcs@.len(),
            decreases cidx,
        {
            let pidx = (cidx - 1) / 2;
            if !(kcs[pidx].1 > kcs[cidx].1) {
                break ;
            }
            swap_entries(kcs, cidx, pidx);
            cidx = pidx;
        }
        cur = cur + 1;
    }
    // Second phase: every later entry larger than the root replaces it and
    // sinks into place, so the heap keeps the k largest counts.
    while cur < len
        invariant
            kcs@.len() == n0,
            kcs@.to_multiset() == m0,
            1 <= k <= kcs@.len(),
            len == kcs@.len(),
        decreases len - cur,
    {
        if kcs[cur].1 > kcs[0].1 {
            swap_entries(kcs, 0, cur);
            let mut pidx: usize = 0;
            let bot = k / 2;
            while pidx < bot
                invariant
                    kcs@.len() == n0,
                    kcs@.to_multiset() == m0,
                    1 <= k <= kcs@.len(),
                    bot == k / 2,
                    pidx < k,
                decreases k - pidx,
            {
                let mut cidx = 2 * pidx + 1;
                if cidx < k - 1 && kcs[cidx].1 > kcs[cidx + 1].1 {
                    cidx = cidx + 1;
                }
                if kcs[cidx].1 > kcs[pidx].1 {
                    break ;
                }
                swap_entries(kcs, pidx, cidx);
                pidx = cidx;
            }
        }
        cur = cur + 1;
    }
    // Third phase: shrink the heap from the back, leaving the selected
    // counts in descending order at the front.
    let mut cur: usize = k - 1;
    while cur > 0
        invariant
            kcs@.len() == n0,
            kcs@.to_multiset() == m0,
            cur < k <= kcs@.len(),
        decreases cur,
    {
        swap_entries(kcs, 0, cur);
        let mut pidx: usize = 0;
        let bot = cur / 2;
        while pidx < bot
            invariant
                kcs@.len() == n0,
                kcs@.to_multiset() == m0,
                1 <= cur < k <= kcs@.len(),
                bot == cur / 2,
                pidx < cur,
            decreases cur - pidx,
        {
            let mut cidx = 2 * pidx + 1;
            if cidx < cur - 1 && kcs[cidx].1 > kcs[cidx + 1].1 {
                cidx = cidx + 1;
            }
            if kcs[cidx].1 > kcs[pidx].1 {
                break ;
            }
            swap_entries(kcs, pidx, cidx);
            pidx = cidx;
        }
        cur = cur - 1;
    }
}

/// An open-addressing table of `(key, count)` buckets with linear probing.
pub struct HashMap32(pub Vec<(u32, u32)>);

impl HashMap32 {
    /// A table of `n` empty buckets.
    pub fn new(n: usize) -> (r: HashMap32)
        ensures
            r.0@.len() == n,
            forall|i: int| 0 <= i < n ==> #[trigger] r.0@[i] == (0u32, 0u32),
    {
        let mut buckets: Vec<(u32, u32)> = Vec::new();
        let mut i: usize = 0;
        while i < n
            invariant
                buckets@.len() == i,
                i <= n,
                forall|ii: int| 0 <= ii < i ==> #[trigger] buckets@[ii] == (0u32, 0u32),
            decreases n - i,
        {
            buckets.push((0u32, 0u32));
            i = i + 1;
        }
        HashMap32(buckets)
    }

    /// Count one occurrence of `key`: bump its bucket, or claim the first
    /// free bucket on the probe path.  Returns the bucket's new content.
    /// The bucket count must be a power of two and some bucket free or
    /// already carrying the key, so that the probe is known to stop.
    pub fn inc(&mut self, key: u32) -> (r: (u32, u32))
        requires
            old(self).0@.len() >= 1,
            exists|e: nat|
                e < 64 && old(self).0@.len() == vstd::arithmetic::power2::pow2(e),
            forall|i: int| 0 <= i < old(self).0@.len() ==> (#[trigger] old(self).0@[i]).1 < u32::MAX,
            exists|i: int|
                0 <= i < old(self).0@.len() && ((#[trigger] old(self).0@[i]).1 == 0 || old(
                    self,
                ).0@[i].0 == key),
        ensures
            exists|i: int|
                {
                    &&& 0 <= i < old(self).0@.len()
                    &&& (#[trigger] old(self).0@[i]).1 == 0 || old(self).0@[i].0 == key
                    &&& r == (
                    key,
                    if old(self).0@[i].0 == key && old(self).0@[i].1 > 0 {
                        (old(self).0@[i].1 + 1) as u32
                    } else {
                        1u32
                    },
                    )
                    &&& final(self).0@ == old(self).0@.update(i, r)
                },
    {
        let ghost v0 = self.0@;
        let len = self.0.len();
        let len64: u64 = len as u64;
        let mask64: u64 = len64 - 1;
        let hashed: u64 = hash_u32(key) as u64;
        let ghost e = choose|e: nat| e < 64 && v0.len() == vstd::arithmetic::power2::pow2(e);
        proof {
            vstd::arithmetic::power2::lemma_pow2_pos(e);
            assert(mask64 as nat == vstd::bits::low_bits_mask(e));
        }
        let start64: u64 = hashed & mask64;
        proof {
            vstd::bits::lemma_u64_low_bits_mask_is_mod(hashed, e);
            vstd::arithmetic::div_mod::lemma_mod_bound(hashed as int, len as int);
            vstd::arithmetic::div_mod::lemma_small_mod(
                (hashed as int % (len as int)) as nat,
                len as nat,
            );
        }
        let mut t: usize = 0;
        let mut kidx: u64 = start64;
        loop
            invariant
                self.0@ == v0,
                v0.len() == len,
                1 <= len,
                len64 == len as u64,
                mask64 as int == len64 as int - 1,
                e < 64 && v0.len() == vstd::arithmetic::power2::pow2(e),
                mask64 as nat == vstd::bits::low_bits_mask(e),
                start64 < len64,
                t < len,
                kidx as int == (start64 as int + t as int) % (len as int),
                forall|i: int| 0 <= i < v0.len() ==> (#[trigger] v0[i]).1 < u32::MAX,
                exists|i: int| 0 <= i < v0.len() && ((#[trigger] v0[i]).1 == 0 || v0[i].0 == key),
                forall|tt: int|
                    0 <= tt < t ==> (#[trigger] v0[(start64 as int + tt) % (len as int)]).1 > 0
                        && v0[(start64 as int + tt) % (len as int)].0 != key,
            ensures
                self.0@ == v0,
                (kidx as int) < v0.len(),
                v0[kidx as int].1 == 0 || v0[kidx as int].0 == key,
            decreases len - t,
        {
            proof {
                vstd::arithmetic::div_mod::lemma_mod_bound(
                    start64 as int + t as int,
                    len as int,
                );
            }
            if self.0[kidx as usize].1 == 0 || self.0[kidx as usize].0 == key {
                break ;
            }
            proof {
                assert forall|tt: int|
                    0 <= tt < t + 1 implies (#[trigger] v0[(start64 as int + tt) % (
                len as int)]).1 > 0 && v0[(start64 as int + tt) % (len as int)].0 != key by {
                    if tt == t {
                        assert((start64 as int + tt) % (len as int) == kidx as int);
                    }
                }
                if t + 1 == len {
                    // the witness bucket lies on the probe path within the
                    // first `len` steps, so it would have been met already
                    let i = choose|i: int|
                        0 <= i < v0.len() && ((#[trigger] v0[i]).1 == 0 || v0[i].0 == key);
                    let tw = (i + len - start64 as int) % (len as int);
                    vstd::arithmetic::div_mod::lemma_mod_bound(
                        i + len - start64 as int,
                        len as int,
                    );
                    vstd::arithmetic::div_mod::lemma_add_mod_noop_right(
                        start64 as int,
                        i + len - start64 as int,
                        len as int,
                    );
                    vstd::arithmetic::div_mod::lemma_mod_add_multiples_vanish(i, len as int);
                    vstd::arithmetic::div_mod::lemma_small_mod(i as nat, len as nat);
                    assert((start64 as int + tw) % (len as int) == i);
                    assert(v0[(start64 as int + tw) % (len as int)].1 > 0 && v0[(start64 as int
                        + tw) % (len as int)].0 != key);
                    assert(false);
                }
            }
            t = t + 1;
            let knext: u64 = (kidx + 1) & mask64;
            proof {
                vstd::bits::lemma_u64_low_bits_mask_is_mod((kidx + 1) as u64, e);
                vstd::arithmetic::div_mod::lemma_add_mod_noop_right(
                    1,
                    start64 as int + t as int - 1,
                    len as int,
                );
            }
            kidx = knext;
        }
        let kx = kidx as usize;
        let bucket = self.0[kx];
        let r: (u32, u32);
        if bucket.1 > 0 {
            r = (key, bucket.1 + 1);
        } else {
            r = (key, 1);
        }
        self.0.set(kx, r);
        r
    }
}

} // verus!
