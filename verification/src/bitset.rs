//! A fixed-capacity set of small integers, stored as a bitmask.

use vstd::prelude::*;

verus! {

/// A set of `N * 64` bits that can be individually addressed.
pub struct BitSet64<const N: usize> {
    buf: Vec<u64>,
}

impl<const N: usize> BitSet64<N> {
    /// The backing buffer has exactly `N` words.
    pub closed spec fn wf(self) -> bool {
        self.buf.len() == N
    }

    /// Whether the bit for `value` is set.
    pub closed spec fn spec_contains(self, value: u32) -> bool {
        self.buf@[value as int / 64] & (1u64 << (value as u64 % 64)) != 0
    }

    /// Creates a `BitSet64` with all zeroes.
    pub fn new() -> (r: Self)
        ensures
            r.wf(),
            forall|v: u32| (v as int) < 64 * (N as int) ==> !r.spec_contains(v),
    {
        let mut buf: Vec<u64> = Vec::new();
        let mut i: usize = 0;
        while i < N
            invariant
                i <= N,
                buf.len() == i,
                forall|k: int| 0 <= k < i ==> buf[k] == 0u64,
            decreases N - i,
        {
            buf.push(0);
            i += 1;
        }
        let r = Self { buf };
        proof {
            assert forall|v: u32| (v as int) < 64 * (N as int) implies !r.spec_contains(v) by {
                assert(0 <= v as int / 64 < N);
                assert(r.buf@[v as int / 64] == 0u64);
                assert(0u64 & (1u64 << (v as u64 % 64)) == 0u64) by (bit_vector);
            }
        }
        r
    }

    /// Set the bit at the index corresponding to `value` to 1.
    pub fn insert(&mut self, value: u32)
        requires
            old(self).wf(),
            (value as int) < 64 * (N as int),
        ensures
            final(self).wf(),
            forall|w: u32| (w as int) < 64 * (N as int) ==> (final(self).spec_contains(w)
                <==> (w == value || old(self).spec_contains(w))),
    {
        let idx = (value / 64) as usize;
        let off = (value % 64) as u64;
        assert(idx < N);
        self.buf[idx] = self.buf[idx] | (1u64 << off);
        proof {
            let prev = *old(self);
            assert forall|w: u32| (w as int) < 64 * (N as int) implies (
            #[trigger] self.spec_contains(w) <==> (w == value || prev.spec_contains(w))) by {
                lemma_same_word_same_value(w, value);
                if w as int / 64 == value as int / 64 {
                    let x = prev.buf@[value as int / 64];
                    let a = value as u64 % 64;
                    let b = w as u64 % 64;
                    assert(a < 64 && b < 64 ==> (((x | (1u64 << a)) & (1u64 << b) != 0) <==> (b
                        == a || (x & (1u64 << b) != 0)))) by (bit_vector);
                }
            }
        }
    }

    /// Set the bit at the index corresponding to `value` to 0.
    pub fn remove(&mut self, value: u32)
        requires
            old(self).wf(),
            (value as int) < 64 * (N as int),
        ensures
            final(self).wf(),
            forall|w: u32| (w as int) < 64 * (N as int) ==> (final(self).spec_contains(w)
                <==> (w != value && old(self).spec_contains(w))),
    {
        let idx = (value / 64) as usize;
        let off = (value % 64) as u64;
        assert(idx < N);
        self.buf[idx] = self.buf[idx] & !(1u64 << off);
        proof {
            let prev = *old(self);
            assert forall|w: u32| (w as int) < 64 * (N as int) implies (
            #[trigger] self.spec_contains(w) <==> (w != value && prev.spec_contains(w))) by {
                lemma_same_word_same_value(w, value);
                if w as int / 64 == value as int / 64 {
                    let x = prev.buf@[value as int / 64];
                    let a = value as u64 % 64;
                    let b = w as u64 % 64;
                    assert(a < 64 && b < 64 ==> (((x & !(1u64 << a)) & (1u64 << b) != 0) <==> (b
                        != a && (x & (1u64 << b) != 0)))) by (bit_vector);
                }
            }
        }
    }

    /// Query whether the bit corresponding to `value` is 1.
    pub fn contains(&self, value: u32) -> (r: bool)
        requires
            self.wf(),
            (value as int) < 64 * (N as int),
        ensures
            r == self.spec_contains(value),
    {
        let idx = (value / 64) as usize;
        let off = (value % 64) as u64;
        assert(idx < N);
        (self.buf[idx] & (1u64 << off)) != 0
    }
}

/// Two bit indices agree exactly when their word and offset both agree.
proof fn lemma_same_word_same_value(w: u32, value: u32)
    ensures
        w == value <==> (w as int / 64 == value as int / 64 && w as u64 % 64 == value as u64
            % 64),
{
    assert(w as int == 64 * (w as int / 64) + (w as int % 64)) by (nonlinear_arith);
    assert(value as int == 64 * (value as int / 64) + (value as int % 64)) by (nonlinear_arith);
}

} // verus!
