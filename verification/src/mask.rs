//! Sets of bytes: which children a trie node has.

use vstd::prelude::*;

verus! {

/// A set of bytes as 256 bits, byte `b` at bit `b % 64` of word `b / 64`.
#[derive(Clone, Copy)]
pub struct ByteMask(pub [u64; 4]);

/// Bit `j` of `word` is set.
pub open spec fn bit_of(word: u64, j: u64) -> bool {
    (word >> j) & 1u64 == 1u64
}

impl ByteMask {
    /// Byte `b` is in the set.
    pub open spec fn has(self, b: u8) -> bool {
        bit_of(self.0@[(b / 64) as int], (b % 64) as u64)
    }
}

impl View for ByteMask {
    type V = Set<u8>;

    open spec fn view(&self) -> Set<u8> {
        Set::new(|b: u8| self.has(b))
    }
}

/// The least set bit of `word` at or above bit `from`.
fn first_bit(word: u64, from: u8) -> (r: Option<u8>)
    requires
        from < 64,
    ensures
        match r {
            Some(j) => from <= j < 64 && bit_of(word, j as u64) && forall|i: u64|
                from <= i < j ==> !#[trigger] bit_of(word, i),
            None => forall|i: u64| from <= i < 64 ==> !#[trigger] bit_of(word, i),
        },
{
    broadcast use vstd::std_specs::bits::axiom_u64_trailing_zeros;

    let sh = from as u64;
    let m = word & (0xFFFF_FFFF_FFFF_FFFFu64 << sh);
    proof {
        assert forall|i: u64| i < 64 implies #[trigger] bit_of(m, i) == (from <= i && bit_of(
            word,
            i,
        )) by {
            assert(((word & (0xFFFF_FFFF_FFFF_FFFFu64 << sh)) >> i) & 1u64 == (if sh <= i {
                (word >> i) & 1u64
            } else {
                0u64
            })) by (bit_vector)
                requires
                    sh < 64,
                    i < 64,
            ;
        }
    }
    let z = m.trailing_zeros();
    if z == 64 {
        proof {
            assert forall|i: u64| from <= i < 64 implies !#[trigger] bit_of(word, i) by {
                assert(!bit_of(m, i)) by {
                    assert((0u64 >> i) & 1u64 == 0u64) by (bit_vector);
                }
            }
        }
        None
    } else {
        proof {
            assert(bit_of(m, z as u64));
            assert forall|i: u64| from <= i < z implies !#[trigger] bit_of(word, i) by {
                assert((m >> i) & 1u64 == 0u64);
                assert(!bit_of(m, i));
            }
        }
        Some(z as u8)
    }
}

impl ByteMask {
    /// The set with no byte in it.
    pub fn empty() -> (m: ByteMask)
        ensures
            m@ == Set::<u8>::empty(),
    {
        let m = ByteMask([0, 0, 0, 0]);
        proof {
            assert forall|b: u8| !m.has(b) by {
                let j = (b % 64) as u64;
                assert((0u64 >> j) & 1u64 == 0u64) by (bit_vector);
            }
            assert(m@ =~= Set::<u8>::empty());
        }
        m
    }

    /// Put `b` into the set.
    pub fn set_bit(&mut self, b: u8)
        ensures
            final(self)@ == old(self)@.insert(b),
    {
        let w = (b / 64) as usize;
        let j = (b % 64) as u64;
        let ghost before = *self;
        let old_word = self.0[w];
        let new_word = old_word | (1u64 << j);
        self.0[w] = new_word;
        proof {
            let after = *self;
            assert forall|c: u8| #[trigger] after@.contains(c) == before@.insert(b).contains(c) by {
                assert(after@.contains(c) == after.has(c));
                assert(before@.contains(c) == before.has(c));
                let i = (c % 64) as u64;
                if c / 64 == b / 64 {
                    assert(((old_word | (1u64 << j)) >> i) & 1u64 == (if i == j {
                        1u64
                    } else {
                        (old_word >> i) & 1u64
                    })) by (bit_vector)
                        requires
                            i < 64,
                            j < 64,
                    ;
                }
            }
            assert(after@ =~= before@.insert(b));
        }
    }

    /// The least byte of the set strictly above `k`.
    pub fn next_bit(&self, k: u8) -> (r: Option<u8>)
        ensures
            match r {
                Some(b) => k < b && self@.contains(b) && forall|c: u8|
                    k < c < b ==> !#[trigger] self@.contains(c),
                None => forall|c: u8| k < c ==> !#[trigger] self@.contains(c),
            },
    {
        if k == 255 {
            return None;
        }
        least_ge(self, k + 1)
    }
}

/// Whether byte `b` is in the mask.
pub fn has_bit(mask: &ByteMask, b: u8) -> (r: bool)
    ensures
        r == mask@.contains(b),
{
    let w = (b / 64) as usize;
    (mask.0[w] >> ((b % 64) as u64)) & 1 == 1
}

/// The least byte present in `mask` that is at least `k`, or `None` if every byte present is below
/// `k`. This is the per-byte leapfrog seek on the children of a trie node.
pub fn least_ge(mask: &ByteMask, k: u8) -> (r: Option<u8>)
    ensures
        match r {
            Some(b) => k <= b && mask@.contains(b) && forall|c: u8|
                k <= c < b ==> !#[trigger] mask@.contains(c),
            None => forall|c: u8| k <= c ==> !#[trigger] mask@.contains(c),
        },
        r is None ==> mask@.subset_of(Set::new(|c: u8| c < k)),
{
    let mut w: u8 = k / 64;
    let mut from: u8 = k % 64;
    while w < 4
        invariant
            w <= 4,
            from < 64,
            k <= 64 * w + from,
            w == k / 64 ==> from == k % 64,
            w != k / 64 ==> from == 0,
            forall|c: u8| k <= c < 64 * w + from ==> !#[trigger] mask@.contains(c),
        decreases 4 - w,
    {
        if let Some(j) = first_bit(mask.0[w as usize], from) {
            let b = 64 * w + j;
            proof {
                assert forall|c: u8| k <= c < b implies !#[trigger] mask@.contains(c) by {
                    if c >= 64 * w + from {
                        assert(c / 64 == w);
                        assert(!bit_of(mask.0@[w as int], (c % 64) as u64));
                    }
                }
            }
            return Some(b);
        }
        proof {
            assert forall|c: u8| k <= c < 64 * (w + 1) implies !#[trigger] mask@.contains(c) by {
                if c >= 64 * w + from {
                    assert(c / 64 == w);
                    assert(!bit_of(mask.0@[w as int], (c % 64) as u64));
                }
            }
        }
        w += 1;
        from = 0;
    }
    None
}

} // verus!
