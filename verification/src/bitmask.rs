//! A set of signals, one bit for each.

use vstd::prelude::*;

verus! {

/// One bit for each signal of a file.
pub struct BitMask {
    words: Vec<u64>,
    size: usize,
}

/// Bit `bit` of `word`.
pub open spec fn word_bit(word: u64, bit: u64) -> bool {
    (word >> bit) & 1 == 1
}

/// The number of `true` among the first `n` entries of `bits`.
pub open spec fn count_true(bits: Seq<bool>, n: int) -> nat
    decreases n,
{
    if n <= 0 {
        0
    } else if bits[n - 1] {
        count_true(bits, n - 1) + 1
    } else {
        count_true(bits, n - 1)
    }
}

/// Nothing is counted exactly when all entries are `false`.
pub proof fn lemma_count_zero(bits: Seq<bool>, n: int)
    requires
        n <= bits.len(),
    ensures
        count_true(bits, n) == 0 <==> forall|i: int| 0 <= i < n ==> !bits[i],
    decreases n,
{
    if n > 0 {
        lemma_count_zero(bits, n - 1);
    }
}

impl View for BitMask {
    type V = Seq<bool>;

    closed spec fn view(&self) -> Seq<bool> {
        Seq::new(self.size as nat, |i: int| word_bit(self.words@[i / 64], (i % 64) as u64))
    }
}

impl BitMask {
    #[verifier::type_invariant]
    spec fn wf(self) -> bool {
        self.words@.len() * 64 >= self.size
    }

    /// A mask for `size` signals that are all in it, or all not.
    pub fn repeat(value: bool, size: usize) -> (r: BitMask)
        ensures
            r@ == Seq::new(size as nat, |i: int| value),
    {
        let word: u64 = if value {
            u64::MAX
        } else {
            0
        };
        let count: usize = if size % 64 == 0 {
            size / 64
        } else {
            size / 64 + 1
        };
        let words: Vec<u64> = vec![word; count];
        let r = BitMask { words, size };
        proof {
            assert forall|i: int| 0 <= i < size implies r@[i] == value by {
                let bit: u64 = (i % 64) as u64;
                assert(words@[i / 64] == word);
                assert((u64::MAX >> bit) & 1 == 1) by (bit_vector)
                    requires
                        bit < 64,
                ;
                assert((0u64 >> bit) & 1 == 0) by (bit_vector);
            }
        }
        r
    }

    /// Puts signal `index` into the mask, or takes it out.
    pub fn set(&mut self, index: usize, value: bool)
        requires
            index < old(self)@.len(),
        ensures
            final(self)@ == old(self)@.update(index as int, value),
    {
        proof {
            use_type_invariant(&*self);
        }
        let block: usize = index / 64;
        let bit: u64 = (index % 64) as u64;
        let word: u64 = self.words[block];
        let new_word: u64 = if value {
            word | (1u64 << bit)
        } else {
            word & !(1u64 << bit)
        };
        let ghost before = self@;
        let ghost words_before = self.words@;
        self.words[block] = new_word;
        proof {
            assert forall|i: int| 0 <= i < before.len() implies self@[i] == before.update(
                index as int,
                value,
            )[i] by {
                let b: u64 = (i % 64) as u64;
                assert(before[i] == word_bit(words_before[i / 64], b));
                if i / 64 == block {
                    if value {
                        assert(((word | (1u64 << bit)) >> b) & 1 == (if b == bit {
                            1
                        } else {
                            (word >> b) & 1
                        })) by (bit_vector)
                            requires
                                b < 64,
                                bit < 64,
                        ;
                    } else {
                        assert(((word & !(1u64 << bit)) >> b) & 1 == (if b == bit {
                            0
                        } else {
                            (word >> b) & 1
                        })) by (bit_vector)
                            requires
                                b < 64,
                                bit < 64,
                        ;
                    }
                }
            }
            assert(self@ =~= before.update(index as int, value));
        }
    }

    /// Whether signal `index` is in the mask. No signal beyond the size is.
    pub fn is_set(&self, index: usize) -> (r: bool)
        ensures
            r == (index < self@.len() && self@[index as int]),
    {
        proof {
            use_type_invariant(&*self);
        }
        if index < self.size {
            let bit: u64 = (index % 64) as u64;
            (self.words[index / 64] >> bit) & 1 == 1
        } else {
            false
        }
    }

    /// The number of signals that the mask was made for.
    pub fn len(&self) -> (r: usize)
        ensures
            r == self@.len(),
    {
        self.size
    }

    /// How many signals are in the mask.
    pub fn count_ones(&self) -> (r: usize)
        ensures
            r == count_true(self@, self@.len() as int),
    {
        let n: usize = self.len();
        let mut count: usize = 0;
        let mut i: usize = 0;
        while i < n
            invariant
                i <= n,
                n == self@.len(),
                count <= i,
                count == count_true(self@, i as int),
            decreases n - i,
        {
            if self.is_set(i) {
                count = count + 1;
            }
            i = i + 1;
        }
        count
    }

    /// A second mask with the same signals.
    pub fn duplicate(&self) -> (r: BitMask)
        ensures
            r@ == self@,
    {
        proof {
            use_type_invariant(&*self);
        }
        let r = BitMask { words: self.words.clone(), size: self.size };
        assert(r.words@ =~= self.words@);
        r
    }
}

} // verus!
