use vstd::prelude::*;

verus! {

/// Bit `bit` (0..64) of `word`.
pub open spec fn word_bit(word: u64, bit: u64) -> bool {
    (word >> bit) & 1u64 == 1u64
}

/// `N * 64` flags packed into `N` words, flat and `Copy`. ZII: the default
/// is all zeroes, no bits set, and that is a fully valid value.
#[derive(Clone, Copy, PartialEq, Eq, Debug)]
pub struct BitSet<const N: usize> {
    words: [u64; N],
}

impl<const N: usize> View for BitSet<N> {
    type V = Seq<bool>;

    /// One flag per index, `N * 64` of them.
    closed spec fn view(&self) -> Seq<bool> {
        Seq::new((N * 64) as nat, |i: int| word_bit(self.words@[i / 64], (i % 64) as u64))
    }
}

proof fn lemma_set_bit(word: u64, bit: u64, other: u64)
    requires
        bit < 64,
        other < 64,
    ensures
        word_bit(word | (1u64 << bit), bit),
        !word_bit(word & !(1u64 << bit), bit),
        other != bit ==> word_bit(word | (1u64 << bit), other) == word_bit(word, other),
        other != bit ==> word_bit(word & !(1u64 << bit), other) == word_bit(word, other),
{
    assert(word_bit(word | (1u64 << bit), bit)) by (bit_vector)
        requires bit < 64u64;
    assert(!word_bit(word & !(1u64 << bit), bit)) by (bit_vector)
        requires bit < 64u64;
    assert(other != bit ==> word_bit(word | (1u64 << bit), other) == word_bit(word, other))
        by (bit_vector)
        requires bit < 64u64, other < 64u64;
    assert(other != bit ==> word_bit(word & !(1u64 << bit), other) == word_bit(word, other))
        by (bit_vector)
        requires bit < 64u64, other < 64u64;
}

proof fn lemma_zero_word(bit: u64)
    requires
        bit < 64,
    ensures
        !word_bit(0u64, bit),
{
    assert(!word_bit(0u64, bit)) by (bit_vector)
        requires bit < 64u64;
}

impl<const N: usize> Default for BitSet<N> {
    fn default() -> (s: Self)
        ensures
            forall|i: int| 0 <= i < s@.len() ==> !s@[i],
    {
        let s = BitSet { words: [0u64; N] };
        assert forall|i: int| 0 <= i < s@.len() implies !s@[i] by {
            lemma_zero_word((i % 64) as u64);
        }
        s
    }
}

impl<const N: usize> BitSet<N> {
    /// The view has exactly one flag per index below the capacity.
    pub proof fn lemma_view_len(&self)
        ensures
            self@.len() == N * 64,
    {
    }

    /// How many bits fit; indices must stay below this.
    pub fn capacity() -> (c: usize)
        requires
            N * 64 <= usize::MAX,
        ensures
            c == N * 64,
    {
        N * 64
    }

    /// The flag at `index`.
    pub fn get(&self, index: usize) -> (b: bool)
        requires
            index < N * 64,
        ensures
            b == self@[index as int],
    {
        (self.words[index / 64] >> ((index % 64) as u64)) & 1 == 1
    }

    /// Raise or clear the flag at `index`; every other flag keeps its value.
    pub fn set(&mut self, index: usize, value: bool)
        requires
            index < N * 64,
        ensures
            final(self)@ == old(self)@.update(index as int, value),
    {
        let bit: u64 = 1u64 << ((index % 64) as u64);
        let w = index / 64;
        let old_word = self.words[w];
        if value {
            self.words[w] = old_word | bit;
        } else {
            self.words[w] = old_word & !bit;
        }
        proof {
            assert forall|i: int| 0 <= i < (N * 64) implies #[trigger] self@[i] == old(self)@.update(
                index as int,
                value,
            )[i] by {
                lemma_set_bit(old_word, (index % 64) as u64, (i % 64) as u64);
            }
        }
        assert(self@ =~= old(self)@.update(index as int, value));
    }
}

} // verus!
