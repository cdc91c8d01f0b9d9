//! A growable vector of booleans, packed 64 to a storage word.

use vstd::arithmetic::power2::pow2;
use vstd::prelude::*;

verus! {

/// Number of logical bits held by one storage word.
pub const BITS: usize = 64;

/// Number of low index bits that select the position inside a word.
pub const SHIFT_WIDTH: usize = 6;

/// Whether bit `pos` of `word` is set, counting from the least significant bit.
pub open spec fn bit_is_set(word: u64, pos: u64) -> bool {
    (word >> pos) & 1 == 1
}

/// The word in which exactly the bit for logical index `idx` is set.
pub open spec fn bit_mask(idx: usize) -> u64 {
    1u64 << ((idx % BITS) as u64)
}

/// Whether the bit for logical index `idx` is set in `words`: the bit at
/// position `idx % BITS` of word `idx / BITS`.
pub open spec fn bit_at(words: Seq<u64>, idx: int) -> bool {
    bit_is_set(words[idx / (BITS as int)], (idx % (BITS as int)) as u64)
}

/// Number of words needed to hold `len` logical bits.
pub open spec fn words_needed(len: nat) -> nat {
    (len + (BITS - 1) as nat) / (BITS as nat)
}

/// The mask of an index is the power of two of its position inside the word.
pub proof fn lemma_bit_mask_is_pow2(idx: usize)
    ensures
        bit_mask(idx) == pow2((idx % BITS) as nat),
{
    let p: u64 = (idx % BITS) as u64;
    vstd::bits::lemma_u64_pow2_no_overflow(p as nat);
    assert(1u64 * pow2(p as nat) == pow2(p as nat));
    vstd::bits::lemma_u64_shl_is_mul(1u64, p);
}

/// Setting the bit of a mask in a word sets that bit and leaves the others.
proof fn lemma_or_mask(word: u64, p: u64, q: u64)
    by (bit_vector)
    requires
        p < 64,
        q < 64,
    ensures
        bit_is_set(word | (1u64 << p), q) == (bit_is_set(word, q) || q == p),
{
}

/// Testing a word against a mask reads the bit of that mask.
proof fn lemma_and_mask(word: u64, p: u64)
    by (bit_vector)
    requires
        p < 64,
    ensures
        (word & (1u64 << p) != 0) == bit_is_set(word, p),
{
}

/// No bit is set in the zero word.
proof fn lemma_zero_word(q: u64)
    by (bit_vector)
    requires
        q < 64,
    ensures
        !bit_is_set(0u64, q),
{
}

/// Adding a zero word to the storage sets no bit: where no bit of `words` is
/// set from index `from` on, none is in `grown` either.
proof fn lemma_grown_tail_clear(words: Seq<u64>, grown: Seq<u64>, from: nat)
    requires
        forall|i: int| from <= i < BITS * words.len() ==> !#[trigger] bit_at(words, i),
        grown == words || grown == words.push(0),
    ensures
        forall|i: int| from <= i < BITS * grown.len() ==> !#[trigger] bit_at(grown, i),
{
    assert forall|i: int| from <= i < BITS * grown.len() implies !#[trigger] bit_at(grown, i) by {
        if i / 64 < words.len() {
            assert(!bit_at(words, i));
        } else {
            lemma_zero_word((i % 64) as u64);
        }
    }
}

/// An append-only vector of booleans that stores 64 of them per `u64` word.
pub struct BitVec {
    data: Vec<u64>,
    length: usize,
}

impl View for BitVec {
    type V = Seq<bool>;

    /// The booleans held, in the order in which they were pushed.
    open spec fn view(&self) -> Seq<bool> {
        Seq::new(self.count(), |i: int| bit_at(self.words(), i))
    }
}

impl BitVec {
    /// The storage words.
    pub closed spec fn words(&self) -> Seq<u64> {
        self.data@
    }

    /// The number of booleans pushed so far.
    pub closed spec fn count(&self) -> nat {
        self.length as nat
    }

    /// The storage holds exactly the words that the length calls for, and no
    /// bit is set at or beyond the length.
    pub open spec fn wf(&self) -> bool {
        &&& self.words().len() == words_needed(self.count())
        &&& forall|i: int|
            self.count() <= i < BITS * self.words().len() ==> !#[trigger] bit_at(self.words(), i)
    }

    /// Index of the storage word that holds logical index `idx`.
    #[inline(always)]
    pub fn idx_to_pos(idx: usize) -> (pos: usize)
        ensures
            pos == idx / BITS,
    {
        assert(idx >> 6 == idx / 64) by (bit_vector);
        idx >> SHIFT_WIDTH
    }

    /// The word with only the bit of logical index `idx` set.
    #[inline(always)]
    pub fn get_mask(idx: usize) -> (mask: u64)
        ensures
            mask == bit_mask(idx),
            mask == pow2((idx % BITS) as nat),
    {
        assert(idx & 63 == idx % 64) by (bit_vector);
        assert(idx & 63 < 64) by (bit_vector);
        proof {
            lemma_bit_mask_is_pow2(idx);
        }
        (1 as u64) << (idx & (BITS - 1))
    }

    /// An empty vector with room reserved for `cap` booleans. The reservation
    /// saves reallocations and changes nothing else.
    pub fn with_capacity(cap: usize) -> (v: Self)
        ensures
            v.wf(),
            v@ == Seq::<bool>::empty(),
    {
        let words: usize = if cap <= usize::MAX - (BITS - 1) {
            Self::idx_to_pos(cap + (BITS - 1))
        } else {
            Self::idx_to_pos(cap) + 1
        };
        assert(words == words_needed(cap as nat));
        Self { data: Vec::with_capacity(words), length: 0 }
    }

    /// Appends `true`: opens a zero word where the last one is full, then
    /// sets the bit of the new index.
    pub fn push_true(&mut self)
        requires
            old(self).wf(),
            old(self)@.len() < usize::MAX,
        ensures
            final(self).wf(),
            final(self)@ == old(self)@.push(true),
    {
        let idx: usize = Self::idx_to_pos(self.length);

        if idx >= self.data.len() {
            self.data.push(0);
        }
        let ghost grown = self.data@;
        proof {
            lemma_grown_tail_clear(old(self).words(), grown, old(self).count());
        }

        let mask: u64 = Self::get_mask(self.length);
        self.data[idx] |= mask;
        self.length += 1;

        proof {
            let p: u64 = (old(self).length % 64) as u64;
            assert forall|i: int| 0 <= i < 64 * grown.len() implies #[trigger] bit_at(
                self.words(),
                i,
            ) == (bit_at(grown, i) || i == old(self).length) by {
                if i / 64 == idx {
                    lemma_or_mask(grown[idx as int], p, (i % 64) as u64);
                }
            }
            assert(self@ =~= old(self)@.push(true));
        }
    }

    /// Appends `false`: opens a zero word where the last one is full, and
    /// sets no bit.
    pub fn push_false(&mut self)
        requires
            old(self).wf(),
            old(self)@.len() < usize::MAX,
        ensures
            final(self).wf(),
            final(self)@ == old(self)@.push(false),
    {
        let idx: usize = Self::idx_to_pos(self.length);

        if idx >= self.data.len() {
            self.data.push(0);
        }
        let ghost grown = self.data@;
        proof {
            lemma_grown_tail_clear(old(self).words(), grown, old(self).count());
        }

        self.length += 1;

        proof {
            assert(self@ =~= old(self)@.push(false));
        }
    }

    /// Appends `val`.
    pub fn push(&mut self, val: bool)
        requires
            old(self).wf(),
            old(self)@.len() < usize::MAX,
        ensures
            final(self).wf(),
            final(self)@ == old(self)@.push(val),
    {
        if val {
            self.push_true();
        } else {
            self.push_false();
        }
    }

    /// The number of booleans held.
    pub fn len(&self) -> (n: usize)
        ensures
            n == self@.len(),
    {
        self.length
    }

    /// The boolean at index `idx`, which must be below the length.
    pub fn get(&self, idx: usize) -> (b: bool)
        requires
            self.wf(),
            idx < self@.len(),
        ensures
            b == self@[idx as int],
    {
        let pos: usize = Self::idx_to_pos(idx);
        let mask: u64 = Self::get_mask(idx);
        proof {
            lemma_and_mask(self.data@[pos as int], (idx % 64) as u64);
        }
        (self.data[pos] & mask) != 0
    }
}

/// A push changes no element already held and puts its value at the end:
/// where `after` holds what `before` held with `val` pushed, reading index
/// `i` gives `val` at the old length and the old element below it.
pub proof fn lemma_get_after_push(before: BitVec, after: BitVec, val: bool, i: int)
    requires
        after@ == before@.push(val),
        0 <= i <= before@.len(),
    ensures
        after@.len() == before@.len() + 1,
        after@[i] == (if i == before@.len() {
            val
        } else {
            before@[i]
        }),
{
}

/// Any run of pushes reads back as pushed. Let `states[0]` be empty and let
/// each later state hold what the one before held with the next element of
/// `pushed` pushed. Then after `n` pushes the vector holds the first `n`
/// elements of `pushed`, each at the index at which it was pushed.
pub proof fn lemma_pushes_read_back(states: Seq<BitVec>, pushed: Seq<bool>, n: int)
    requires
        states.len() == pushed.len() + 1,
        states[0]@ == Seq::<bool>::empty(),
        forall|k: int|
            0 <= k < pushed.len() ==> states[k + 1]@ == states[k]@.push(#[trigger] pushed[k]),
        0 <= n <= pushed.len(),
    ensures
        states[n]@ == pushed.take(n),
        forall|i: int| 0 <= i < n ==> states[n]@[i] == pushed[i],
    decreases n,
{
    if n > 0 {
        lemma_pushes_read_back(states, pushed, n - 1);
        assert(pushed.take(n) =~= pushed.take(n - 1).push(pushed[n - 1]));
    }
}

} // verus!
