//! A growable vector of optional unsigned integers: a presence bitmap beside
//! a plain vector of value slots.

use crate::bitvec::BitVec;
use vstd::prelude::*;

verus! {

/// What the value slot of an element holds: its value where it is present,
/// zero where it is absent.
pub open spec fn slot_value(val: Option<usize>) -> usize {
    match val {
        Some(x) => x,
        None => 0,
    }
}

/// An append-only vector of `Option<usize>`. Element `i` is present exactly
/// when bit `i` of `bitmap` is set, and its value is then `data[i]`.
pub struct ChunkedVecInt {
    pub bitmap: BitVec,
    pub data: Vec<usize>,
}

impl View for ChunkedVecInt {
    type V = Seq<Option<usize>>;

    /// The elements held, in the order in which they were appended.
    open spec fn view(&self) -> Seq<Option<usize>> {
        Seq::new(
            self.data@.len(),
            |i: int|
                if self.bitmap@[i] {
                    Some(self.data@[i])
                } else {
                    None
                },
        )
    }
}

impl ChunkedVecInt {
    /// The bitmap is well formed and has one bit for each value slot.
    pub open spec fn wf(&self) -> bool {
        &&& self.bitmap.wf()
        &&& self.bitmap@.len() == self.data@.len()
    }

    /// An empty vector.
    pub fn new() -> (v: Self)
        ensures
            v.wf(),
            v@ == Seq::<Option<usize>>::empty(),
    {
        Self { bitmap: BitVec::with_capacity(0), data: Vec::new() }
    }

    /// Appends `val`: a set bit and the value where it is present, a clear
    /// bit and a zero slot where it is absent.
    pub fn append(&mut self, val: Option<usize>)
        requires
            old(self).wf(),
        ensures
            final(self).wf(),
            final(self)@ == old(self)@.push(val),
            final(self).bitmap@ == old(self).bitmap@.push(val is Some),
            final(self).data@ == old(self).data@.push(slot_value(val)),
    {
        // The slot is stored first: a vector that took one more element had
        // fewer than `usize::MAX` before, which is what the bitmap asks for.
        if let Some(x) = val {
            self.data.push(x);
            assert(old(self).data@.len() < self.data.len());
            self.bitmap.push_true();
        } else {
            self.data.push(0);
            assert(old(self).data@.len() < self.data.len());
            self.bitmap.push_false();
        }
        proof {
            assert(self@ =~= old(self)@.push(val));
        }
    }

    /// The element at index `idx`, which must be below the length: a
    /// reference to its value where it is present.
    pub fn get(&self, idx: usize) -> (r: Option<&usize>)
        requires
            self.wf(),
            idx < self@.len(),
        ensures
            match self@[idx as int] {
                Some(x) => r == Some(&x),
                None => r is None,
            },
    {
        if self.bitmap.get(idx) {
            Some(&self.data[idx])
        } else {
            None
        }
    }
}

/// A well-formed vector has one presence bit for each value slot, and as
/// many elements as slots.
pub proof fn lemma_lengths_agree(v: ChunkedVecInt)
    requires
        v.wf(),
    ensures
        v.bitmap@.len() == v.data@.len(),
        v@.len() == v.data@.len(),
{
}

/// An append changes no element already held and puts its value at the end:
/// where `after` holds what `before` held with `val` appended, reading index
/// `i` gives `val` at the old length and the old element below it.
pub proof fn lemma_get_after_append(
    before: ChunkedVecInt,
    after: ChunkedVecInt,
    val: Option<usize>,
    i: int,
)
    requires
        after@ == before@.push(val),
        0 <= i <= before@.len(),
    ensures
        after@.len() == before@.len() + 1,
        after@[i] == (if i == before@.len() {
            val
        } else {
            before@[i]
        }),
{
}

/// Any run of appends reads back as appended. Let `states[0]` be empty and
/// let each later state hold what the one before held with the next element
/// of `appended` appended. Then after `n` appends the vector holds the first
/// `n` elements of `appended`: the value where one was given, nothing where
/// none was.
pub proof fn lemma_appends_read_back(
    states: Seq<ChunkedVecInt>,
    appended: Seq<Option<usize>>,
    n: int,
)
    requires
        states.len() == appended.len() + 1,
        states[0]@ == Seq::<Option<usize>>::empty(),
        forall|k: int|
            0 <= k < appended.len() ==> states[k + 1]@ == states[k]@.push(#[trigger] appended[k]),
        0 <= n <= appended.len(),
    ensures
        states[n]@ == appended.take(n),
        forall|i: int| 0 <= i < n ==> states[n]@[i] == appended[i],
    decreases n,
{
    if n > 0 {
        lemma_appends_read_back(states, appended, n - 1);
        assert(appended.take(n) =~= appended.take(n - 1).push(appended[n - 1]));
    }
}

} // verus!
