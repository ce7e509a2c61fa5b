//! A ring of slots keyed by sequence number modulo the size of the space.

use vstd::prelude::*;
use crate::sequence::{NetworkSeq, SEQ_COUNT, SEQ_OUT_OF_BOUNDS};

verus! {

broadcast use crate::sequence::lemma_seq_in_space;

/// A type whose values can fill a freshly allocated run of slots.
pub trait DefaultArray: Sized {
    /// What holds of a freshly made value.
    spec fn fresh(&self) -> bool;

    /// `n` fresh values.
    fn default_array(n: usize) -> (r: Vec<Self>)
        ensures
            r.len() == n,
            forall|i: int| 0 <= i < n ==> (#[trigger] r@[i]).fresh(),
    ;
}

/// `SEQ_COUNT` slots, each with the sequence number stored in it and a
/// payload. A slot holds sequence `s` exactly when its stored sequence number
/// is `s`; storing overwrites the slot and leaves its payload for reuse.
pub struct SequenceBuffer<T: DefaultArray> {
    sequences: Vec<u16>,
    data: Vec<T>,
}

impl<T: DefaultArray> SequenceBuffer<T> {
    /// The sequence number stored in each slot (`SEQ_OUT_OF_BOUNDS` when
    /// none is).
    pub closed spec fn stamps(&self) -> Seq<u16> {
        self.sequences@
    }

    /// The payload of each slot.
    pub closed spec fn items(&self) -> Seq<T> {
        self.data@
    }

    pub open spec fn wf(&self) -> bool {
        &&& self.stamps().len() == SEQ_COUNT
        &&& self.items().len() == SEQ_COUNT
    }

    /// The slot of `s` holds `s`.
    pub open spec fn has(&self, s: int) -> bool {
        self.stamps()[s % (SEQ_COUNT as int)] as int == s
    }

    /// The payload in the slot of `s`.
    pub open spec fn item(&self, s: int) -> T {
        self.items()[s % (SEQ_COUNT as int)]
    }

    /// A buffer in which no slot holds a sequence number.
    pub fn new() -> (r: SequenceBuffer<T>)
        ensures
            r.wf(),
            forall|i: int| 0 <= i < SEQ_COUNT ==> r.stamps()[i] == SEQ_OUT_OF_BOUNDS,
            forall|i: int| 0 <= i < SEQ_COUNT ==> (#[trigger] r.items()[i]).fresh(),
    {
        let n = SEQ_COUNT as usize;
        let sequences: Vec<u16> = vec![SEQ_OUT_OF_BOUNDS; n];
        let data = T::default_array(n);
        SequenceBuffer { sequences, data }
    }

    /// Empties every slot; the payloads stay for reuse.
    pub fn reset(&mut self)
        requires
            old(self).wf(),
        ensures
            final(self).wf(),
            forall|i: int| 0 <= i < SEQ_COUNT ==> final(self).stamps()[i] == SEQ_OUT_OF_BOUNDS,
            final(self).items() == old(self).items(),
    {
        let n = self.sequences.len();
        let mut i: usize = 0;
        while i < n
            invariant
                n == SEQ_COUNT,
                self.sequences@.len() == n,
                self.data@ == old(self).items(),
                i <= n,
                forall|j: int| 0 <= j < i ==> self.sequences@[j] == SEQ_OUT_OF_BOUNDS,
            decreases n - i,
        {
            self.sequences.set(i, SEQ_OUT_OF_BOUNDS);
            i = i + 1;
        }
    }

    pub fn contains(&self, seq: NetworkSeq) -> (r: bool)
        requires
            self.wf(),
        ensures
            r == self.has(seq@),
    {
        self.sequences[seq.index()] == seq.unwrap()
    }

    /// Empties the slot of `seq`.
    pub fn mark_invalid(&mut self, seq: NetworkSeq)
        requires
            old(self).wf(),
        ensures
            final(self).wf(),
            final(self).stamps() == old(self).stamps().update(seq@, SEQ_OUT_OF_BOUNDS),
            final(self).items() == old(self).items(),
    {
        self.sequences.set(seq.index(), SEQ_OUT_OF_BOUNDS);
    }

    /// The payload stored under `seq`, if its slot holds it.
    pub fn get(&self, seq: NetworkSeq) -> (r: Option<&T>)
        requires
            self.wf(),
        ensures
            match r {
                Some(x) => self.has(seq@) && *x == self.item(seq@),
                None => !self.has(seq@),
            },
    {
        let index = seq.index();
        if self.sequences[index] == seq.unwrap() {
            Some(&self.data[index])
        } else {
            None
        }
    }

    /// The payload stored under `seq`, for change, if its slot holds it.
    pub fn get_mut(&mut self, seq: NetworkSeq) -> (r: Option<&mut T>)
        requires
            old(self).wf(),
        ensures
            final(self).wf(),
            final(self).stamps() == old(self).stamps(),
            match r {
                Some(x) => {
                    &&& old(self).has(seq@)
                    &&& *x == old(self).item(seq@)
                    &&& final(self).items() == old(self).items().update(seq@, *final(x))
                },
                None => !old(self).has(seq@) && final(self).items() == old(self).items(),
            },
    {
        let index = seq.index();
        if self.sequences[index] == seq.unwrap() {
            Some(&mut self.data[index])
        } else {
            None
        }
    }

    /// Makes the slot of `seq` hold `seq` and hands out its payload, which
    /// is whatever the slot held before.
    pub fn mark_valid(&mut self, seq: NetworkSeq) -> (r: &mut T)
        requires
            old(self).wf(),
        ensures
            final(self).wf(),
            final(self).stamps() == old(self).stamps().update(seq@, seq@ as u16),
            *r == old(self).item(seq@),
            final(self).items() == old(self).items().update(seq@, *final(r)),
    {
        let index = seq.index();
        self.sequences.set(index, seq.unwrap());
        &mut self.data[index]
    }
}

/// After `mark_invalid(s)` the buffer does not hold `s`; after
/// `mark_valid(s)` it holds `s`, and no other sequence number of the same
/// slot.
pub proof fn lemma_sequence_buffer_sound<T: DefaultArray>(
    before: SequenceBuffer<T>,
    invalidated: SequenceBuffer<T>,
    validated: SequenceBuffer<T>,
    s: NetworkSeq,
    other: int,
)
    requires
        before.wf(),
        invalidated.stamps() == before.stamps().update(s@, SEQ_OUT_OF_BOUNDS),
        validated.stamps() == before.stamps().update(s@, s@ as u16),
        other != s@,
        other % (SEQ_COUNT as int) == s@,
    ensures
        !invalidated.has(s@),
        validated.has(s@),
        !validated.has(other),
{
}

} // verus!
