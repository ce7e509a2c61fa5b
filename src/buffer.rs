//! A fixed-capacity byte region with a cursor, holding one packet.

use vstd::prelude::*;
use crate::endian::{splice, Endian};

verus! {

/// A byte region of fixed capacity with a read/write cursor `index` and a
/// logical length: the whole capacity while writing, the received size while
/// reading.
#[derive(Debug)]
pub struct Buffer {
    data: Vec<u8>,
    end: usize,
    pub index: usize,
}

impl Buffer {
    /// The bytes of the whole region.
    pub closed spec fn bytes(&self) -> Seq<u8> {
        self.data@
    }

    /// The logical length.
    pub closed spec fn end(&self) -> nat {
        self.end as nat
    }

    /// The cursor.
    pub closed spec fn pos(&self) -> nat {
        self.index as nat
    }

    /// The cursor stays within the logical length, which stays within the
    /// region.
    pub open spec fn wf(&self) -> bool {
        self.pos() <= self.end() <= self.bytes().len()
    }

    /// The bytes up to the logical length.
    pub open spec fn content(&self) -> Seq<u8> {
        self.bytes().subrange(0, self.end() as int)
    }

    /// The bytes up to the cursor.
    pub open spec fn written(&self) -> Seq<u8> {
        self.bytes().subrange(0, self.pos() as int)
    }

    pub fn with_capacity(capacity: usize) -> (r: Buffer)
        ensures
            r.wf(),
            r.bytes() == Seq::new(capacity as nat, |i: int| 0u8),
            r.end() == capacity,
            r.pos() == 0,
    {
        let data: Vec<u8> = vec![0u8; capacity];
        let r = Buffer { data, end: capacity, index: 0 };
        assert(r.bytes() =~= Seq::new(capacity as nat, |i: int| 0u8));
        r
    }

    /// The capacity of the region.
    pub fn capacity(&self) -> (r: usize)
        ensures
            r == self.bytes().len(),
    {
        self.data.len()
    }

    /// Writes `value` at `at`, leaving the cursor where it is.
    pub fn write_at<T: Endian>(&mut self, value: T, at: usize)
        requires
            old(self).wf(),
            at + T::spec_size() <= old(self).end(),
        ensures
            final(self).wf(),
            final(self).bytes() == splice(old(self).bytes(), at as int, value.spec_to_le()),
            final(self).end() == old(self).end(),
            final(self).pos() == old(self).pos(),
    {
        proof {
            value.lemma_le_round_trip();
        }
        value.store_le(&mut self.data, at);
    }

    /// Writes `value` at the cursor and moves the cursor past it.
    pub fn write<T: Endian>(&mut self, value: T)
        requires
            old(self).wf(),
            old(self).pos() + T::spec_size() <= old(self).end(),
        ensures
            final(self).wf(),
            final(self).bytes() == splice(old(self).bytes(), old(self).pos() as int, value.spec_to_le()),
            final(self).end() == old(self).end(),
            final(self).pos() == old(self).pos() + T::spec_size(),
    {
        let at = self.index;
        self.write_at(value, at);
        self.index = at + T::size();
    }

    /// Moves the cursor past the width of a `T`, leaving the bytes as they are.
    pub fn pad<T: Endian>(&mut self)
        requires
            old(self).wf(),
            old(self).pos() + T::spec_size() <= old(self).end(),
        ensures
            final(self).wf(),
            final(self).bytes() == old(self).bytes(),
            final(self).end() == old(self).end(),
            final(self).pos() == old(self).pos() + T::spec_size(),
    {
        self.index = self.index + T::size();
    }

    /// The value at the cursor, leaving the cursor where it is.
    pub fn peek<T: Endian>(&self) -> (r: T)
        requires
            self.wf(),
            self.pos() + T::spec_size() <= self.end(),
        ensures
            r == T::spec_from_le(
                self.bytes().subrange(self.pos() as int, (self.pos() + T::spec_size()) as int),
            ),
    {
        T::load_le(&self.data, self.index)
    }

    /// The value at the cursor; the cursor moves past it.
    pub fn read<T: Endian>(&mut self) -> (r: T)
        requires
            old(self).wf(),
            old(self).pos() + T::spec_size() <= old(self).end(),
        ensures
            final(self).wf(),
            r == T::spec_from_le(
                old(self).bytes().subrange(old(self).pos() as int, (old(self).pos() + T::spec_size()) as int),
            ),
            final(self).bytes() == old(self).bytes(),
            final(self).end() == old(self).end(),
            final(self).pos() == old(self).pos() + T::spec_size(),
    {
        let r = self.peek();
        self.index = self.index + T::size();
        r
    }

    /// The bytes up to the cursor.
    pub fn written_slice(&self) -> (r: &[u8])
        requires
            self.wf(),
        ensures
            r@ == self.written(),
    {
        &self.data.as_slice()[0..self.index]
    }

    /// A copy of the bytes up to the cursor.
    pub fn written_bytes(&self) -> (r: Vec<u8>)
        requires
            self.wf(),
        ensures
            r@ == self.written(),
    {
        let mut v: Vec<u8> = Vec::new();
        let mut i: usize = 0;
        while i < self.index
            invariant
                self.wf(),
                i <= self.pos(),
                v@ == self.bytes().subrange(0, i as int),
            decreases self.pos() - i,
        {
            v.push(self.data[i]);
            i = i + 1;
            assert(v@ =~= self.bytes().subrange(0, i as int));
        }
        v
    }

    /// The bytes up to the logical length.
    pub fn read_slice(&self) -> (r: &[u8])
        requires
            self.wf(),
        ensures
            r@ == self.content(),
    {
        &self.data.as_slice()[0..self.end]
    }

    /// Makes the first `eof` bytes the content to read, with the cursor at 0.
    pub fn reset_reader(&mut self, eof: usize)
        requires
            old(self).wf(),
            eof <= old(self).bytes().len(),
        ensures
            final(self).wf(),
            final(self).bytes() == old(self).bytes(),
            final(self).end() == eof,
            final(self).pos() == 0,
    {
        self.end = eof;
        self.index = 0;
    }

    /// Copies `bytes` to the start of the region and makes them the content to
    /// read, with the cursor at 0.
    pub fn load(&mut self, bytes: &[u8])
        requires
            old(self).wf(),
            bytes@.len() <= old(self).bytes().len(),
        ensures
            final(self).wf(),
            final(self).bytes() == splice(old(self).bytes(), 0, bytes@),
            final(self).content() == bytes@,
            final(self).end() == bytes@.len(),
            final(self).pos() == 0,
    {
        let n = bytes.len();
        let mut i: usize = 0;
        while i < n
            invariant
                n == bytes@.len(),
                i <= n,
                n <= old(self).bytes().len(),
                self.data@.len() == old(self).bytes().len(),
                forall|j: int| 0 <= j < i ==> self.data@[j] == bytes@[j],
                forall|j: int| i <= j < self.data@.len() ==> self.data@[j] == old(self).bytes()[j],
            decreases n - i,
        {
            self.data.set(i, bytes[i]);
            i = i + 1;
        }
        self.end = n;
        self.index = 0;
        assert(self.data@ =~= splice(old(self).bytes(), 0, bytes@));
        assert(self.content() =~= bytes@);
    }

    /// Moves the cursor to `pos`.
    pub fn seek(&mut self, pos: usize)
        requires
            old(self).wf(),
            pos <= old(self).end(),
        ensures
            final(self).wf(),
            final(self).bytes() == old(self).bytes(),
            final(self).end() == old(self).end(),
            final(self).pos() == pos,
    {
        self.index = pos;
    }

    /// The logical length.
    pub fn read_size(&self) -> (r: usize)
        ensures
            r == self.end(),
    {
        self.end
    }

    /// The position of the cursor: the number of bytes written so far.
    pub fn written_size(&self) -> (r: usize)
        ensures
            r == self.pos(),
    {
        self.index
    }

    /// Makes the whole region writable, with the cursor at 0.
    pub fn reset_writer(&mut self)
        requires
            old(self).wf(),
        ensures
            final(self).wf(),
            final(self).bytes() == old(self).bytes(),
            final(self).end() == old(self).bytes().len(),
            final(self).pos() == 0,
    {
        self.end = self.data.len();
        self.index = 0;
    }
}

} // verus!
