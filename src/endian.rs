//! Fixed-width scalars and their little-endian byte encoding.

use vstd::prelude::*;

verus! {

/// `b` with the bytes from `at` on replaced by `w`.
pub open spec fn splice(b: Seq<u8>, at: int, w: Seq<u8>) -> Seq<u8> {
    b.subrange(0, at) + w + b.subrange(at + w.len(), b.len() as int)
}

/// Writing `w1` at `at` and then `w2` right after it writes `w1 + w2` at `at`.
pub proof fn lemma_splice_twice(b: Seq<u8>, at: int, w1: Seq<u8>, w2: Seq<u8>)
    requires
        0 <= at,
        at + w1.len() + w2.len() <= b.len(),
    ensures
        splice(b, at, w1).len() == b.len(),
        splice(splice(b, at, w1), at + w1.len(), w2) == splice(b, at, w1 + w2),
{
    let s1 = splice(b, at, w1);
    assert(s1.len() == b.len());
    assert(splice(s1, at + w1.len(), w2) =~= splice(b, at, w1 + w2));
}

/// The bytes from `at` on are `w` after `w` is written there.
pub proof fn lemma_splice_read(b: Seq<u8>, at: int, w: Seq<u8>)
    requires
        0 <= at,
        at + w.len() <= b.len(),
    ensures
        splice(b, at, w).len() == b.len(),
        splice(b, at, w).subrange(at, at + w.len()) == w,
        splice(b, at, w).subrange(0, at) == b.subrange(0, at),
{
    assert(splice(b, at, w).subrange(at, at + w.len()) =~= w);
    assert(splice(b, at, w).subrange(0, at) =~= b.subrange(0, at));
}

/// A fixed-width scalar with a little-endian wire encoding.
pub trait Endian: Sized + Copy {
    /// The width of the encoding, in bytes.
    spec fn spec_size() -> nat;

    /// The little-endian encoding of the value.
    spec fn spec_to_le(self) -> Seq<u8>;

    /// The value whose little-endian encoding is `b`.
    spec fn spec_from_le(b: Seq<u8>) -> Self;

    /// Decoding an encoding gives back the value.
    proof fn lemma_le_round_trip(self)
        ensures
            self.spec_to_le().len() == Self::spec_size(),
            1 <= Self::spec_size() <= 8,
            Self::spec_from_le(self.spec_to_le()) == self,
    ;

    fn size() -> (r: usize)
        ensures
            r == Self::spec_size(),
    ;

    /// Writes the encoding of `self` into `data` from `at` on.
    fn store_le(self, data: &mut Vec<u8>, at: usize)
        requires
            at + Self::spec_size() <= old(data).len(),
        ensures
            final(data)@ == splice(old(data)@, at as int, self.spec_to_le()),
    ;

    /// Reads the value whose encoding stands in `data` from `at` on.
    fn load_le(data: &Vec<u8>, at: usize) -> (r: Self)
        requires
            at + Self::spec_size() <= data.len(),
        ensures
            r == Self::spec_from_le(data@.subrange(at as int, at + Self::spec_size())),
    ;
}

impl Endian for u8 {
    open spec fn spec_size() -> nat {
        1
    }

    open spec fn spec_to_le(self) -> Seq<u8> {
        seq![self]
    }

    open spec fn spec_from_le(b: Seq<u8>) -> u8 {
        b[0]
    }

    proof fn lemma_le_round_trip(self) {
    }

    fn size() -> (r: usize) {
        1
    }

    fn store_le(self, data: &mut Vec<u8>, at: usize) {
        data.set(at, self);
        assert(data@ =~= splice(old(data)@, at as int, self.spec_to_le()));
    }

    fn load_le(data: &Vec<u8>, at: usize) -> (r: u8) {
        data[at]
    }
}

impl Endian for u16 {
    open spec fn spec_size() -> nat {
        2
    }

    open spec fn spec_to_le(self) -> Seq<u8> {
        seq![self as u8, (self >> 8u16) as u8]
    }

    open spec fn spec_from_le(b: Seq<u8>) -> u16 {
        (b[0] as u16) | ((b[1] as u16) << 8u16)
    }

    proof fn lemma_le_round_trip(self) {
        let v = self;
        assert(((v as u8) as u16) | ((((v >> 8u16) as u8) as u16) << 8u16) == v) by (bit_vector);
    }

    fn size() -> (r: usize) {
        2
    }

    fn store_le(self, data: &mut Vec<u8>, at: usize) {
        data.set(at, self as u8);
        data.set(at + 1, (self >> 8u16) as u8);
        assert(data@ =~= splice(old(data)@, at as int, self.spec_to_le()));
    }

    fn load_le(data: &Vec<u8>, at: usize) -> (r: u16) {
        let ghost b = data@.subrange(at as int, at + 2);
        assert(b[0] == data@[at as int] && b[1] == data@[at + 1]);
        (data[at] as u16) | ((data[at + 1] as u16) << 8u16)
    }
}

impl Endian for u32 {
    open spec fn spec_size() -> nat {
        4
    }

    open spec fn spec_to_le(self) -> Seq<u8> {
        seq![self as u8, (self >> 8u32) as u8, (self >> 16u32) as u8, (self >> 24u32) as u8]
    }

    open spec fn spec_from_le(b: Seq<u8>) -> u32 {
        (b[0] as u32) | ((b[1] as u32) << 8u32) | ((b[2] as u32) << 16u32) | ((b[3] as u32)
            << 24u32)
    }

    proof fn lemma_le_round_trip(self) {
        let v = self;
        assert(((v as u8) as u32) | ((((v >> 8u32) as u8) as u32) << 8u32) | ((((v >> 16u32) as u8) as u32)
            << 16u32) | ((((v >> 24u32) as u8) as u32) << 24u32) == v) by (bit_vector);
    }

    fn size() -> (r: usize) {
        4
    }

    fn store_le(self, data: &mut Vec<u8>, at: usize) {
        data.set(at, self as u8);
        data.set(at + 1, (self >> 8u32) as u8);
        data.set(at + 2, (self >> 16u32) as u8);
        data.set(at + 3, (self >> 24u32) as u8);
        assert(data@ =~= splice(old(data)@, at as int, self.spec_to_le()));
    }

    fn load_le(data: &Vec<u8>, at: usize) -> (r: u32) {
        let ghost b = data@.subrange(at as int, at + 4);
        assert(b[0] == data@[at as int] && b[1] == data@[at + 1] && b[2] == data@[at + 2] && b[3]
            == data@[at + 3]);
        (data[at] as u32) | ((data[at + 1] as u32) << 8u32) | ((data[at + 2] as u32) << 16u32) | ((
        data[at + 3] as u32) << 24u32)
    }
}

impl Endian for u64 {
    open spec fn spec_size() -> nat {
        8
    }

    open spec fn spec_to_le(self) -> Seq<u8> {
        seq![
            self as u8,
            (self >> 8u64) as u8,
            (self >> 16u64) as u8,
            (self >> 24u64) as u8,
            (self >> 32u64) as u8,
            (self >> 40u64) as u8,
            (self >> 48u64) as u8,
            (self >> 56u64) as u8,
        ]
    }

    open spec fn spec_from_le(b: Seq<u8>) -> u64 {
        (b[0] as u64) | ((b[1] as u64) << 8u64) | ((b[2] as u64) << 16u64) | ((b[3] as u64)
            << 24u64) | ((b[4] as u64) << 32u64) | ((b[5] as u64) << 40u64) | ((b[6] as u64)
            << 48u64) | ((b[7] as u64) << 56u64)
    }

    proof fn lemma_le_round_trip(self) {
        let v = self;
        assert(((v as u8) as u64) | ((((v >> 8u64) as u8) as u64) << 8u64) | ((((v >> 16u64) as u8) as u64)
            << 16u64) | ((((v >> 24u64) as u8) as u64) << 24u64) | ((((v >> 32u64) as u8) as u64)
            << 32u64) | ((((v >> 40u64) as u8) as u64) << 40u64) | ((((v >> 48u64) as u8) as u64)
            << 48u64) | ((((v >> 56u64) as u8) as u64) << 56u64) == v) by (bit_vector);
    }

    fn size() -> (r: usize) {
        8
    }

    fn store_le(self, data: &mut Vec<u8>, at: usize) {
        data.set(at, self as u8);
        data.set(at + 1, (self >> 8u64) as u8);
        data.set(at + 2, (self >> 16u64) as u8);
        data.set(at + 3, (self >> 24u64) as u8);
        data.set(at + 4, (self >> 32u64) as u8);
        data.set(at + 5, (self >> 40u64) as u8);
        data.set(at + 6, (self >> 48u64) as u8);
        data.set(at + 7, (self >> 56u64) as u8);
        assert(data@ =~= splice(old(data)@, at as int, self.spec_to_le()));
    }

    fn load_le(data: &Vec<u8>, at: usize) -> (r: u64) {
        let ghost b = data@.subrange(at as int, at + 8);
        assert(b[0] == data@[at as int] && b[1] == data@[at + 1] && b[2] == data@[at + 2] && b[3]
            == data@[at + 3] && b[4] == data@[at + 4] && b[5] == data@[at + 5] && b[6] == data@[at
            + 6] && b[7] == data@[at + 7]);
        (data[at] as u64) | ((data[at + 1] as u64) << 8u64) | ((data[at + 2] as u64) << 16u64) | ((
        data[at + 3] as u64) << 24u64) | ((data[at + 4] as u64) << 32u64) | ((data[at + 5] as u64)
            << 40u64) | ((data[at + 6] as u64) << 48u64) | ((data[at + 7] as u64) << 56u64)
    }
}

} // verus!
