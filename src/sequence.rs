//! Sequence numbers confined to a power-of-two window, with modular order.

use vstd::prelude::*;
use core::cmp::Ordering;

verus! {

/// The size of the sequence space.
pub const SEQ_COUNT: u16 = 64;

/// Half of the sequence space: the farthest distance at which the order of
/// two sequence numbers is still the order in which they were issued.
pub const SEQ_MID_VALUE: u16 = 32;

/// The stamp that marks a slot as holding no sequence number.
pub const SEQ_OUT_OF_BOUNDS: u16 = 0xFFFF;

/// `a` comes after `b` in the modular order: it lies at most half the space
/// ahead of `b`. At exactly half the space the larger value is the later one.
pub open spec fn seq_greater(a: int, b: int) -> bool {
    (a > b && a - b <= SEQ_MID_VALUE) || (a < b && b - a > SEQ_MID_VALUE)
}

/// `a` comes before `b` in the modular order.
pub open spec fn seq_less(a: int, b: int) -> bool {
    a != b && !seq_greater(a, b)
}

/// The successor of `s` in the sequence space.
pub open spec fn seq_next(s: int) -> int {
    (s + 1) % (SEQ_COUNT as int)
}

/// `s` moved forward by `k`, in the sequence space.
pub open spec fn seq_forward(s: int, k: int) -> int {
    (s + k) % (SEQ_COUNT as int)
}

/// `s` moved back by `k`, in the sequence space.
pub open spec fn seq_back(s: int, k: int) -> int {
    (s - k) % (SEQ_COUNT as int)
}

/// Of two distinct sequence numbers exactly one comes before the other, and
/// `a` comes before `b` exactly when `b` comes after `a`.
pub proof fn lemma_seq_order_total(a: int, b: int)
    requires
        0 <= a < SEQ_COUNT,
        0 <= b < SEQ_COUNT,
        a != b,
    ensures
        seq_less(a, b) != seq_less(b, a),
        seq_less(a, b) == seq_greater(b, a),
        seq_greater(a, b) != seq_greater(b, a),
{
}

/// Within a run shorter than half the space, a sequence number comes before
/// every later one, across the wrap from the end of the space to 0.
pub proof fn lemma_seq_order_wraps(s: int, k: int)
    requires
        0 <= s < SEQ_COUNT,
        0 < k < SEQ_MID_VALUE,
    ensures
        seq_less(s, (s + k) % (SEQ_COUNT as int)),
        seq_greater((s + k) % (SEQ_COUNT as int), s),
{
}

/// How far `to` lies ahead of `from` in the sequence space.
pub closed spec fn seq_dist(from: int, to: int) -> int {
    (to - from) % (SEQ_COUNT as int)
}

/// Distances between sequence numbers, and how the order follows them.
pub proof fn lemma_seq_dist(l: int, a: int)
    requires
        0 <= l < SEQ_COUNT,
        0 <= a < SEQ_COUNT,
    ensures
        0 <= seq_dist(l, a) < SEQ_COUNT,
        seq_dist(l, a) == (a - l) % (SEQ_COUNT as int),
        seq_less(l, a) ==> 1 <= seq_dist(l, a) <= SEQ_MID_VALUE,
        seq_less(l, a) ==> seq_dist(seq_next(l), a) == seq_dist(l, a) - 1,
        1 <= seq_dist(l, a) < SEQ_MID_VALUE ==> seq_less(l, a),
        seq_dist(l, a) == 0 <==> l == a,
{
}

/// Moving forward one more step is taking the successor.
pub proof fn lemma_seq_forward_step(s: int, d: int)
    requires
        0 <= s < SEQ_COUNT,
        0 <= d,
    ensures
        seq_forward(s, d + 1) == seq_next(seq_forward(s, d)),
        seq_forward(s, 0) == s,
        0 <= seq_forward(s, d) < SEQ_COUNT,
        d < SEQ_COUNT ==> seq_dist(s, seq_forward(s, d)) == d,
{
}

/// The sequence number at distance `seq_dist(s, i)` ahead of `s` is `i`.
pub proof fn lemma_seq_dist_forward(s: int, i: int)
    requires
        0 <= s < SEQ_COUNT,
        0 <= i < SEQ_COUNT,
    ensures
        seq_forward(s, seq_dist(s, i)) == i,
        0 <= seq_dist(s, i) < SEQ_COUNT,
{
}

/// A sequence number in `[0, SEQ_COUNT)`.
#[derive(Clone, Copy, Debug, PartialEq, Eq, Structural)]
pub struct NetworkSeq(u16);

impl View for NetworkSeq {
    type V = int;

    closed spec fn view(&self) -> int {
        self.0 as int % SEQ_COUNT as int
    }
}

/// Every sequence number lies in the sequence space.
pub broadcast proof fn lemma_seq_in_space(s: NetworkSeq)
    ensures
        0 <= #[trigger] s@ < SEQ_COUNT,
{
}

impl NetworkSeq {
    #[verifier::type_invariant]
    spec fn in_space(self) -> bool {
        self.0 < SEQ_COUNT
    }

    /// The sequence number `value` modulo the size of the space.
    pub fn wrap(value: u16) -> (r: NetworkSeq)
        ensures
            r@ == value % SEQ_COUNT,
    {
        NetworkSeq(value % SEQ_COUNT)
    }

    pub fn unwrap(self) -> (r: u16)
        ensures
            r == self@,
            r < SEQ_COUNT,
    {
        proof {
            use_type_invariant(self);
        }
        self.0
    }

    /// The slot of this sequence number in a sequence buffer.
    pub fn index(self) -> (r: usize)
        ensures
            r == self@,
            r < SEQ_COUNT,
    {
        proof {
            use_type_invariant(self);
        }
        self.0 as usize
    }

    /// Moves to the successor, wrapping to 0 at the end of the space.
    pub fn wrapping_increment(&mut self)
        ensures
            final(self)@ == seq_next(old(self)@),
    {
        proof {
            use_type_invariant(&*self);
        }
        *self = NetworkSeq((self.0 + 1) % SEQ_COUNT);
    }

    /// This sequence number moved back by `amount`, wrapping around the space.
    pub fn wrapping_sub(self, amount: u16) -> (r: NetworkSeq)
        ensures
            r@ == seq_back(self@, amount as int),
    {
        proof {
            use_type_invariant(self);
        }
        let k = amount % SEQ_COUNT;
        let r = NetworkSeq((self.0 + SEQ_COUNT - k) % SEQ_COUNT);
        assert(r@ == seq_back(self@, amount as int)) by {
            let q = amount / SEQ_COUNT;
            assert(amount as int == 64 * q + k);
            assert((self@ + 64 - k) % 64 == (self@ - k) % 64);
            assert((self@ - k - 64 * q) % 64 == (self@ - k) % 64) by {
                vstd::arithmetic::div_mod::lemma_mod_sub_multiples_vanish(
                    (self@ - k) as int,
                    64,
                );
                vstd::arithmetic::div_mod::lemma_mod_multiples_vanish(-(q as int), (self@ - k) as int, 64);
            }
        }
        r
    }
}

impl NetworkSeq {
    /// This sequence number comes before `other` in the modular order.
    pub fn precedes(self, other: NetworkSeq) -> (r: bool)
        ensures
            r == seq_less(self@, other@),
    {
        match self.partial_cmp(&other) {
            Some(Ordering::Less) => true,
            _ => false,
        }
    }
}

impl PartialOrd for NetworkSeq {
    fn partial_cmp(&self, other: &NetworkSeq) -> (r: Option<Ordering>) {
        proof {
            use_type_invariant(self);
            use_type_invariant(other);
        }
        if self.0 == other.0 {
            Some(Ordering::Equal)
        } else if (self.0 > other.0 && self.0 - other.0 <= SEQ_MID_VALUE) || (self.0 < other.0
            && other.0 - self.0 > SEQ_MID_VALUE) {
            Some(Ordering::Greater)
        } else {
            Some(Ordering::Less)
        }
    }
}

impl vstd::std_specs::cmp::PartialOrdSpecImpl for NetworkSeq {
    open spec fn obeys_partial_cmp_spec() -> bool {
        true
    }

    open spec fn partial_cmp_spec(&self, other: &NetworkSeq) -> Option<Ordering> {
        if self@ == other@ {
            Some(Ordering::Equal)
        } else if seq_greater(self@, other@) {
            Some(Ordering::Greater)
        } else {
            Some(Ordering::Less)
        }
    }
}

} // verus!
