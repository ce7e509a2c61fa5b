//! Symmetric message streams: one routine per message type serves both
//! directions.

use vstd::prelude::*;
use crate::buffer::Buffer;
use crate::endian::{splice, lemma_splice_read, lemma_splice_twice, Endian};
use crate::packet::{
    crc32, crc32_of, header_of, header_parses, header_wire, packet_checksum, size_range,
    type_code, type_of_code, PacketHeader, PacketType, PROTOCOL_ID, PROTOCOL_VERSION, HEADER_SIZE,
    PACKET_BUFFER_SIZE,
};
use crate::sequence::NetworkSeq;

verus! {

broadcast use crate::sequence::lemma_seq_in_space;

/// The bytes of a stream between its cursor and its logical length.
pub open spec fn rest(b: Buffer) -> Seq<u8> {
    b.bytes().subrange(b.pos() as int, b.end() as int)
}

/// Every scalar is at most 8 bytes wide.
proof fn self_size_bound<V: Endian>()
    ensures
        1 <= V::spec_size() <= 8,
{
    let z = V::spec_from_le(Seq::empty());
    z.lemma_le_round_trip();
}

/// A stream over a packet buffer, writing or reading.
pub trait Stream: Sized {
    /// Whether this stream writes (else it reads).
    spec fn spec_is_writing() -> bool;

    /// The buffer under the stream.
    spec fn buf(&self) -> Buffer;

    fn is_writing() -> (r: bool)
        ensures
            r == Self::spec_is_writing(),
    ;

    /// A writing stream writes `*value` at its cursor; a reading stream reads
    /// `*value` from its cursor. Either moves its cursor past the value. When
    /// the value does not fit before the logical length, nothing changes and
    /// the result is `false`.
    fn copy<V: Endian>(&mut self, value: &mut V) -> (ok: bool)
        requires
            old(self).buf().wf(),
        ensures
            final(self).buf().wf(),
            final(self).buf().end() == old(self).buf().end(),
            ok == (old(self).buf().pos() + V::spec_size() <= old(self).buf().end()),
            !ok ==> *final(self) == *old(self) && *final(value) == *old(value),
            ok ==> final(self).buf().pos() == old(self).buf().pos() + V::spec_size(),
            ok && Self::spec_is_writing() ==> {
                &&& *final(value) == *old(value)
                &&& final(self).buf().bytes() == splice(
                    old(self).buf().bytes(),
                    old(self).buf().pos() as int,
                    old(value).spec_to_le(),
                )
            },
            ok && !Self::spec_is_writing() ==> {
                &&& final(self).buf().bytes() == old(self).buf().bytes()
                &&& *final(value) == V::spec_from_le(
                    old(self).buf().bytes().subrange(
                        old(self).buf().pos() as int,
                        (old(self).buf().pos() + V::spec_size()) as int,
                    ),
                )
            },
    ;
}

/// A message type that streams itself in both directions.
pub trait Streamable: Sized {
    /// The wire form of the value.
    spec fn wire(&self) -> Seq<u8>;

    /// The value at the start of `b` and the number of bytes it takes, if
    /// `b` starts with one.
    spec fn parse(b: Seq<u8>) -> Option<(Self, nat)>;

    /// The length of the wire form, or some length above
    /// `PACKET_BUFFER_SIZE` when the wire form is longer than that.
    fn wire_len(&self) -> (r: usize)
        ensures
            r == self.wire().len() || (r > PACKET_BUFFER_SIZE && self.wire().len()
                > PACKET_BUFFER_SIZE),
    ;

    /// The placeholder value to read into.
    spec fn spec_blank() -> Self;

    /// The placeholder value to read into.
    fn blank() -> (r: Self)
        ensures
            r == Self::spec_blank(),
    ;

    /// Reading back what was written gives the value, whatever follows it.
    proof fn lemma_parse_wire(&self, tail: Seq<u8>)
        ensures
            Self::parse(self.wire() + tail) == Some((*self, self.wire().len())),
    ;

    /// Through a writing stream: writes the value and leaves it as it is;
    /// `true` exactly when it fits. Through a reading stream: reads a value
    /// into `self`; `true` exactly when the bytes left start with one.
    fn stream<S: Stream>(&mut self, s: &mut S) -> (ok: bool)
        requires
            old(s).buf().wf(),
        ensures
            final(s).buf().wf(),
            final(s).buf().end() == old(s).buf().end(),
            S::spec_is_writing() ==> {
                &&& *final(self) == *old(self)
                &&& ok == (old(s).buf().pos() + old(self).wire().len() <= old(s).buf().end())
                &&& ok ==> final(s).buf().bytes() == splice(
                    old(s).buf().bytes(),
                    old(s).buf().pos() as int,
                    old(self).wire(),
                )
                &&& ok ==> final(s).buf().pos() == old(s).buf().pos() + old(self).wire().len()
            },
            !S::spec_is_writing() ==> final(s).buf().bytes() == old(s).buf().bytes(),
            !S::spec_is_writing() ==> match Self::parse(rest(old(s).buf())) {
                Some((v, n)) => {
                    &&& ok
                    &&& *final(self) == v
                    &&& final(s).buf().bytes() == old(s).buf().bytes()
                    &&& final(s).buf().pos() == old(s).buf().pos() + n
                },
                None => !ok,
            },
    ;
}

impl<V: Endian> Streamable for V {
    open spec fn wire(&self) -> Seq<u8> {
        self.spec_to_le()
    }

    open spec fn parse(b: Seq<u8>) -> Option<(V, nat)> {
        if b.len() >= V::spec_size() {
            Some((V::spec_from_le(b.subrange(0, V::spec_size() as int)), V::spec_size()))
        } else {
            None
        }
    }

    fn wire_len(&self) -> (r: usize) {
        proof {
            self.lemma_le_round_trip();
        }
        V::size()
    }

    open spec fn spec_blank() -> V {
        V::spec_from_le(Seq::new(V::spec_size(), |i: int| 0u8))
    }

    fn blank() -> (r: V) {
        let zeros: Vec<u8> = vec![0u8; 8];
        proof {
            self_size_bound::<V>();
            assert(zeros@.subrange(0, V::spec_size() as int) =~= Seq::new(V::spec_size(), |i: int| 0u8));
        }
        V::load_le(&zeros, 0)
    }

    proof fn lemma_parse_wire(&self, tail: Seq<u8>) {
        self.lemma_le_round_trip();
        assert((self.spec_to_le() + tail).subrange(0, V::spec_size() as int) =~= self.spec_to_le());
    }

    fn stream<S: Stream>(&mut self, s: &mut S) -> (ok: bool) {
        proof {
            self.lemma_le_round_trip();
        }
        let ghost b = s.buf();
        let ok = s.copy(self);
        proof {
            let r = rest(b);
            if r.len() >= V::spec_size() {
                assert(r.subrange(0, V::spec_size() as int) =~= b.bytes().subrange(
                    b.pos() as int,
                    (b.pos() + V::spec_size()) as int,
                ));
            }
        }
        ok
    }
}

impl Streamable for () {
    open spec fn wire(&self) -> Seq<u8> {
        Seq::empty()
    }

    open spec fn parse(b: Seq<u8>) -> Option<((), nat)> {
        Some(((), 0))
    }

    fn wire_len(&self) -> (r: usize) {
        0
    }

    open spec fn spec_blank() -> () {
        ()
    }

    fn blank() -> (r: ()) {
        ()
    }

    proof fn lemma_parse_wire(&self, tail: Seq<u8>) {
    }

    fn stream<S: Stream>(&mut self, s: &mut S) -> (ok: bool) {
        proof {
            assert(splice(s.buf().bytes(), s.buf().pos() as int, Seq::empty()) =~= s.buf().bytes());
        }
        true
    }
}

impl<A: Streamable, B: Streamable> Streamable for (A, B) {
    open spec fn wire(&self) -> Seq<u8> {
        self.0.wire() + self.1.wire()
    }

    open spec fn parse(b: Seq<u8>) -> Option<((A, B), nat)> {
        match A::parse(b) {
            Some((x, n)) => match B::parse(b.subrange(n as int, b.len() as int)) {
                Some((y, m)) => Some(((x, y), n + m)),
                None => None,
            },
            None => None,
        }
    }

    fn wire_len(&self) -> (r: usize) {
        self.0.wire_len().saturating_add(self.1.wire_len())
    }

    open spec fn spec_blank() -> (A, B) {
        (A::spec_blank(), B::spec_blank())
    }

    fn blank() -> (r: (A, B)) {
        (A::blank(), B::blank())
    }

    proof fn lemma_parse_wire(&self, tail: Seq<u8>) {
        let wa = self.0.wire();
        let wb = self.1.wire();
        assert(wa + wb + tail =~= wa + (wb + tail));
        self.0.lemma_parse_wire(wb + tail);
        assert((wa + (wb + tail)).subrange(wa.len() as int, (wa + (wb + tail)).len() as int) =~= wb
            + tail);
        self.1.lemma_parse_wire(tail);
    }

    fn stream<S: Stream>(&mut self, s: &mut S) -> (ok: bool) {
        let ghost b0 = s.buf();
        let ghost a0 = self.0;
        let ghost c0 = self.1;
        let ok_a = self.0.stream(s);
        if !ok_a {
            proof {
                if S::spec_is_writing() {
                    assert(b0.pos() + a0.wire().len() > b0.end());
                }
            }
            return false;
        }
        let ghost b1 = s.buf();
        let ok_b = self.1.stream(s);
        proof {
            if S::spec_is_writing() {
                if ok_b {
                    lemma_splice_twice(b0.bytes(), b0.pos() as int, a0.wire(), c0.wire());
                }
            } else {
                let r0 = rest(b0);
                let n = (b1.pos() - b0.pos()) as nat;
                assert(rest(b1) =~= r0.subrange(n as int, r0.len() as int));
            }
        }
        ok_b
    }
}

/// A packet as sent: `c` with its checksum field set to the CRC-32 of `c`,
/// where `c` carries `PROTOCOL_ID` in that field.
pub open spec fn seal(c: Seq<u8>) -> Seq<u8> {
    splice(c, 0, crc32_of(c).spec_to_le())
}

/// The received bytes `p` form a packet that passes the integrity check: a
/// header with a known type, a size valid for that type, the current
/// version, and a checksum that matches.
pub open spec fn packet_valid(p: Seq<u8>) -> bool {
    &&& header_parses(p)
    &&& size_range(type_of_code(p[6])->0).0 <= p.len() <= size_range(type_of_code(p[6])->0).1
    &&& u16::spec_from_le(p.subrange(4, 6)) == PROTOCOL_VERSION
    &&& packet_checksum(p) == u32::spec_from_le(p.subrange(0, 4))
}

/// The header that `init_packet` writes.
pub open spec fn fresh_header(
    packet_type: PacketType,
    seq: NetworkSeq,
    ack: NetworkSeq,
    ack_bits: u32,
) -> PacketHeader {
    PacketHeader { checksum: PROTOCOL_ID, version: PROTOCOL_VERSION, packet_type, seq, ack, ack_bits }
}

/// A stream that writes into the buffer it owns.
pub struct WriteStream(pub Buffer);

/// A stream that reads from the buffer it owns.
pub struct ReadStream(pub Buffer);

impl WriteStream {
    /// Starts a packet: the whole buffer becomes writable and the header is
    /// written at its start, with `PROTOCOL_ID` in the checksum field.
    pub fn init_packet(
        &mut self,
        packet_type: PacketType,
        local_sequence: NetworkSeq,
        remote_ack: NetworkSeq,
        remote_ack_bits: u32,
    )
        requires
            old(self).0.wf(),
            old(self).0.bytes().len() >= HEADER_SIZE,
        ensures
            final(self).0.wf(),
            final(self).0.bytes() == splice(
                old(self).0.bytes(),
                0,
                header_wire(fresh_header(packet_type, local_sequence, remote_ack, remote_ack_bits)),
            ),
            final(self).0.end() == old(self).0.bytes().len(),
            final(self).0.pos() == HEADER_SIZE,
    {
        self.0.reset_writer();
        let h = PacketHeader::new(packet_type, local_sequence, remote_ack, remote_ack_bits);
        h.write_to(&mut self.0);
    }

    /// Completes a packet: the checksum field gets the CRC-32 of the bytes
    /// written so far, which carry `PROTOCOL_ID` there.
    pub fn finish_packet(&mut self)
        requires
            old(self).0.wf(),
            old(self).0.pos() >= 4,
        ensures
            final(self).0.wf(),
            final(self).0.bytes() == splice(
                old(self).0.bytes(),
                0,
                crc32_of(old(self).0.written()).spec_to_le(),
            ),
            final(self).0.written() == seal(old(self).0.written()),
            final(self).0.end() == old(self).0.end(),
            final(self).0.pos() == old(self).0.pos(),
    {
        let checksum = crc32(self.0.written_slice());
        self.0.write_at(checksum, 0);
        proof {
            checksum.lemma_le_round_trip();
            assert(self.0.written() =~= seal(old(self).0.written()));
        }
    }
}

impl ReadStream {
    /// Reads the header at the start of the received bytes; `None` when they
    /// are too short or carry an unknown packet type.
    pub fn read_header(&mut self) -> (r: Option<PacketHeader>)
        requires
            old(self).0.wf(),
            old(self).0.pos() == 0,
        ensures
            final(self).0.wf(),
            final(self).0.bytes() == old(self).0.bytes(),
            final(self).0.end() == old(self).0.end(),
            r is Some == header_parses(old(self).0.content()),
            r matches Some(h) ==> header_of(h, old(self).0.content()) && final(self).0.pos()
                == HEADER_SIZE,
    {
        let ghost c = self.0.content();
        let ghost b = self.0.bytes();
        if self.0.read_size() < HEADER_SIZE {
            return None;
        }
        let checksum: u32 = self.0.read();
        let version: u16 = self.0.read();
        let code: u8 = self.0.read();
        let _padding: u8 = self.0.read();
        let seq: u16 = self.0.read();
        let ack: u16 = self.0.read();
        let ack_bits: u32 = self.0.read();
        proof {
            assert(c.subrange(0, 4) =~= b.subrange(0, 4));
            assert(c.subrange(4, 6) =~= b.subrange(4, 6));
            assert(c.subrange(8, 10) =~= b.subrange(8, 10));
            assert(c.subrange(10, 12) =~= b.subrange(10, 12));
            assert(c.subrange(12, 16) =~= b.subrange(12, 16));
            assert(c[6] == b.subrange(6, 7)[0]);
        }
        match PacketType::from_code(code) {
            Some(packet_type) => Some(
                PacketHeader {
                    checksum,
                    version,
                    packet_type,
                    seq: NetworkSeq::wrap(seq),
                    ack: NetworkSeq::wrap(ack),
                    ack_bits,
                },
            ),
            None => None,
        }
    }

    /// The integrity check of a received packet whose header is `header`:
    /// its size is valid for its type, its version is current and its
    /// checksum matches. The checksum field then holds `PROTOCOL_ID`.
    pub fn verify_incoming_packet_integrity(&mut self, header: &PacketHeader) -> (r: bool)
        requires
            old(self).0.wf(),
            old(self).0.end() >= 4,
        ensures
            final(self).0.wf(),
            final(self).0.bytes().len() == old(self).0.bytes().len(),
            final(self).0.end() == old(self).0.end(),
            final(self).0.pos() == old(self).0.pos(),
            r == {
                &&& size_range(header.packet_type).0 <= old(self).0.end() <= size_range(
                    header.packet_type,
                ).1
                &&& header.version == PROTOCOL_VERSION
                &&& packet_checksum(old(self).0.content()) == header.checksum
            },
            r ==> final(self).0.content() == splice(
                old(self).0.content(),
                0,
                PROTOCOL_ID.spec_to_le(),
            ),
    {
        if header.packet_type.invalid_size(self.0.read_size()) {
            return false;
        }
        if header.version != PROTOCOL_VERSION {
            return false;
        }
        self.0.write_at(PROTOCOL_ID, 0);
        let checksum = crc32(self.0.read_slice());
        proof {
            PROTOCOL_ID.lemma_le_round_trip();
            assert(self.0.content() =~= splice(old(self).0.content(), 0, PROTOCOL_ID.spec_to_le()));
        }
        checksum == header.checksum
    }

    /// Takes in a received datagram: copies it into the buffer, reads its
    /// header and checks its integrity. `Some(header)` exactly when the
    /// datagram is a valid packet; the cursor then stands past the header.
    pub fn receive_packet(&mut self, datagram: &[u8]) -> (r: Option<PacketHeader>)
        requires
            old(self).0.wf(),
            datagram@.len() <= old(self).0.bytes().len(),
        ensures
            final(self).0.wf(),
            final(self).0.bytes().len() == old(self).0.bytes().len(),
            r is Some == packet_valid(datagram@),
            r matches Some(h) ==> {
                &&& header_of(h, datagram@)
                &&& final(self).0.content() == splice(datagram@, 0, PROTOCOL_ID.spec_to_le())
                &&& final(self).0.pos() == HEADER_SIZE
            },
    {
        self.0.load(datagram);
        let header = self.read_header();
        match header {
            Some(h) => {
                if self.verify_incoming_packet_integrity(&h) {
                    Some(h)
                } else {
                    None
                }
            },
            None => None,
        }
    }
}

impl Stream for WriteStream {
    open spec fn spec_is_writing() -> bool {
        true
    }

    open spec fn buf(&self) -> Buffer {
        self.0
    }

    fn is_writing() -> (r: bool) {
        true
    }

    fn copy<V: Endian>(&mut self, value: &mut V) -> (ok: bool) {
        let index = self.0.written_size();
        let end = self.0.read_size();
        if V::size() <= end - index {
            self.0.write(*value);
            true
        } else {
            false
        }
    }
}

impl Stream for ReadStream {
    open spec fn spec_is_writing() -> bool {
        false
    }

    open spec fn buf(&self) -> Buffer {
        self.0
    }

    fn is_writing() -> (r: bool) {
        false
    }

    fn copy<V: Endian>(&mut self, value: &mut V) -> (ok: bool) {
        let index = self.0.written_size();
        let end = self.0.read_size();
        if V::size() <= end - index {
            *value = self.0.read();
            true
        } else {
            false
        }
    }
}

} // verus!

verus! {

/// A packet that `init_packet` started and `finish_packet` completed passes
/// the integrity check when its size is valid for its type: its header
/// parses, and the header read back holds the fields that were written,
/// with the checksum filled in.
pub proof fn lemma_checksum_round_trip(
    packet_type: PacketType,
    seq: NetworkSeq,
    ack: NetworkSeq,
    ack_bits: u32,
    payload: Seq<u8>,
)
    requires
        size_range(packet_type).0 <= HEADER_SIZE + payload.len() <= size_range(packet_type).1,
    ensures
        packet_valid(seal(header_wire(fresh_header(packet_type, seq, ack, ack_bits)) + payload)),
        header_parses(seal(header_wire(fresh_header(packet_type, seq, ack, ack_bits)) + payload)),
        forall|read_back: PacketHeader|
            #[trigger] header_of(
                read_back,
                seal(header_wire(fresh_header(packet_type, seq, ack, ack_bits)) + payload),
            ) ==> {
                &&& read_back.checksum == crc32_of(
                    header_wire(fresh_header(packet_type, seq, ack, ack_bits)) + payload,
                )
                &&& read_back.version == PROTOCOL_VERSION
                &&& read_back.packet_type == packet_type
                &&& read_back.seq@ == seq@
                &&& read_back.ack@ == ack@
                &&& read_back.ack_bits == ack_bits
            },
{
    let h = fresh_header(packet_type, seq, ack, ack_bits);
    let c = header_wire(h) + payload;
    let crc = crc32_of(c);
    let p = seal(c);
    PROTOCOL_ID.lemma_le_round_trip();
    crc.lemma_le_round_trip();
    PROTOCOL_VERSION.lemma_le_round_trip();
    (seq@ as u16).lemma_le_round_trip();
    (ack@ as u16).lemma_le_round_trip();
    ack_bits.lemma_le_round_trip();
    lemma_splice_read(c, 0, crc.spec_to_le());
    assert(p.len() == c.len());
    assert(c.subrange(0, 4) =~= PROTOCOL_ID.spec_to_le());
    assert(splice(p, 0, PROTOCOL_ID.spec_to_le()) =~= c);
    assert(p.subrange(0, 4) =~= crc.spec_to_le());
    assert(p.subrange(4, 6) =~= PROTOCOL_VERSION.spec_to_le());
    assert(p[6] == type_code(packet_type));
    assert(p.subrange(8, 10) =~= (seq@ as u16).spec_to_le());
    assert(p.subrange(10, 12) =~= (ack@ as u16).spec_to_le());
    assert(p.subrange(12, 16) =~= ack_bits.spec_to_le());
}

} // verus!
