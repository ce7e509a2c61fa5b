//! Wire framing: protocol constants, packet types, the packet header and its
//! checksum.

use vstd::prelude::*;
use crate::buffer::Buffer;
use crate::endian::{splice, Endian};
use crate::sequence::{NetworkSeq, SEQ_COUNT};
use crate::sequence_buffer::DefaultArray;
use crate::stream::{rest, Stream, Streamable};

verus! {

broadcast use crate::sequence::lemma_seq_in_space;

/// The tag "MAJG" read as a little-endian `u32`; it stands in the checksum
/// field while the checksum is computed.
pub const PROTOCOL_ID: u32 = 0x474A_414D;

pub const PROTOCOL_VERSION: u16 = 1;

pub const SERVER_PORT: u16 = 4321;

/// Below the usual path MTU.
pub const PACKET_BUFFER_SIZE: usize = 512;

/// The size of the packet header.
pub const HEADER_SIZE: usize = 16;

/// How long the oldest unacknowledged packet may wait before the connection
/// counts as lost, in milliseconds.
pub const CONNECTION_TIMEOUT_MS: u64 = 500;

/// How often per second the drivers send.
pub const NETWORK_FPS: u32 = 50;

pub const MAX_CLIENTS: u8 = 8;

/// The size of the IPv4 and UDP headers, counted against the byte budget.
pub const UDP_IP_HEADER_SIZE: u32 = 28;

/// The bandwidth one peer may use.
pub const MAX_CLIENT_BYTES_PER_SECOND: u32 = 100_000;

/// Bytes that one round of sending may use.
pub const BYTES_PER_SEND: u32 = MAX_CLIENT_BYTES_PER_SECOND / NETWORK_FPS;

/// A packet already sent is sent again only on every this many sequence
/// numbers, counted from the oldest unacknowledged one.
pub const PACKET_RESEND_FRAME_INTERVAL: u16 = 4;

/// The checksum that `crc32fast` computes over `b`: the CRC-32 (IEEE) of the
/// bytes.
pub uninterp spec fn crc32_of(b: Seq<u8>) -> u32;

/// Relies on `crc32fast::hash`: the CRC-32 (IEEE) checksum of the bytes,
/// which depends on the bytes alone.
#[verifier::external_body]
pub(crate) fn crc32(bytes: &[u8]) -> (r: u32)
    ensures
        r == crc32_of(bytes@),
{
    crc32fast::hash(bytes)
}

/// The checksum of a packet: the CRC-32 of its bytes with the checksum field
/// replaced by `PROTOCOL_ID`.
pub open spec fn packet_checksum(p: Seq<u8>) -> u32 {
    crc32_of(splice(p, 0, PROTOCOL_ID.spec_to_le()))
}

/// The checksum of the packet `p`.
pub fn compute_checksum(p: &[u8]) -> (r: u32)
    requires
        p@.len() >= 4,
    ensures
        r == packet_checksum(p@),
{
    let mut v: Vec<u8> = Vec::new();
    let mut i: usize = 0;
    while i < p.len()
        invariant
            i <= p@.len(),
            v@ == p@.subrange(0, i as int),
        decreases p@.len() - i,
    {
        v.push(p[i]);
        i = i + 1;
    }
    assert(v@ =~= p@);
    PROTOCOL_ID.store_le(&mut v, 0);
    crc32(v.as_slice())
}

/// The kind of a packet, which fixes its valid sizes.
#[derive(Clone, Copy, Debug, PartialEq, Eq, Structural)]
pub enum PacketType {
    ConnectionRequest,
    ConnectionAccepted,
    ConnectionKeepAlive,
    UserPayload,
}

/// The wire code of a packet type.
pub open spec fn type_code(t: PacketType) -> u8 {
    match t {
        PacketType::ConnectionRequest => 0,
        PacketType::ConnectionAccepted => 3,
        PacketType::ConnectionKeepAlive => 4,
        PacketType::UserPayload => 5,
    }
}

/// The packet type with wire code `c`, if there is one.
pub open spec fn type_of_code(c: u8) -> Option<PacketType> {
    if c == 0 {
        Some(PacketType::ConnectionRequest)
    } else if c == 3 {
        Some(PacketType::ConnectionAccepted)
    } else if c == 4 {
        Some(PacketType::ConnectionKeepAlive)
    } else if c == 5 {
        Some(PacketType::UserPayload)
    } else {
        None
    }
}

/// The smallest and largest valid size of a packet of type `t`, header
/// included.
pub open spec fn size_range(t: PacketType) -> (nat, nat) {
    match t {
        PacketType::ConnectionRequest => (16, 16),
        PacketType::ConnectionAccepted => (17, 17),
        PacketType::ConnectionKeepAlive => (16, 16),
        PacketType::UserPayload => (16, 512),
    }
}

impl Default for PacketType {
    fn default() -> (r: PacketType)
        ensures
            r == PacketType::ConnectionRequest,
    {
        PacketType::ConnectionRequest
    }
}

impl PacketType {
    pub fn valid_size_range(self) -> (r: (usize, usize))
        ensures
            r.0 == size_range(self).0,
            r.1 == size_range(self).1,
    {
        match self {
            PacketType::ConnectionRequest => (HEADER_SIZE, HEADER_SIZE),
            PacketType::ConnectionAccepted => (HEADER_SIZE + 1, HEADER_SIZE + 1),
            PacketType::ConnectionKeepAlive => (HEADER_SIZE, HEADER_SIZE),
            PacketType::UserPayload => (HEADER_SIZE, PACKET_BUFFER_SIZE),
        }
    }

    /// `size` lies outside the valid sizes of this type.
    pub fn invalid_size(self, size: usize) -> (r: bool)
        ensures
            r == (size < size_range(self).0 || size > size_range(self).1),
    {
        let (min, max) = self.valid_size_range();
        size < min || size > max
    }

    pub fn code(self) -> (r: u8)
        ensures
            r == type_code(self),
    {
        match self {
            PacketType::ConnectionRequest => 0,
            PacketType::ConnectionAccepted => 3,
            PacketType::ConnectionKeepAlive => 4,
            PacketType::UserPayload => 5,
        }
    }

    pub fn from_code(c: u8) -> (r: Option<PacketType>)
        ensures
            r == type_of_code(c),
    {
        if c == 0 {
            Some(PacketType::ConnectionRequest)
        } else if c == 3 {
            Some(PacketType::ConnectionAccepted)
        } else if c == 4 {
            Some(PacketType::ConnectionKeepAlive)
        } else if c == 5 {
            Some(PacketType::UserPayload)
        } else {
            None
        }
    }
}

/// The 16-byte header that starts every packet.
#[derive(Clone, Copy, Debug)]
pub struct PacketHeader {
    /// The CRC-32 of the whole packet with this field set to `PROTOCOL_ID`.
    pub checksum: u32,
    /// Must equal `PROTOCOL_VERSION`.
    pub version: u16,
    /// Fixes the valid sizes of the packet.
    pub packet_type: PacketType,
    /// The sender's sequence number for this packet.
    pub seq: NetworkSeq,
    /// The latest sequence number the sender has received.
    pub ack: NetworkSeq,
    /// Bit `i` set: the sender has also received `ack - (i + 1)`.
    pub ack_bits: u32,
}

/// The wire form of a header.
pub open spec fn header_wire(h: PacketHeader) -> Seq<u8> {
    h.checksum.spec_to_le() + h.version.spec_to_le() + seq![type_code(h.packet_type), 0u8] + (
    h.seq@ as u16).spec_to_le() + (h.ack@ as u16).spec_to_le() + h.ack_bits.spec_to_le()
}

/// The first 16 bytes of `b` form a header: there are enough of them and the
/// type code is known.
pub open spec fn header_parses(b: Seq<u8>) -> bool {
    b.len() >= 16 && type_of_code(b[6]) is Some
}

/// `h` is the header that the first 16 bytes of `b` hold; sequence numbers
/// are taken modulo the size of the space.
pub open spec fn header_of(h: PacketHeader, b: Seq<u8>) -> bool {
    &&& h.checksum == u32::spec_from_le(b.subrange(0, 4))
    &&& h.version == u16::spec_from_le(b.subrange(4, 6))
    &&& type_of_code(b[6]) == Some(h.packet_type)
    &&& h.seq@ == u16::spec_from_le(b.subrange(8, 10)) % SEQ_COUNT
    &&& h.ack@ == u16::spec_from_le(b.subrange(10, 12)) % SEQ_COUNT
    &&& h.ack_bits == u32::spec_from_le(b.subrange(12, 16))
}

/// Two headers hold the same fields.
pub open spec fn same_header(a: PacketHeader, b: PacketHeader) -> bool {
    &&& a.checksum == b.checksum
    &&& a.version == b.version
    &&& a.packet_type == b.packet_type
    &&& a.seq@ == b.seq@
    &&& a.ack@ == b.ack@
    &&& a.ack_bits == b.ack_bits
}

impl Default for PacketHeader {
    fn default() -> (r: PacketHeader)
        ensures
            r.checksum == 0,
            r.version == 0,
            r.packet_type == PacketType::ConnectionRequest,
            r.seq@ == 0,
            r.ack@ == 0,
            r.ack_bits == 0,
    {
        PacketHeader {
            checksum: 0,
            version: 0,
            packet_type: PacketType::ConnectionRequest,
            seq: NetworkSeq::wrap(0),
            ack: NetworkSeq::wrap(0),
            ack_bits: 0,
        }
    }
}

impl PacketHeader {
    /// A header of the current version whose checksum field holds
    /// `PROTOCOL_ID`, to be replaced once the packet is complete.
    pub fn new(packet_type: PacketType, seq: NetworkSeq, ack: NetworkSeq, ack_bits: u32) -> (r:
        PacketHeader)
        ensures
            r.checksum == PROTOCOL_ID,
            r.version == PROTOCOL_VERSION,
            r.packet_type == packet_type,
            r.seq == seq,
            r.ack == ack,
            r.ack_bits == ack_bits,
    {
        PacketHeader { checksum: PROTOCOL_ID, version: PROTOCOL_VERSION, packet_type, seq, ack, ack_bits }
    }

    /// Writes the header at the cursor of `b`.
    pub fn write_to(&self, b: &mut Buffer)
        requires
            old(b).wf(),
            old(b).pos() + 16 <= old(b).end(),
        ensures
            final(b).wf(),
            final(b).bytes() == splice(old(b).bytes(), old(b).pos() as int, header_wire(*self)),
            final(b).end() == old(b).end(),
            final(b).pos() == old(b).pos() + 16,
    {
        let ghost b0 = old(b).bytes();
        let ghost at = old(b).pos() as int;
        let ghost w1 = self.checksum.spec_to_le();
        let ghost w2 = self.version.spec_to_le();
        let ghost w3 = seq![type_code(self.packet_type)];
        let ghost w4 = seq![0u8];
        let ghost w5 = (self.seq@ as u16).spec_to_le();
        let ghost w6 = (self.ack@ as u16).spec_to_le();
        let ghost w7 = self.ack_bits.spec_to_le();
        b.write(self.checksum);
        b.write(self.version);
        b.write(self.packet_type.code());
        b.write(0u8);
        b.write(self.seq.unwrap());
        b.write(self.ack.unwrap());
        b.write(self.ack_bits);
        proof {
            crate::endian::lemma_splice_twice(b0, at, w1, w2);
            crate::endian::lemma_splice_twice(b0, at, w1 + w2, w3);
            crate::endian::lemma_splice_twice(b0, at, w1 + w2 + w3, w4);
            crate::endian::lemma_splice_twice(b0, at, w1 + w2 + w3 + w4, w5);
            crate::endian::lemma_splice_twice(b0, at, w1 + w2 + w3 + w4 + w5, w6);
            crate::endian::lemma_splice_twice(b0, at, w1 + w2 + w3 + w4 + w5 + w6, w7);
            assert(w3 + w4 =~= seq![type_code(self.packet_type), 0u8]);
            assert(w1 + w2 + w3 + w4 + w5 + w6 + w7 =~= header_wire(*self));
        }
    }
}

/// A packet in the send buffer: when it was first sent, if it was, and its
/// bytes.
pub struct SendPacket {
    /// Milliseconds on the caller's clock; `None` until first sent.
    pub first_send_time: Option<u64>,
    pub buffer: Buffer,
}

impl SendPacket {
    pub fn new() -> (r: SendPacket)
        ensures
            r.first_send_time is None,
            r.buffer.wf(),
            r.buffer.bytes().len() == PACKET_BUFFER_SIZE,
    {
        SendPacket { first_send_time: None, buffer: Buffer::with_capacity(PACKET_BUFFER_SIZE) }
    }
}

impl DefaultArray for SendPacket {
    open spec fn fresh(&self) -> bool {
        self.buffer.wf() && self.buffer.bytes().len() == PACKET_BUFFER_SIZE
    }

    fn default_array(n: usize) -> (r: Vec<SendPacket>) {
        let mut v: Vec<SendPacket> = Vec::new();
        let mut i: usize = 0;
        while i < n
            invariant
                i <= n,
                v.len() == i,
                forall|j: int| 0 <= j < i ==> (#[trigger] v@[j]).fresh(),
            decreases n - i,
        {
            v.push(SendPacket::new());
            i = i + 1;
        }
        v
    }
}

/// A packet in the receive buffer: its header and its bytes.
pub struct ReceivePacket {
    pub header: PacketHeader,
    pub buffer: Buffer,
    /// Advisory only; the receive cursor of the endpoint decides what has
    /// been handled.
    pub handled: bool,
}

impl ReceivePacket {
    pub fn new() -> (r: ReceivePacket)
        ensures
            r.buffer.wf(),
            r.buffer.bytes().len() == PACKET_BUFFER_SIZE,
            r.buffer.end() == PACKET_BUFFER_SIZE,
    {
        ReceivePacket {
            header: PacketHeader::default(),
            buffer: Buffer::with_capacity(PACKET_BUFFER_SIZE),
            handled: false,
        }
    }
}

impl DefaultArray for ReceivePacket {
    open spec fn fresh(&self) -> bool {
        &&& self.buffer.wf()
        &&& self.buffer.bytes().len() == PACKET_BUFFER_SIZE
        &&& self.buffer.end() >= HEADER_SIZE
    }

    fn default_array(n: usize) -> (r: Vec<ReceivePacket>) {
        let mut v: Vec<ReceivePacket> = Vec::new();
        let mut i: usize = 0;
        while i < n
            invariant
                i <= n,
                v.len() == i,
                forall|j: int| 0 <= j < i ==> (#[trigger] v@[j]).fresh(),
            decreases n - i,
        {
            v.push(ReceivePacket::new());
            i = i + 1;
        }
        v
    }
}

/// The payload of a `ConnectionAccepted` packet: the slot the server gave
/// the client.
#[derive(Clone, Copy, Debug)]
pub struct ConnectionAcceptedPacket {
    pub index: u8,
}

impl ConnectionAcceptedPacket {
    /// The slot index, kept to its low byte as on the wire.
    pub fn new(index: usize) -> (r: ConnectionAcceptedPacket)
        ensures
            r.index == index as u8,
    {
        ConnectionAcceptedPacket { index: index as u8 }
    }
}

impl Streamable for ConnectionAcceptedPacket {
    open spec fn wire(&self) -> Seq<u8> {
        seq![self.index]
    }

    fn wire_len(&self) -> (r: usize) {
        1
    }

    open spec fn spec_blank() -> ConnectionAcceptedPacket {
        ConnectionAcceptedPacket { index: 0 }
    }

    fn blank() -> (r: ConnectionAcceptedPacket) {
        ConnectionAcceptedPacket { index: 0 }
    }

    open spec fn parse(b: Seq<u8>) -> Option<(ConnectionAcceptedPacket, nat)> {
        if b.len() >= 1 {
            Some((ConnectionAcceptedPacket { index: b[0] }, 1))
        } else {
            None
        }
    }

    proof fn lemma_parse_wire(&self, tail: Seq<u8>) {
        assert((seq![self.index] + tail)[0] == self.index);
    }

    fn stream<S: Stream>(&mut self, s: &mut S) -> (ok: bool) {
        let ghost b = s.buf();
        let ok = s.copy(&mut self.index);
        proof {
            if rest(b).len() >= 1 {
                assert(rest(b)[0] == b.bytes().subrange(b.pos() as int, (b.pos() + 1) as int)[0]);
            }
            assert(seq![self.index] =~= self.index.spec_to_le());
        }
        ok
    }
}

} // verus!
