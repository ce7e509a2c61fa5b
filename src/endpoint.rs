//! The reliable, ordered channel to one peer.

use vstd::prelude::*;
use crate::buffer::Buffer;
use crate::moving_average::{ema, lemma_ema_bounded, MovingAverage, AVERAGE_LIMIT};
use crate::packet::{
    header_wire, PacketHeader, PacketType, ReceivePacket, SendPacket, BYTES_PER_SEND,
    CONNECTION_TIMEOUT_MS, HEADER_SIZE, PACKET_BUFFER_SIZE, PACKET_RESEND_FRAME_INTERVAL,
    UDP_IP_HEADER_SIZE,
};
use crate::sequence::{
    seq_back, seq_dist, seq_forward, seq_less, seq_next, lemma_seq_dist, lemma_seq_dist_forward,
    lemma_seq_forward_step, lemma_seq_order_wraps,
    NetworkSeq, SEQ_COUNT, SEQ_MID_VALUE, SEQ_OUT_OF_BOUNDS,
};
use crate::sequence_buffer::SequenceBuffer;
use crate::stream::{fresh_header, rest, seal, ReadStream, Streamable, WriteStream};

verus! {

broadcast use crate::sequence::lemma_seq_in_space;

/// How far behind a newly received sequence number the stale receive slot
/// lies that is cleared as the window moves: the 32 acknowledged bits, the
/// sequence number itself, and some room. It must stay above 32 and below
/// `SEQ_COUNT`.
pub const STALE_OFFSET: u16 = ACK_BITS + 8;

/// The number of earlier sequence numbers that each packet acknowledges.
pub const ACK_BITS: u16 = 32;

/// The weight of a new round-trip sample in the average, in percent.
pub const RTT_ALPHA_PERCENT: u64 = 10;

/// The largest round-trip sample taken, in milliseconds.
pub const RTT_SAMPLE_LIMIT_MS: u64 = 1_000_000_000;

/// The address of a peer: an IPv6 address (IPv4 ones mapped into it) and a
/// port.
#[derive(Clone, Copy, Debug, PartialEq, Eq, Structural)]
pub struct PeerAddress {
    pub ip: u128,
    pub port: u16,
}

/// What one round of sending reports.
#[derive(Clone, Copy, Debug)]
pub struct EndpointSendStats {
    /// Bytes sent, without the UDP/IP headers.
    pub own_bytes_sent: u32,
    /// Bytes sent, with the UDP/IP headers.
    pub total_bytes_sent: u32,
    /// Bytes received, without the UDP/IP headers.
    pub own_bytes_received: u32,
    /// Bytes received, with the UDP/IP headers.
    pub total_bytes_received: u32,
    pub packets_created: u16,
    pub packets_received: u16,
    pub new_packets_received: u16,
    /// How long the oldest unacknowledged packet has waited, in milliseconds.
    pub max_rtt_ms: u64,
    /// The average round-trip time, in microseconds.
    pub rtt_avg_us: u64,
}

/// The outcome of a round of sending.
pub enum EndpointState {
    Running(EndpointSendStats),
    /// The oldest unacknowledged packet waited too long: the endpoint has
    /// been reset.
    ConnectionTimeout,
}

/// Bit `i` of `bits` is set.
pub open spec fn bit_set(bits: u32, i: int) -> bool {
    (bits >> (i as u32)) & 1u32 == 1u32
}

/// The acknowledgement bits for the first `n` sequence numbers before
/// `latest`: bit `i` is set when `rb` holds `latest - (i + 1)`.
pub open spec fn ack_bits_upto(rb: SequenceBuffer<ReceivePacket>, latest: int, n: nat) -> u32
    decreases n,
{
    if n == 0 {
        0
    } else {
        let prev = ack_bits_upto(rb, latest, (n - 1) as nat);
        if rb.has(seq_back(latest, n as int)) {
            prev | (1u32 << ((n - 1) as u32))
        } else {
            prev
        }
    }
}

/// The acknowledgement bits that go out with `latest`.
pub open spec fn ack_bits_of(rb: SequenceBuffer<ReceivePacket>, latest: int) -> u32 {
    ack_bits_upto(rb, latest, ACK_BITS as nat)
}

proof fn lemma_set_bit(x: u32, b: u32, i: u32)
    requires
        b < 32,
        i < 32,
    ensures
        ((x | (1u32 << b)) >> i) & 1u32 == if i == b {
            1u32
        } else {
            (x >> i) & 1u32
        },
{
    assert(((x | (1u32 << b)) >> i) & 1u32 == if i == b {
        1u32
    } else {
        (x >> i) & 1u32
    }) by (bit_vector)
        requires
            b < 32,
            i < 32,
    ;
}

proof fn lemma_zero_bits(i: u32)
    requires
        i < 32,
    ensures
        (0u32 >> i) & 1u32 == 0u32,
{
    assert((0u32 >> i) & 1u32 == 0u32) by (bit_vector);
}

/// Bit `i` of the bits for the first `n` sequence numbers is set exactly
/// when `i < n` and `rb` holds `latest - (i + 1)`.
proof fn lemma_ack_bits_upto(rb: SequenceBuffer<ReceivePacket>, latest: int, n: nat, i: int)
    requires
        n <= 32,
        0 <= i < 32,
    ensures
        bit_set(ack_bits_upto(rb, latest, n), i) == (i < n && rb.has(seq_back(latest, i + 1))),
    decreases n,
{
    if n == 0 {
        lemma_zero_bits(i as u32);
    } else {
        lemma_ack_bits_upto(rb, latest, (n - 1) as nat, i);
        let prev = ack_bits_upto(rb, latest, (n - 1) as nat);
        if rb.has(seq_back(latest, n as int)) {
            lemma_set_bit(prev, (n - 1) as u32, i as u32);
        }
    }
}

/// Bit `i` of the outgoing acknowledgement bits is set exactly when the
/// receive buffer holds `latest - (i + 1)`.
pub proof fn lemma_ack_bits_of(rb: SequenceBuffer<ReceivePacket>, latest: int, i: int)
    requires
        0 <= i < ACK_BITS,
    ensures
        bit_set(ack_bits_of(rb, latest), i) == rb.has(seq_back(latest, i + 1)),
{
    lemma_ack_bits_upto(rb, latest, ACK_BITS as nat, i);
}

/// `s` is `ack` or one of the first `n` sequence numbers before it whose
/// bit is set in `bits`.
pub open spec fn in_ack_prefix(ack: int, bits: u32, n: int, s: int) -> bool {
    s == ack || exists|i: int| 0 <= i < n && bit_set(bits, i) && s == #[trigger] seq_back(ack, i + 1)
}

/// `s` is one of the sequence numbers that the word `(ack, bits)`
/// acknowledges.
pub open spec fn in_ack_word(ack: int, bits: u32, s: int) -> bool {
    in_ack_prefix(ack, bits, ACK_BITS as int, s)
}

/// No sequence number of the first `n` of the word `(ack, bits)` has a sent
/// packet in `sends`.
pub open spec fn none_awaiting(sends: SequenceBuffer<SendPacket>, ack: int, bits: u32, n: int) -> bool {
    forall|s: int| 0 <= s < SEQ_COUNT ==> !(#[trigger] in_ack_prefix(ack, bits, n, s) && awaiting_ack(sends, s))
}

/// The send slot of `s` holds `s`, already sent: an acknowledgement of `s`
/// retires it.
pub open spec fn awaiting_ack(sb: SequenceBuffer<SendPacket>, s: int) -> bool {
    sb.has(s) && sb.item(s).first_send_time is Some
}

/// The receive slot of `s` holds a keep-alive packet.
pub open spec fn keep_alive_at(rb: SequenceBuffer<ReceivePacket>, s: int) -> bool {
    rb.has(s) && rb.item(s).header.packet_type == PacketType::ConnectionKeepAlive
}

/// The receive cursor moved from `from` to `to` over keep-alive packets
/// only, and stopped at the first slot that does not hold one (unless every
/// slot does).
pub open spec fn cursor_after_keep_alives(rb: SequenceBuffer<ReceivePacket>, from: int, to: int) -> bool {
    exists|d: int|
        #![trigger seq_forward(from, d)]
        0 <= d <= SEQ_COUNT && to == seq_forward(from, d) && (forall|k: int|
            0 <= k < d ==> keep_alive_at(rb, #[trigger] seq_forward(from, k))) && (d < SEQ_COUNT
            ==> !keep_alive_at(rb, to)) && (d == SEQ_COUNT ==> forall|i: int|
            0 <= i < SEQ_COUNT ==> #[trigger] keep_alive_at(rb, i))
}

/// `after` holds the same received packets as `before`; only the cursors
/// inside their buffers may differ.
pub open spec fn same_receives(before: SequenceBuffer<ReceivePacket>, after: SequenceBuffer<ReceivePacket>) -> bool {
    &&& after.stamps() == before.stamps()
    &&& forall|s: int|
        0 <= s < SEQ_COUNT ==> #[trigger] after.items()[s].header == before.items()[s].header
    &&& forall|s: int|
        0 <= s < SEQ_COUNT ==> (#[trigger] after.items()[s]).buffer.content() == before.items()[s].buffer.content()
    &&& forall|s: int|
        0 <= s < SEQ_COUNT ==> (#[trigger] after.items()[s]).buffer.end() == before.items()[s].buffer.end()
}

/// The application read one message: the receive cursor passed the
/// keep-alive packets to the first other packet. A packet of the `expected`
/// type is consumed; when its payload holds a `T` it is read into `t1` and
/// `res` is `Ok(true)`, else the target stays as it was and `res` reports a
/// malformed payload. A packet of another type is left in place and
/// reported with its type. With no packet at the cursor nothing is consumed
/// and `res` is `Ok(false)`.
pub open spec fn message_read<T: Streamable>(
    before: ReliableOrderedDatagramEndpoint,
    after: ReliableOrderedDatagramEndpoint,
    expected: PacketType,
    t0: T,
    t1: T,
    res: Result<bool, ReadError>,
) -> bool {
    &&& exists|f: int|
        #![trigger cursor_after_keep_alives(before.receives(), before.first_receive(), f)]
        cursor_after_keep_alives(before.receives(), before.first_receive(), f) && if before.receives().has(
            f,
        ) && !keep_alive_at(before.receives(), f) {
            if before.receives().item(f).header.packet_type == expected {
                &&& after.first_receive() == seq_next(f)
                &&& match T::parse(before.payload(f)) {
                    Some((v, n)) => res == Ok::<bool, ReadError>(true) && t1 == v,
                    None => res == Err::<bool, ReadError>(ReadError::MalformedPayload) && t1 == t0,
                }
            } else {
                &&& after.first_receive() == f
                &&& res == Err::<bool, ReadError>(ReadError::UnexpectedPacket(before.receives().item(f).header.packet_type))
                &&& t1 == t0
            }
        } else {
            after.first_receive() == f && res == Ok::<bool, ReadError>(false) && t1 == t0
        }
    &&& same_receives(before.receives(), after.receives())
    &&& after.sends() == before.sends()
    &&& after.first_send() == before.first_send()
    &&& after.next_send() == before.next_send()
    &&& after.latest() == before.latest()
    &&& after.rtt_avg() == before.rtt_avg()
    &&& after.packets_created() == before.packets_created()
    &&& after.peer() == before.peer()
    &&& same_counts(before, after)
}

/// The oldest unacknowledged sequence number moved from `from` to `to`
/// toward `ack`: past every slot already retired, stopping at the first one
/// still outstanding, at `ack`, or at `next`, the sequence number the next
/// packet gets, which it never passes.
pub open spec fn send_head_advanced(
    sb: SequenceBuffer<SendPacket>,
    from: int,
    to: int,
    ack: int,
    next: int,
) -> bool {
    exists|d: int|
        #![trigger seq_forward(from, d)]
        0 <= d < SEQ_COUNT && to == seq_forward(from, d) && (forall|k: int|
            0 <= k < d ==> !sb.has(#[trigger] seq_forward(from, k)) && seq_less(
                seq_forward(from, k),
                ack,
            ) && seq_forward(from, k) != next) && !(seq_less(to, ack) && to != next && !sb.has(to))
}

/// The send side after the acknowledgement word `(ack, bits)`: every
/// acknowledged packet that was sent is retired from its slot, the average
/// round-trip time moves only if one was, and the oldest unacknowledged
/// sequence number advances past retired slots toward `ack`.
pub open spec fn ack_applied(
    sends: SequenceBuffer<SendPacket>,
    first: int,
    rtt: u64,
    sends2: SequenceBuffer<SendPacket>,
    first2: int,
    rtt2: u64,
    ack: int,
    bits: u32,
    now: u64,
    next: int,
) -> bool {
    &&& sends2.items() == sends.items()
    &&& sends2.stamps().len() == sends.stamps().len()
    &&& forall|s: int|
        0 <= s < SEQ_COUNT ==> #[trigger] sends2.stamps()[s] == if in_ack_word(ack, bits, s)
            && awaiting_ack(sends, s) {
            SEQ_OUT_OF_BOUNDS
        } else {
            sends.stamps()[s]
        }
    &&& none_awaiting(sends, ack, bits, ACK_BITS as int) ==> rtt2 == rtt
    &&& rtt2 == rtt_after_word(sends, ack, bits, now, rtt, ACK_BITS as nat)
    &&& rtt2 <= AVERAGE_LIMIT
    &&& send_head_advanced(sends2, first, first2, ack, next)
}

proof fn lemma_bit_test(x: u32, b: u32)
    requires
        b < 32,
    ensures
        ((x & (1u32 << b)) != 0u32) == ((x >> b) & 1u32 == 1u32),
{
    assert(((x & (1u32 << b)) != 0u32) == ((x >> b) & 1u32 == 1u32)) by (bit_vector)
        requires
            b < 32,
    ;
}

/// Taking in bit `n` adds its sequence number to the prefix, if it is set.
proof fn lemma_ack_prefix_step(ack: int, bits: u32, n: int)
    requires
        0 <= n < ACK_BITS,
    ensures
        forall|s: int|
            #[trigger] in_ack_prefix(ack, bits, n + 1, s) == (in_ack_prefix(ack, bits, n, s) || (
            bit_set(bits, n) && s == seq_back(ack, n + 1))),
{
    assert forall|s: int|
        #[trigger] in_ack_prefix(ack, bits, n + 1, s) == (in_ack_prefix(ack, bits, n, s) || (bit_set(
            bits,
            n,
        ) && s == seq_back(ack, n + 1))) by {
        if in_ack_prefix(ack, bits, n + 1, s) && s != ack {
            let i = choose|i: int|
                0 <= i < n + 1 && bit_set(bits, i) && s == #[trigger] seq_back(ack, i + 1);
            if i < n {
                assert(in_ack_prefix(ack, bits, n, s));
            }
        }
        if in_ack_prefix(ack, bits, n, s) && s != ack {
            let i = choose|i: int| 0 <= i < n && bit_set(bits, i) && s == #[trigger] seq_back(ack, i + 1);
            assert(in_ack_prefix(ack, bits, n + 1, s));
        }
        if bit_set(bits, n) && s == seq_back(ack, n + 1) {
            assert(in_ack_prefix(ack, bits, n + 1, s));
        }
    }
}

/// A longer prefix with nothing awaiting leaves a shorter one with nothing
/// awaiting.
proof fn lemma_none_awaiting_step(sends: SequenceBuffer<SendPacket>, ack: int, bits: u32, n: int)
    requires
        0 <= n < ACK_BITS,
    ensures
        none_awaiting(sends, ack, bits, n + 1) ==> none_awaiting(sends, ack, bits, n),
{
    lemma_ack_prefix_step(ack, bits, n);
    if none_awaiting(sends, ack, bits, n + 1) {
        assert forall|s: int| 0 <= s < SEQ_COUNT implies !(#[trigger] in_ack_prefix(ack, bits, n, s)
            && awaiting_ack(sends, s)) by {
            assert(in_ack_prefix(ack, bits, n, s) ==> in_ack_prefix(ack, bits, n + 1, s));
        }
    }
}

/// The receive stamps after a packet with sequence number `seq` advanced
/// the latest received sequence number from `latest`: the slot
/// `STALE_OFFSET` behind `seq` is cleared if `seq` is newer.
pub open spec fn stamps_after_advance(stamps: Seq<u16>, latest: int, seq: int) -> Seq<u16> {
    if seq_less(latest, seq) {
        stamps.update(seq_back(seq, STALE_OFFSET as int), SEQ_OUT_OF_BOUNDS)
    } else {
        stamps
    }
}

/// A packet with sequence number `seq` is kept: the application has not
/// consumed past it.
pub open spec fn is_new_packet(seq: int, first_receive: int) -> bool {
    !seq_less(seq, first_receive)
}

/// `after` is `before` with one more packet queued: of type `packet_type`,
/// carrying `payload`, under the next sequence number, not yet sent.
pub open spec fn packet_queued(
    before: ReliableOrderedDatagramEndpoint,
    after: ReliableOrderedDatagramEndpoint,
    packet_type: PacketType,
    payload: Seq<u8>,
) -> bool {
    &&& after.next_send() == seq_next(before.next_send())
    &&& after.first_send() == before.first_send()
    &&& after.window() == before.window() + 1
    &&& after.receives() == before.receives()
    &&& after.latest() == before.latest()
    &&& after.first_receive() == before.first_receive()
    &&& after.rtt_avg() == before.rtt_avg()
    &&& after.peer() == before.peer()
    &&& after.packets_created() > 0
    &&& same_counts(before, after)
    &&& after.sends().stamps() == before.sends().stamps().update(
        before.next_send(),
        before.next_send() as u16,
    )
    &&& forall|i: int|
        0 <= i < SEQ_COUNT && i != before.next_send() ==> #[trigger] after.sends().items()[i]
            == before.sends().items()[i]
    &&& after.sends().item(before.next_send()).first_send_time is None
    &&& after.sends().item(before.next_send()).buffer.written() == seal(
        header_wire(
            fresh_header(
                packet_type,
                before.next_seq(),
                before.latest(),
                ack_bits_of(before.receives(), before.latest_receive()),
            ),
        ) + payload,
    )
}

/// The send slot of `s` holds a packet due this round: one not yet sent,
/// or one sent before whose sequence number falls on the round's resend
/// interval, counted from `first`.
pub open spec fn due(sb: SequenceBuffer<SendPacket>, first: int, s: int) -> bool {
    &&& sb.has(s)
    &&& (sb.item(s).first_send_time is None || s % (PACKET_RESEND_FRAME_INTERVAL as int) == first
        % (PACKET_RESEND_FRAME_INTERVAL as int))
}

/// What sending the packet in the send slot of `s` costs of the budget: its
/// bytes and the UDP/IP header.
pub open spec fn send_cost(sb: SequenceBuffer<SendPacket>, s: int) -> int {
    sb.item(s).buffer.pos() + UDP_IP_HEADER_SIZE
}

/// The packets that a round sends from offset `j` of the window on, with
/// `used` bytes of the budget already spent: each due packet, in window
/// order, whose cost still fits in the budget. Gives their sequence numbers
/// and the bytes spent in the end.
pub open spec fn send_plan(
    sb: SequenceBuffer<SendPacket>,
    first: int,
    window: int,
    j: int,
    used: int,
) -> (Seq<int>, int)
    decreases window - j,
{
    if j < 0 || j >= window {
        (Seq::empty(), used)
    } else {
        let s = seq_forward(first, j);
        if due(sb, first, s) && used + send_cost(sb, s) <= BYTES_PER_SEND {
            let rest = send_plan(sb, first, window, j + 1, used + send_cost(sb, s));
            (seq![s] + rest.0, rest.1)
        } else {
            send_plan(sb, first, window, j + 1, used)
        }
    }
}

/// The send slot `i` after a round at time `now`: a packet in the window
/// sent for the first time gets `now` as its first send time.
pub open spec fn stamped(
    sb: SequenceBuffer<SendPacket>,
    first: int,
    window: int,
    now: u64,
    i: int,
) -> SendPacket {
    if seq_dist(first, i) < window && sb.has(i) && sb.items()[i].first_send_time is None {
        SendPacket { first_send_time: Some(now), buffer: sb.items()[i].buffer }
    } else {
        sb.items()[i]
    }
}

/// Some packet in the window has waited at least the connection timeout
/// since it was first sent.
pub open spec fn timed_out(sb: SequenceBuffer<SendPacket>, first: int, window: int, now: u64) -> bool {
    exists|i: int|
        0 <= i < SEQ_COUNT && seq_dist(first, i) < window && #[trigger] sb.has(i) && (
        sb.items()[i].first_send_time matches Some(t) && now >= t + CONNECTION_TIMEOUT_MS)
}

/// `after` is `before` after the keep-alive step of a round: a keep-alive
/// packet is queued when no packet was created since the last round and
/// the window has room.
pub open spec fn keep_alive_step(
    before: ReliableOrderedDatagramEndpoint,
    after: ReliableOrderedDatagramEndpoint,
) -> bool {
    if before.packets_created() == 0 && before.window() < SEQ_COUNT - 1 {
        packet_queued(before, after, PacketType::ConnectionKeepAlive, Seq::empty())
    } else {
        after == before
    }
}

/// `after`, the datagrams `out1` and the outcome `result` are what a round
/// of transmission at time `now` makes of `before` and the datagrams `out0`:
/// the planned packets are appended in plan order, packets sent for the
/// first time are stamped, and the connection is reset when a packet waited
/// too long.
pub open spec fn transmitted(
    before: ReliableOrderedDatagramEndpoint,
    after: ReliableOrderedDatagramEndpoint,
    now: u64,
    out0: Seq<Vec<u8>>,
    out1: Seq<Vec<u8>>,
    result: EndpointState,
) -> bool {
    let first = before.first_send();
    let window = before.window();
    let plan = send_plan(before.sends(), first, window, 0, 0);
    &&& out1.len() == out0.len() + plan.0.len()
    &&& forall|k: int| 0 <= k < out0.len() ==> out1[k] == out0[k]
    &&& forall|k: int|
        0 <= k < plan.0.len() ==> (#[trigger] out1[out0.len() + k])@ == before.sends().item(
            plan.0[k],
        ).buffer.written()
    &&& after.sends().items() == Seq::new(
        SEQ_COUNT as nat,
        |i: int| stamped(before.sends(), first, window, now, i),
    )
    &&& after.receives().items() == before.receives().items()
    &&& after.first_send() == before.first_send()
    &&& after.next_send() == before.next_send()
    &&& after.latest() == before.latest()
    &&& after.first_receive() == before.first_receive()
    &&& after.peer() == before.peer()
    &&& after.packets_created() == 0
    &&& after.packets_received() == 0
    &&& after.new_packets_received() == 0
    &&& after.own_bytes_received() == 0
    &&& after.total_bytes_received() == 0
    &&& if timed_out(before.sends(), first, window, now) {
        &&& result is ConnectionTimeout
        &&& forall|i: int| 0 <= i < SEQ_COUNT ==> after.sends().stamps()[i] == SEQ_OUT_OF_BOUNDS
        &&& forall|i: int| 0 <= i < SEQ_COUNT ==> after.receives().stamps()[i] == SEQ_OUT_OF_BOUNDS
        &&& after.rtt_avg() == 0
    } else {
        &&& result matches EndpointState::Running(stats) && {
            &&& stats.total_bytes_sent == plan.1
            &&& stats.own_bytes_sent + UDP_IP_HEADER_SIZE * plan.0.len() == plan.1
            &&& stats.packets_created == before.packets_created()
            &&& stats.packets_received == before.packets_received()
            &&& stats.new_packets_received == before.new_packets_received()
            &&& stats.own_bytes_received == before.own_bytes_received()
            &&& stats.total_bytes_received == before.total_bytes_received()
            &&& stats.rtt_avg_us == before.rtt_avg()
            &&& stats.max_rtt_ms <= now
            &&& forall|i: int|
                0 <= i < SEQ_COUNT && seq_dist(first, i) < window && #[trigger] before.sends().has(i)
                    ==> (before.sends().items()[i].first_send_time matches Some(t) ==> t
                    >= now - stats.max_rtt_ms)
            &&& stats.max_rtt_ms == 0 || exists|i: int|
                0 <= i < SEQ_COUNT && seq_dist(first, i) < window && #[trigger] before.sends().has(i)
                    && before.sends().items()[i].first_send_time == Some((now - stats.max_rtt_ms) as u64)
        }
        &&& after.sends().stamps() == before.sends().stamps()
        &&& after.receives().stamps() == before.receives().stamps()
        &&& after.rtt_avg() == before.rtt_avg()
    }
}

/// `after` is `before` once the packet with `header`, whose bytes are
/// `arrived`, was taken in: the latest received sequence number advances to
/// it if it is newer (clearing the stale slot behind it), the packet is kept
/// in its slot unless the application has consumed past it, and its
/// acknowledgements apply to the send side.
pub open spec fn packet_received(
    before: ReliableOrderedDatagramEndpoint,
    after: ReliableOrderedDatagramEndpoint,
    header: PacketHeader,
    arrived: Buffer,
    now: u64,
) -> bool {
    &&& after.latest_receive() == if seq_less(before.latest_receive(), header.seq@) {
        header.seq@
    } else {
        before.latest_receive()
    }
    &&& after.receives().stamps() == if is_new_packet(header.seq@, before.first_receive()) {
        stamps_after_advance(before.receives().stamps(), before.latest_receive(), header.seq@).update(
            header.seq@,
            header.seq@ as u16,
        )
    } else {
        stamps_after_advance(before.receives().stamps(), before.latest_receive(), header.seq@)
    }
    &&& after.receives().items() == if is_new_packet(header.seq@, before.first_receive()) {
        before.receives().items().update(
            header.seq@,
            ReceivePacket {
                header,
                buffer: arrived,
                handled: before.receives().item(header.seq@).handled,
            },
        )
    } else {
        before.receives().items()
    }
    &&& ack_applied(
        before.sends(),
        before.first_send(),
        before.rtt_avg(),
        after.sends(),
        after.first_send(),
        after.rtt_avg(),
        header.ack@,
        header.ack_bits,
        now,
        before.next_send(),
    )
    &&& after.next_send() == before.next_send()
    &&& after.first_receive() == before.first_receive()
    &&& after.packets_created() == before.packets_created()
    &&& after.peer() == before.peer()
    &&& after.packets_received() == saturate_u16(before.packets_received() + 1)
    &&& after.new_packets_received() == if is_new_packet(header.seq@, before.first_receive()) {
        saturate_u16(before.new_packets_received() + 1)
    } else {
        before.new_packets_received()
    }
    &&& after.own_bytes_received() == saturate_u32(before.own_bytes_received() + arrived.end())
    &&& after.total_bytes_received() == saturate_u32(
        before.total_bytes_received() + arrived.end() + UDP_IP_HEADER_SIZE,
    )
}

/// `e` is an endpoint just made for the peer at `address`: every sequence
/// number 0, every slot empty, no round-trip time, nothing counted.
pub open spec fn is_fresh(e: ReliableOrderedDatagramEndpoint, address: PeerAddress) -> bool {
    &&& e.peer() == address
    &&& e.first_send() == 0
    &&& e.next_send() == 0
    &&& e.latest_receive() == 0
    &&& e.first_receive() == 0
    &&& e.rtt_avg() == 0
    &&& e.packets_created() == 0
    &&& e.packets_received() == 0
    &&& e.new_packets_received() == 0
    &&& e.own_bytes_received() == 0
    &&& e.total_bytes_received() == 0
    &&& forall|s: int| 0 <= s < SEQ_COUNT ==> !e.sends().has(s) && !e.receives().has(s)
}

/// The round-trip sample, in microseconds, of a packet first sent at `t`
/// and acknowledged at `now`; both in milliseconds.
pub open spec fn rtt_sample_us(t: u64, now: u64) -> int {
    let ms = if now >= t {
        now - t
    } else {
        0
    };
    (if ms > RTT_SAMPLE_LIMIT_MS {
        RTT_SAMPLE_LIMIT_MS as int
    } else {
        ms
    }) * 1000
}

/// The average round-trip time after an acknowledgement of `s`: a sent
/// packet there folds its sample in with weight `RTT_ALPHA_PERCENT`.
pub open spec fn rtt_after_ack(sb: SequenceBuffer<SendPacket>, s: int, now: u64, rtt: u64) -> u64 {
    if awaiting_ack(sb, s) {
        ema(rtt as int, rtt_sample_us(sb.item(s).first_send_time->0, now), RTT_ALPHA_PERCENT as int) as u64
    } else {
        rtt
    }
}

/// The average round-trip time after `ack` and the first `n` bits of the
/// word `(ack, bits)` are acknowledged in order.
pub open spec fn rtt_after_word(
    sb: SequenceBuffer<SendPacket>,
    ack: int,
    bits: u32,
    now: u64,
    rtt: u64,
    n: nat,
) -> u64
    decreases n,
{
    if n == 0 {
        rtt_after_ack(sb, ack, now, rtt)
    } else {
        let prev = rtt_after_word(sb, ack, bits, now, rtt, (n - 1) as nat);
        if bit_set(bits, n - 1) {
            rtt_after_ack(sb, seq_back(ack, n as int), now, prev)
        } else {
            prev
        }
    }
}

/// `x` held to the range of a `u16`, as a saturating addition leaves it.
pub open spec fn saturate_u16(x: int) -> u16 {
    if x > u16::MAX {
        u16::MAX
    } else {
        x as u16
    }
}

/// `x` held to the range of a `u32`, as a saturating addition leaves it.
pub open spec fn saturate_u32(x: int) -> u32 {
    if x > u32::MAX {
        u32::MAX
    } else {
        x as u32
    }
}

/// `a` and `b` hold the same receive counters.
pub open spec fn same_counts(a: ReliableOrderedDatagramEndpoint, b: ReliableOrderedDatagramEndpoint) -> bool {
    &&& b.packets_received() == a.packets_received()
    &&& b.new_packets_received() == a.new_packets_received()
    &&& b.own_bytes_received() == a.own_bytes_received()
    &&& b.total_bytes_received() == a.total_bytes_received()
}

/// Why a read delivered no message although a packet was at the cursor.
#[derive(Clone, Copy, Debug, PartialEq, Eq, Structural)]
pub enum ReadError {
    /// A packet of this type, not the one expected, is at the cursor; it is
    /// left there.
    UnexpectedPacket(PacketType),
    /// The expected packet's payload does not hold a message of the type
    /// read; the packet is consumed.
    MalformedPayload,
}

/// The per-peer channel state.
pub struct ReliableOrderedDatagramEndpoint {
    pub address: PeerAddress,
    send_buffer: SequenceBuffer<SendPacket>,
    first_send_seq: NetworkSeq,
    next_send_seq: NetworkSeq,
    receive_buffer: SequenceBuffer<ReceivePacket>,
    latest_receive_seq: NetworkSeq,
    first_receive_seq: NetworkSeq,
    rtt_avg_us: u64,
    own_bytes_received_since_last_send: u32,
    total_bytes_received_since_last_send: u32,
    packets_created_since_last_send: u16,
    packets_received_since_last_send: u16,
    new_packets_received_since_last_send: u16,
}

impl ReliableOrderedDatagramEndpoint {
    /// The address of the peer.
    pub closed spec fn peer(&self) -> PeerAddress {
        self.address
    }

    /// The send slots.
    pub closed spec fn sends(&self) -> SequenceBuffer<SendPacket> {
        self.send_buffer
    }

    /// The receive slots.
    pub closed spec fn receives(&self) -> SequenceBuffer<ReceivePacket> {
        self.receive_buffer
    }

    /// The oldest sequence number not yet acknowledged by the peer.
    pub closed spec fn first_send(&self) -> int {
        self.first_send_seq@
    }

    /// The sequence number the next packet gets.
    pub closed spec fn next_seq(&self) -> NetworkSeq {
        self.next_send_seq
    }

    /// The sequence number the next packet gets, as a number.
    pub open spec fn next_send(&self) -> int {
        self.next_seq()@
    }

    /// The latest sequence number received from the peer.
    pub closed spec fn latest(&self) -> NetworkSeq {
        self.latest_receive_seq
    }

    /// The latest sequence number received from the peer, as a number.
    pub open spec fn latest_receive(&self) -> int {
        self.latest()@
    }

    /// The sequence number the application consumes next.
    pub closed spec fn first_receive(&self) -> int {
        self.first_receive_seq@
    }

    /// The average round-trip time, in microseconds.
    pub closed spec fn rtt_avg(&self) -> u64 {
        self.rtt_avg_us
    }

    /// Packets created since the last round of sending.
    pub closed spec fn packets_created(&self) -> u16 {
        self.packets_created_since_last_send
    }

    /// Packets received since the last round of sending.
    pub closed spec fn packets_received(&self) -> u16 {
        self.packets_received_since_last_send
    }

    /// Packets received since the last round of sending that were kept.
    pub closed spec fn new_packets_received(&self) -> u16 {
        self.new_packets_received_since_last_send
    }

    /// Bytes received since the last round of sending, without the UDP/IP
    /// headers.
    pub closed spec fn own_bytes_received(&self) -> u32 {
        self.own_bytes_received_since_last_send
    }

    /// Bytes received since the last round of sending, with the UDP/IP
    /// headers.
    pub closed spec fn total_bytes_received(&self) -> u32 {
        self.total_bytes_received_since_last_send
    }

    /// The number of sequence numbers from the oldest unacknowledged one up
    /// to the next one to be given out.
    pub open spec fn window(&self) -> int {
        (self.next_send() - self.first_send()) % (SEQ_COUNT as int)
    }

    /// The payload of the received packet in the receive slot of `s`.
    pub open spec fn payload(&self, s: int) -> Seq<u8> {
        self.receives().item(s).buffer.content().subrange(
            HEADER_SIZE as int,
            self.receives().item(s).buffer.end() as int,
        )
    }

    pub open spec fn wf(&self) -> bool {
        &&& self.sends().wf()
        &&& self.receives().wf()
        &&& forall|i: int|
            0 <= i < SEQ_COUNT ==> {
                &&& (#[trigger] self.sends().items()[i]).buffer.wf()
                &&& self.sends().items()[i].buffer.bytes().len() == PACKET_BUFFER_SIZE
            }
        &&& forall|i: int|
            0 <= i < SEQ_COUNT ==> {
                &&& (#[trigger] self.receives().items()[i]).buffer.wf()
                &&& self.receives().items()[i].buffer.bytes().len() == PACKET_BUFFER_SIZE
                &&& self.receives().items()[i].buffer.end() >= HEADER_SIZE
            }
        &&& forall|i: int|
            0 <= i < SEQ_COUNT && #[trigger] self.receives().has(i) ==> self.receives().items()[i].header.seq@
                == i
        &&& self.rtt_avg() <= AVERAGE_LIMIT
    }

    /// A fresh endpoint for the peer at `address`: every slot empty, every
    /// sequence number 0.
    pub fn new(address: PeerAddress) -> (r: ReliableOrderedDatagramEndpoint)
        ensures
            r.wf(),
            is_fresh(r, address),
            r.peer() == address,
            r.first_send() == 0,
            r.next_send() == 0,
            r.latest_receive() == 0,
            r.first_receive() == 0,
            r.rtt_avg() == 0,
            r.packets_created() == 0,
            forall|s: int| 0 <= s < SEQ_COUNT ==> !r.sends().has(s) && !r.receives().has(s),
    {
        let send_buffer: SequenceBuffer<SendPacket> = SequenceBuffer::new();
        let receive_buffer: SequenceBuffer<ReceivePacket> = SequenceBuffer::new();
        let r = ReliableOrderedDatagramEndpoint {
            address,
            send_buffer,
            first_send_seq: NetworkSeq::wrap(0),
            next_send_seq: NetworkSeq::wrap(0),
            receive_buffer,
            latest_receive_seq: NetworkSeq::wrap(0),
            first_receive_seq: NetworkSeq::wrap(0),
            rtt_avg_us: 0,
            own_bytes_received_since_last_send: 0,
            total_bytes_received_since_last_send: 0,
            packets_created_since_last_send: 0,
            packets_received_since_last_send: 0,
            new_packets_received_since_last_send: 0,
        };
        r
    }

    /// The oldest sequence number not yet acknowledged by the peer.
    pub fn first_send_sequence(&self) -> (r: NetworkSeq)
        ensures
            r@ == self.first_send(),
    {
        self.first_send_seq
    }

    /// The sequence number the next packet gets.
    pub fn next_send_sequence(&self) -> (r: NetworkSeq)
        ensures
            r == self.next_seq(),
    {
        self.next_send_seq
    }

    /// The sequence number the application consumes next.
    pub fn first_receive_sequence(&self) -> (r: NetworkSeq)
        ensures
            r@ == self.first_receive(),
    {
        self.first_receive_seq
    }

    /// The average round-trip time, in microseconds.
    pub fn rtt_average_us(&self) -> (r: u64)
        ensures
            r == self.rtt_avg(),
    {
        self.rtt_avg_us
    }

    /// The address of the peer.
    pub fn peer_address(&self) -> (r: PeerAddress)
        ensures
            r == self.peer(),
    {
        self.address
    }

    /// There is room for one more packet in the send window.
    pub fn can_write(&self) -> (r: bool)
        ensures
            r == (self.window() < SEQ_COUNT - 1),
    {
        let w = self.next_send_seq.wrapping_sub(self.first_send_seq.unwrap());
        w.unwrap() < SEQ_COUNT - 1
    }

    /// The acknowledgement bits for the packets received before the latest
    /// one.
    fn remote_ack_bits(&self) -> (r: u32)
        requires
            self.wf(),
        ensures
            r == ack_bits_of(self.receives(), self.latest_receive()),
    {
        let mut bits: u32 = 0;
        let mut bit: u16 = 0;
        while bit < ACK_BITS
            invariant
                self.wf(),
                bit <= ACK_BITS,
                bits == ack_bits_upto(self.receives(), self.latest_receive(), bit as nat),
            decreases ACK_BITS - bit,
        {
            let seq = self.latest_receive_seq.wrapping_sub(bit + 1);
            if self.receive_buffer.contains(seq) {
                bits = bits | (1u32 << bit);
            }
            bit = bit + 1;
        }
        bits
    }

    /// Queues a packet of `packet_type` carrying `message`: it gets the next
    /// sequence number, the current acknowledgement state and its checksum,
    /// and waits in its send slot to be sent. Returns its sequence number.
    #[verifier::rlimit(50)]
    pub fn write_packet<T: Streamable>(&mut self, packet_type: PacketType, message: &mut T) -> (seq:
        NetworkSeq)
        requires
            old(self).wf(),
            old(self).window() < SEQ_COUNT - 1,
            HEADER_SIZE + old(message).wire().len() <= PACKET_BUFFER_SIZE,
        ensures
            final(self).wf(),
            *final(message) == *old(message),
            seq == old(self).next_seq(),
            packet_queued(*old(self), *final(self), packet_type, old(message).wire()),
    {
        let seq = self.next_send_seq;
        let ack = self.latest_receive_seq;
        let ack_bits = self.remote_ack_bits();
        self.next_send_seq.wrapping_increment();
        let packet = self.send_buffer.mark_valid(seq);
        packet.first_send_time = None;
        let mut w = WriteStream(Buffer::with_capacity(0));
        std::mem::swap(&mut w.0, &mut packet.buffer);
        let ghost b0 = w.0.bytes();
        w.init_packet(packet_type, seq, ack, ack_bits);
        let ghost hw = header_wire(fresh_header(packet_type, seq, ack, ack_bits));
        let ghost mw = message.wire();
        let ok = message.stream(&mut w);
        w.finish_packet();
        proof {
            crate::endian::lemma_splice_twice(b0, 0, hw, mw);
            crate::endian::lemma_splice_read(b0, 0, hw + mw);
        }
        std::mem::swap(&mut w.0, &mut packet.buffer);
        self.packets_created_since_last_send = self.packets_created_since_last_send.saturating_add(1);
        seq
    }

    /// Queues a packet of `packet_type` with no payload.
    pub fn create_packet(&mut self, packet_type: PacketType) -> (seq: NetworkSeq)
        requires
            old(self).wf(),
            old(self).window() < SEQ_COUNT - 1,
        ensures
            final(self).wf(),
            seq == old(self).next_seq(),
            packet_queued(*old(self), *final(self), packet_type, Seq::empty()),
    {
        let mut empty = ();
        self.write_packet(packet_type, &mut empty)
    }

    /// The application is done with the message at the receive cursor.
    pub fn mark_handled(&mut self)
        ensures
            final(self).first_receive() == seq_next(old(self).first_receive()),
            final(self).sends() == old(self).sends(),
            final(self).receives() == old(self).receives(),
            final(self).first_send() == old(self).first_send(),
            final(self).next_send() == old(self).next_send(),
            final(self).latest() == old(self).latest(),
            final(self).rtt_avg() == old(self).rtt_avg(),
            final(self).packets_created() == old(self).packets_created(),
            same_counts(*old(self), *final(self)),
            final(self).peer() == old(self).peer(),
            old(self).wf() ==> final(self).wf(),
    {
        self.first_receive_seq.wrapping_increment();
    }

    /// The next message for the application: keep-alive packets at the
    /// receive cursor are consumed on the way; the header of the packet then
    /// at the cursor is returned, if that slot holds it.
    pub fn peek_message(&mut self) -> (r: Option<PacketHeader>)
        requires
            old(self).wf(),
        ensures
            final(self).wf(),
            final(self).sends() == old(self).sends(),
            final(self).receives() == old(self).receives(),
            final(self).first_send() == old(self).first_send(),
            final(self).next_send() == old(self).next_send(),
            final(self).latest() == old(self).latest(),
            final(self).rtt_avg() == old(self).rtt_avg(),
            final(self).packets_created() == old(self).packets_created(),
            same_counts(*old(self), *final(self)),
            final(self).peer() == old(self).peer(),
            cursor_after_keep_alives(
                old(self).receives(),
                old(self).first_receive(),
                final(self).first_receive(),
            ),
            r is None ==> !old(self).receives().has(final(self).first_receive()) || forall|i: int|
                0 <= i < SEQ_COUNT ==> #[trigger] keep_alive_at(old(self).receives(), i),
            r matches Some(h) ==> {
                &&& old(self).receives().has(final(self).first_receive())
                &&& h == old(self).receives().item(final(self).first_receive()).header
                &&& h.packet_type != PacketType::ConnectionKeepAlive
            },
    {
        let ghost start = self.first_receive_seq@;
        let mut skipped: u16 = 0;
        while skipped < SEQ_COUNT
            invariant
                self.wf(),
                self.sends() == old(self).sends(),
                self.receives() == old(self).receives(),
                self.first_send() == old(self).first_send(),
                self.next_send() == old(self).next_send(),
                self.latest() == old(self).latest(),
                self.rtt_avg() == old(self).rtt_avg(),
                self.packets_created() == old(self).packets_created(),
                same_counts(*old(self), *self),
                self.peer() == old(self).peer(),
                start == old(self).first_receive(),
                0 <= start < SEQ_COUNT,
                skipped <= SEQ_COUNT,
                self.first_receive() == seq_forward(start, skipped as int),
                forall|k: int|
                    0 <= k < skipped ==> keep_alive_at(
                        old(self).receives(),
                        #[trigger] seq_forward(start, k),
                    ),
            decreases SEQ_COUNT - skipped,
        {
            let seq = self.first_receive_seq;
            match self.receive_buffer.get(seq) {
                Some(packet) => {
                    if packet.header.packet_type == PacketType::ConnectionKeepAlive {
                        self.mark_handled();
                        skipped = skipped + 1;
                    } else {
                        let h = packet.header;
                        proof {
                            assert(self.first_receive() == seq_forward(start, skipped as int));
                        }
                        return Some(h);
                    }
                },
                None => {
                    proof {
                        assert(self.first_receive() == seq_forward(start, skipped as int));
                    }
                    return None;
                },
            }
        }
        proof {
            assert forall|i: int| 0 <= i < SEQ_COUNT implies #[trigger] keep_alive_at(
                old(self).receives(),
                i,
            ) by {
                lemma_seq_dist_forward(start, i);
                lemma_seq_dist(start, i);
            }
        }
        None
    }

    /// Reads a `T` from the payload of the packet at the receive cursor,
    /// leaving the channel state as it is.
    pub fn stream_message<T: Streamable>(&mut self, target: &mut T) -> (ok: bool)
        requires
            old(self).wf(),
            old(self).receives().has(old(self).first_receive()),
        ensures
            final(self).wf(),
            final(self).sends() == old(self).sends(),
            same_receives(old(self).receives(), final(self).receives()),
            final(self).first_receive() == old(self).first_receive(),
            final(self).first_send() == old(self).first_send(),
            final(self).next_send() == old(self).next_send(),
            final(self).latest() == old(self).latest(),
            final(self).rtt_avg() == old(self).rtt_avg(),
            final(self).packets_created() == old(self).packets_created(),
            same_counts(*old(self), *final(self)),
            final(self).peer() == old(self).peer(),
            match T::parse(old(self).payload(old(self).first_receive())) {
                Some((v, n)) => ok && *final(target) == v,
                None => !ok && *final(target) == *old(target),
            },
    {
        let seq = self.first_receive_seq;
        let ghost items0 = self.receive_buffer.items();
        match self.receive_buffer.get_mut(seq) {
            Some(packet) => {
                let end = packet.buffer.read_size();
                packet.buffer.seek(HEADER_SIZE);
                let mut r = ReadStream(Buffer::with_capacity(0));
                std::mem::swap(&mut r.0, &mut packet.buffer);
                proof {
                    assert(rest(r.0) =~= items0[seq@].buffer.content().subrange(
                        HEADER_SIZE as int,
                        end as int,
                    ));
                }
                let mut value = T::blank();
                let ok = value.stream(&mut r);
                if ok {
                    *target = value;
                }
                std::mem::swap(&mut r.0, &mut packet.buffer);
                proof {
                    assert forall|i: int|
                        0 <= i < SEQ_COUNT && #[trigger] self.receives().has(i) implies self.receives().items()[i].header.seq@
                        == i by {
                        assert(self.receives().items()[i].header == old(self).receives().items()[i].header);
                        assert(old(self).receives().has(i));
                    }
                    assert forall|s: int| 0 <= s < SEQ_COUNT implies (#[trigger] self.receives().items()[s]).buffer.content()
                        == old(self).receives().items()[s].buffer.content() by {
                        if s == seq@ {
                            assert(self.receives().items()[s].buffer.content() =~= old(self).receives().items()[s].buffer.content());
                        }
                    }
                }
                ok
            },
            None => {
                proof {
                    // the slot at the cursor holds its packet, as required
                    assert(false);
                }
                false
            },
        }
    }

    /// Reads the payload of the next packet of type `expected` into
    /// `target` and consumes the packet. A packet of another type at the
    /// cursor is left there and reported with its type.
    pub fn read_message_of<T: Streamable>(&mut self, expected: PacketType, target: &mut T) -> (res:
        Result<bool, ReadError>)
        requires
            old(self).wf(),
        ensures
            final(self).wf(),
            message_read(*old(self), *final(self), expected, *old(target), *final(target), res),
    {
        match self.peek_message() {
            Some(h) => {
                let ghost f = self.first_receive();
                proof {
                    crate::sequence::lemma_seq_in_space(self.first_receive_seq);
                }
                if h.packet_type == expected {
                    let ok = self.stream_message(target);
                    self.mark_handled();
                    proof {
                        assert(cursor_after_keep_alives(old(self).receives(), old(self).first_receive(), f));
                        assert(self.payload(f) =~= old(self).payload(f));
                    }
                    if ok {
                        Ok(true)
                    } else {
                        Err(ReadError::MalformedPayload)
                    }
                } else {
                    proof {
                        assert(cursor_after_keep_alives(old(self).receives(), old(self).first_receive(), f));
                    }
                    Err(ReadError::UnexpectedPacket(h.packet_type))
                }
            },
            None => {
                proof {
                    let f = self.first_receive();
                    assert(cursor_after_keep_alives(old(self).receives(), old(self).first_receive(), f));
                    if old(self).receives().has(f) {
                        assert(keep_alive_at(old(self).receives(), f));
                    }
                }
                Ok(false)
            },
        }
    }

    /// Reads the next user message into `target` and consumes it; a packet
    /// of another type at the cursor is left there and reported.
    pub fn read_into<T: Streamable>(&mut self, target: &mut T) -> (res: Result<bool, ReadError>)
        requires
            old(self).wf(),
        ensures
            final(self).wf(),
            message_read(
                *old(self),
                *final(self),
                PacketType::UserPayload,
                *old(target),
                *final(target),
                res,
            ),
    {
        self.read_message_of(PacketType::UserPayload, target)
    }

    /// Reads the next user message and consumes it, as `read_into` does.
    pub fn read_new<T: Streamable>(&mut self) -> (r: Result<Option<T>, ReadError>)
        requires
            old(self).wf(),
        ensures
            final(self).wf(),
            message_read(
                *old(self),
                *final(self),
                PacketType::UserPayload,
                T::spec_blank(),
                match r {
                    Ok(Some(v)) => v,
                    _ => T::spec_blank(),
                },
                match r {
                    Ok(Some(_)) => Ok(true),
                    Ok(None) => Ok(false),
                    Err(t) => Err(t),
                },
            ),
    {
        let mut value = T::blank();
        match self.read_into(&mut value) {
            Ok(true) => Ok(Some(value)),
            Ok(false) => {
                proof {
                    lemma_message_read_failed(
                        *old(self),
                        *self,
                        PacketType::UserPayload,
                        T::spec_blank(),
                        value,
                        Ok(false),
                    );
                }
                Ok(None)
            },
            Err(t) => Err(t),
        }
    }

    /// Consumes every message that is ready at the receive cursor, unread:
    /// the cursor moves over the slots that hold a packet and stops at the
    /// first that holds none (or after going once round a full buffer).
    pub fn drop_ready(&mut self)
        requires
            old(self).wf(),
        ensures
            final(self).wf(),
            final(self).receives() == old(self).receives(),
            final(self).sends() == old(self).sends(),
            final(self).latest() == old(self).latest(),
            final(self).first_send() == old(self).first_send(),
            final(self).next_send() == old(self).next_send(),
            final(self).rtt_avg() == old(self).rtt_avg(),
            final(self).packets_created() == old(self).packets_created(),
            same_counts(*old(self), *final(self)),
            final(self).peer() == old(self).peer(),
            exists|d: int|
                #![trigger seq_forward(old(self).first_receive(), d)]
                0 <= d <= SEQ_COUNT && final(self).first_receive() == seq_forward(
                    old(self).first_receive(),
                    d,
                ) && forall|k: int|
                    0 <= k < d ==> old(self).receives().has(
                        #[trigger] seq_forward(old(self).first_receive(), k),
                    ),
            !final(self).receives().has(final(self).first_receive()) || forall|i: int|
                0 <= i < SEQ_COUNT ==> #[trigger] final(self).receives().has(i),
    {
        let ghost start = self.first_receive();
        let mut k: u16 = 0;
        proof {
            lemma_seq_forward_step(start, 0);
        }
        while k < SEQ_COUNT && self.receive_buffer.contains(self.first_receive_seq)
            invariant
                self.wf(),
                0 <= start < SEQ_COUNT,
                start == old(self).first_receive(),
                k <= SEQ_COUNT,
                self.first_receive() == seq_forward(start, k as int),
                forall|j: int| 0 <= j < k ==> old(self).receives().has(#[trigger] seq_forward(start, j)),
                self.receives() == old(self).receives(),
                self.sends() == old(self).sends(),
                self.latest() == old(self).latest(),
                self.first_send() == old(self).first_send(),
                self.next_send() == old(self).next_send(),
                self.rtt_avg() == old(self).rtt_avg(),
                self.packets_created() == old(self).packets_created(),
                same_counts(*old(self), *self),
                self.peer() == old(self).peer(),
            decreases SEQ_COUNT - k,
        {
            proof {
                lemma_seq_forward_step(start, k as int);
            }
            self.mark_handled();
            k = k + 1;
        }
        proof {
            if k == SEQ_COUNT {
                assert forall|i: int| 0 <= i < SEQ_COUNT implies #[trigger] self.receives().has(i) by {
                    lemma_seq_dist_forward(start, i);
                    lemma_seq_dist(start, i);
                }
            }
        }
    }

    /// Retires the send slot of `seq` if it holds a sent packet, folding its
    /// round-trip time into the average.
    fn ack(&mut self, seq: NetworkSeq, now_ms: u64)
        requires
            old(self).wf(),
        ensures
            final(self).wf(),
            final(self).sends().items() == old(self).sends().items(),
            final(self).sends().stamps() == if awaiting_ack(old(self).sends(), seq@) {
                old(self).sends().stamps().update(seq@, SEQ_OUT_OF_BOUNDS)
            } else {
                old(self).sends().stamps()
            },
            final(self).rtt_avg() == rtt_after_ack(old(self).sends(), seq@, now_ms, old(self).rtt_avg()),
            final(self).receives() == old(self).receives(),
            final(self).first_send() == old(self).first_send(),
            final(self).next_send() == old(self).next_send(),
            final(self).latest() == old(self).latest(),
            final(self).first_receive() == old(self).first_receive(),
            final(self).packets_created() == old(self).packets_created(),
            same_counts(*old(self), *final(self)),
            final(self).peer() == old(self).peer(),
    {
        let first_send_time = match self.send_buffer.get(seq) {
            Some(packet) => packet.first_send_time,
            None => None,
        };
        match first_send_time {
            Some(t) => {
                let mut rtt_ms = now_ms.saturating_sub(t);
                if rtt_ms > RTT_SAMPLE_LIMIT_MS {
                    rtt_ms = RTT_SAMPLE_LIMIT_MS;
                }
                self.rtt_avg_us.exponential_moving_average(rtt_ms * 1000, RTT_ALPHA_PERCENT);
                proof {
                    lemma_ema_bounded(
                        old(self).rtt_avg() as int,
                        (rtt_ms * 1000) as int,
                        RTT_ALPHA_PERCENT as int,
                        AVERAGE_LIMIT as int,
                    );
                }
                self.send_buffer.mark_invalid(seq);
            },
            None => {},
        }
    }

    /// Moves the oldest unacknowledged sequence number past retired slots,
    /// toward `ack`.
    fn advance_first_send(&mut self, ack: NetworkSeq)
        requires
            old(self).wf(),
        ensures
            final(self).wf(),
            send_head_advanced(
                old(self).sends(),
                old(self).first_send(),
                final(self).first_send(),
                ack@,
                old(self).next_send(),
            ),
            final(self).sends() == old(self).sends(),
            final(self).rtt_avg() == old(self).rtt_avg(),
            final(self).receives() == old(self).receives(),
            final(self).next_send() == old(self).next_send(),
            final(self).latest() == old(self).latest(),
            final(self).first_receive() == old(self).first_receive(),
            final(self).packets_created() == old(self).packets_created(),
            same_counts(*old(self), *final(self)),
            final(self).peer() == old(self).peer(),
    {
        let ghost a = ack@;
        let ghost sends1 = self.sends();
        let ghost start = self.first_send_seq@;
        let ghost mut d: int = 0;
        proof {
            lemma_seq_forward_step(start, 0);
        }
        while self.first_send_seq.precedes(ack) && self.first_send_seq.unwrap()
            != self.next_send_seq.unwrap() && !self.send_buffer.contains(self.first_send_seq)
            invariant
                self.wf(),
                self.sends() == sends1,
                a == ack@,
                0 <= start < SEQ_COUNT,
                0 <= d <= SEQ_MID_VALUE,
                self.first_send() == seq_forward(start, d),
                d > 0 ==> d + seq_dist(self.first_send(), a) == seq_dist(start, a) && seq_dist(start, a)
                    <= SEQ_MID_VALUE,
                forall|k: int|
                    0 <= k < d ==> !sends1.has(#[trigger] seq_forward(start, k)) && seq_less(
                        seq_forward(start, k),
                        a,
                    ) && seq_forward(start, k) != self.next_send(),
                self.rtt_avg() == old(self).rtt_avg(),
                self.receives() == old(self).receives(),
                self.next_send() == old(self).next_send(),
                self.latest() == old(self).latest(),
                self.first_receive() == old(self).first_receive(),
                self.packets_created() == old(self).packets_created(),
                same_counts(*old(self), *self),
                self.peer() == old(self).peer(),
            decreases seq_dist(self.first_send(), a),
        {
            proof {
                lemma_seq_dist(self.first_send(), a);
                lemma_seq_dist(start, a);
                lemma_seq_forward_step(start, d);
            }
            self.first_send_seq.wrapping_increment();
            proof {
                d = d + 1;
            }
        }
        proof {
            assert(send_head_advanced(sends1, start, self.first_send(), a, self.next_send()));
        }
    }

    /// Applies the acknowledgement word `(ack, ack_bits)` from the peer to
    /// the send side.
    pub fn acknowledge(&mut self, ack: NetworkSeq, ack_bits: u32, now_ms: u64)
        requires
            old(self).wf(),
        ensures
            final(self).wf(),
            ack_applied(
                old(self).sends(),
                old(self).first_send(),
                old(self).rtt_avg(),
                final(self).sends(),
                final(self).first_send(),
                final(self).rtt_avg(),
                ack@,
                ack_bits,
                now_ms,
                old(self).next_send(),
            ),
            final(self).receives() == old(self).receives(),
            final(self).next_send() == old(self).next_send(),
            final(self).latest() == old(self).latest(),
            final(self).first_receive() == old(self).first_receive(),
            final(self).packets_created() == old(self).packets_created(),
            same_counts(*old(self), *final(self)),
            final(self).peer() == old(self).peer(),
    {
        let ghost sends0 = self.send_buffer;
        let ghost a = ack@;
        self.ack(ack, now_ms);
        proof {
            assert(in_ack_prefix(a, ack_bits, 0, a));
        }
        let mut bit: u16 = 0;
        while bit < ACK_BITS
            invariant
                self.wf(),
                sends0 == old(self).sends(),
                a == ack@,
                bit <= ACK_BITS,
                self.sends().items() == sends0.items(),
                forall|s: int|
                    0 <= s < SEQ_COUNT ==> #[trigger] self.sends().stamps()[s] == if in_ack_prefix(
                        a,
                        ack_bits,
                        bit as int,
                        s,
                    ) && awaiting_ack(sends0, s) {
                        SEQ_OUT_OF_BOUNDS
                    } else {
                        sends0.stamps()[s]
                    },
                none_awaiting(sends0, a, ack_bits, bit as int) ==> self.rtt_avg() == old(self).rtt_avg(),
                self.rtt_avg() == rtt_after_word(sends0, a, ack_bits, now_ms, old(self).rtt_avg(), bit as nat),
                self.receives() == old(self).receives(),
                self.first_send() == old(self).first_send(),
                self.next_send() == old(self).next_send(),
                self.latest() == old(self).latest(),
                self.first_receive() == old(self).first_receive(),
                self.packets_created() == old(self).packets_created(),
                same_counts(*old(self), *self),
                self.peer() == old(self).peer(),
            decreases ACK_BITS - bit,
        {
            proof {
                lemma_bit_test(ack_bits, bit as u32);
            }
            if ack_bits & (1u32 << bit) != 0 {
                let seq = ack.wrapping_sub(bit + 1);
                proof {
                    // the sequence numbers of one word are distinct
                    assert(seq@ != a);
                    assert forall|i: int| 0 <= i < bit implies seq@ != #[trigger] seq_back(a, i + 1) by {}
                    assert(!in_ack_prefix(a, ack_bits, bit as int, seq@));
                    assert(self.sends().has(seq@) == sends0.has(seq@));
                    assert(in_ack_prefix(a, ack_bits, bit + 1, seq@));
                }
                self.ack(seq, now_ms);
                proof {
                    lemma_ack_prefix_step(a, ack_bits, bit as int);
                    lemma_none_awaiting_step(sends0, a, ack_bits, bit as int);
                    assert forall|s: int| 0 <= s < SEQ_COUNT implies #[trigger] self.sends().stamps()[s]
                        == if in_ack_prefix(a, ack_bits, bit + 1, s) && awaiting_ack(sends0, s) {
                        SEQ_OUT_OF_BOUNDS
                    } else {
                        sends0.stamps()[s]
                    } by {
                        assert(in_ack_prefix(a, ack_bits, bit + 1, s) == (in_ack_prefix(
                            a,
                            ack_bits,
                            bit as int,
                            s,
                        ) || s == seq@));
                    }
                }
            } else {
                proof {
                    lemma_ack_prefix_step(a, ack_bits, bit as int);
                    lemma_none_awaiting_step(sends0, a, ack_bits, bit as int);
                    assert forall|s: int| 0 <= s < SEQ_COUNT implies #[trigger] self.sends().stamps()[s]
                        == if in_ack_prefix(a, ack_bits, bit + 1, s) && awaiting_ack(sends0, s) {
                        SEQ_OUT_OF_BOUNDS
                    } else {
                        sends0.stamps()[s]
                    } by {
                        assert(in_ack_prefix(a, ack_bits, bit + 1, s) == in_ack_prefix(
                            a,
                            ack_bits,
                            bit as int,
                            s,
                        ));
                    }
                }
            }
            bit = bit + 1;
        }
        self.advance_first_send(ack);
    }

    /// One round of transmission at time `now_ms`: every due packet of the
    /// window whose cost fits in the round's budget is appended to `outbox`
    /// as a datagram; then the connection is reset if a packet waited too
    /// long.
    fn transmit(&mut self, now_ms: u64, outbox: &mut Vec<Vec<u8>>) -> (r: EndpointState)
        requires
            old(self).wf(),
        ensures
            final(self).wf(),
            transmitted(*old(self), *final(self), now_ms, old(outbox)@, final(outbox)@, r),
    {
        let first = self.first_send_seq;
        let next = self.next_send_seq;
        let ghost e = *self;
        let ghost w = self.window();
        let ghost plan = send_plan(e.sends(), first@, w, 0, 0);
        let ghost base = outbox@.len();
        let ghost mut sent: Seq<int> = Seq::empty();
        let ghost mut j: int = 0;
        let mut seq_iter = first;
        let mut min_send_time = now_ms;
        let mut own_bytes_sent: u32 = 0;
        let mut total_bytes_sent: u32 = 0;
        proof {
            lemma_seq_dist(first@, next@);
            lemma_seq_forward_step(first@, 0);
            assert forall|i: int| 0 <= i < SEQ_COUNT implies seq_dist(first@, i) >= 0 by {
                lemma_seq_dist(first@, i);
            }
        }
        while seq_iter.unwrap() != next.unwrap()
            invariant
                self.wf(),
                e == *old(self),
                e.wf(),
                first@ == e.first_send(),
                next@ == e.next_send(),
                w == e.window(),
                w == seq_dist(first@, next@),
                0 <= w < SEQ_COUNT,
                0 <= j <= w,
                seq_iter@ == seq_forward(first@, j),
                plan == send_plan(e.sends(), first@, w, 0, 0),
                self.sends().stamps() == e.sends().stamps(),
                self.sends().items().len() == SEQ_COUNT,
                forall|i: int|
                    0 <= i < SEQ_COUNT ==> #[trigger] self.sends().items()[i] == if seq_dist(
                        first@,
                        i,
                    ) < j {
                        stamped(e.sends(), first@, w, now_ms, i)
                    } else {
                        e.sends().items()[i]
                    },
                self.receives() == e.receives(),
                self.first_send() == e.first_send(),
                self.next_send() == e.next_send(),
                self.latest() == e.latest(),
                self.first_receive() == e.first_receive(),
                self.rtt_avg() == e.rtt_avg(),
                self.packets_created() == e.packets_created(),
                same_counts(e, *self),
                self.peer() == e.peer(),
                plan.0 == sent + send_plan(e.sends(), first@, w, j, total_bytes_sent as int).0,
                plan.1 == send_plan(e.sends(), first@, w, j, total_bytes_sent as int).1,
                total_bytes_sent <= BYTES_PER_SEND,
                own_bytes_sent + UDP_IP_HEADER_SIZE * sent.len() == total_bytes_sent,
                outbox@.len() == base + sent.len(),
                base == old(outbox)@.len(),
                forall|k: int| 0 <= k < base ==> outbox@[k] == old(outbox)@[k],
                forall|k: int|
                    0 <= k < sent.len() ==> (#[trigger] outbox@[base + k])@ == e.sends().item(
                        sent[k],
                    ).buffer.written(),
                min_send_time <= now_ms,
                forall|i: int|
                    0 <= i < SEQ_COUNT && seq_dist(first@, i) < j && #[trigger] e.sends().has(i)
                        ==> (e.sends().items()[i].first_send_time matches Some(t) ==> min_send_time
                        <= t),
                min_send_time == now_ms || exists|i: int|
                    0 <= i < SEQ_COUNT && seq_dist(first@, i) < j && #[trigger] e.sends().has(i)
                        && e.sends().items()[i].first_send_time == Some(min_send_time),
            decreases w - j,
        {
            proof {
                lemma_seq_forward_step(first@, j);
                if j == w {
                    lemma_seq_dist_forward(first@, next@);
                }
            }
            let ghost s = seq_iter@;
            let ghost used = total_bytes_sent as int;
            let ghost min_before = min_send_time;
            let ghost outbox_before = outbox@;
            match self.send_buffer.get_mut(seq_iter) {
                Some(packet) => {
                    let send = match packet.first_send_time {
                        Some(t) => {
                            if t < min_send_time {
                                min_send_time = t;
                            }
                            seq_iter.unwrap() % PACKET_RESEND_FRAME_INTERVAL == first.unwrap()
                                % PACKET_RESEND_FRAME_INTERVAL
                        },
                        None => {
                            packet.first_send_time = Some(now_ms);
                            true
                        },
                    };
                    if send {
                        let size = packet.buffer.written_size() as u32;
                        if size + UDP_IP_HEADER_SIZE <= BYTES_PER_SEND - total_bytes_sent {
                            outbox.push(packet.buffer.written_bytes());
                            own_bytes_sent = own_bytes_sent + size;
                            total_bytes_sent = total_bytes_sent + size + UDP_IP_HEADER_SIZE;
                            proof {
                                sent = sent.push(s);
                            }
                        }
                    }
                },
                None => {},
            }
            proof {
                let rest = send_plan(e.sends(), first@, w, j + 1, total_bytes_sent as int);
                if due(e.sends(), first@, s) && used + send_cost(e.sends(), s) <= BYTES_PER_SEND {
                    assert(sent == sent.drop_last().push(s));
                    assert(plan.0 =~= sent + rest.0);
                    assert forall|k: int| 0 <= k < sent.len() implies (#[trigger] outbox@[base
                        + k])@ == e.sends().item(sent[k]).buffer.written() by {
                        if k < sent.len() - 1 {
                            assert(outbox@[base + k] == outbox_before[base + k]);
                        }
                    }
                }
                assert forall|i: int|
                    0 <= i < SEQ_COUNT && seq_dist(first@, i) < j + 1 && #[trigger] e.sends().has(i)
                        implies (e.sends().items()[i].first_send_time matches Some(t) ==> min_send_time
                        <= t) by {
                    lemma_seq_dist_forward(first@, i);
                }
                if min_send_time != now_ms {
                    if min_send_time != min_before {
                        assert(seq_dist(first@, s) == j);
                        assert(e.sends().has(s));
                    } else {
                        let i = choose|i: int|
                            0 <= i < SEQ_COUNT && seq_dist(first@, i) < j && #[trigger] e.sends().has(i)
                                && e.sends().items()[i].first_send_time == Some(min_send_time);
                        assert(seq_dist(first@, i) < j + 1);
                    }
                }
                assert forall|i: int| 0 <= i < SEQ_COUNT implies #[trigger] self.sends().items()[i]
                    == if seq_dist(first@, i) < j + 1 {
                    stamped(e.sends(), first@, w, now_ms, i)
                } else {
                    e.sends().items()[i]
                } by {
                    lemma_seq_dist_forward(first@, i);
                }
                j = j + 1;
            }
            seq_iter.wrapping_increment();
        }
        proof {
            lemma_seq_dist_forward(first@, next@);
            assert(j == w);
            assert(sent =~= plan.0);
        }
        let max_rtt_ms = now_ms - min_send_time;
        let packets_received = self.packets_received_since_last_send;
        self.packets_received_since_last_send = 0;
        let new_packets_received = self.new_packets_received_since_last_send;
        self.new_packets_received_since_last_send = 0;
        let own_bytes_received = self.own_bytes_received_since_last_send;
        self.own_bytes_received_since_last_send = 0;
        let total_bytes_received = self.total_bytes_received_since_last_send;
        self.total_bytes_received_since_last_send = 0;
        let packets_created = self.packets_created_since_last_send;
        self.packets_created_since_last_send = 0;
        proof {
            assert(self.sends().items() =~= Seq::new(
                SEQ_COUNT as nat,
                |i: int| stamped(e.sends(), first@, w, now_ms, i),
            ));
        }
        if max_rtt_ms >= CONNECTION_TIMEOUT_MS {
            self.send_buffer.reset();
            self.receive_buffer.reset();
            self.rtt_avg_us = 0;
            proof {
                let i = choose|i: int|
                    0 <= i < SEQ_COUNT && seq_dist(first@, i) < j && #[trigger] e.sends().has(i)
                        && e.sends().items()[i].first_send_time == Some(min_send_time);
                assert(timed_out(e.sends(), first@, w, now_ms));
            }
            EndpointState::ConnectionTimeout
        } else {
            proof {
                if timed_out(e.sends(), first@, w, now_ms) {
                    let i = choose|i: int|
                        0 <= i < SEQ_COUNT && seq_dist(first@, i) < w && #[trigger] e.sends().has(i) && (
                        e.sends().items()[i].first_send_time matches Some(t) && now_ms >= t
                            + CONNECTION_TIMEOUT_MS);
                    // that packet's wait would have reached the timeout
                    assert(false);
                }
            }
            EndpointState::Running(
                EndpointSendStats {
                    own_bytes_sent,
                    total_bytes_sent,
                    own_bytes_received,
                    total_bytes_received,
                    packets_created,
                    packets_received,
                    new_packets_received,
                    max_rtt_ms,
                    rtt_avg_us: self.rtt_avg_us,
                },
            )
        }
    }

    /// One round of sending at time `now_ms`: a keep-alive is queued if no
    /// packet was created since the last round, so that acknowledgements
    /// keep flowing; then the due packets are appended to `outbox` as
    /// datagrams for the peer, and the connection is reset if a packet
    /// waited too long.
    pub fn send_outstanding(&mut self, now_ms: u64, outbox: &mut Vec<Vec<u8>>) -> (r: EndpointState)
        requires
            old(self).wf(),
        ensures
            final(self).wf(),
            exists|mid: ReliableOrderedDatagramEndpoint|
                #![trigger keep_alive_step(*old(self), mid)]
                keep_alive_step(*old(self), mid) && mid.wf() && transmitted(
                    mid,
                    *final(self),
                    now_ms,
                    old(outbox)@,
                    final(outbox)@,
                    r,
                ),
    {
        if self.packets_created_since_last_send == 0 && self.can_write() {
            self.create_packet(PacketType::ConnectionKeepAlive);
        }
        let ghost mid = *self;
        let r = self.transmit(now_ms, outbox);
        proof {
            assert(keep_alive_step(*old(self), mid));
        }
        r
    }

    /// Takes in a received packet whose integrity was checked: the latest
    /// received sequence number advances, the packet is kept unless the
    /// application has consumed past it (its bytes change place with those
    /// of its slot, no copy), and its acknowledgements apply to the send side.
    pub fn receive_swap(&mut self, header: PacketHeader, buffer: &mut Buffer, now_ms: u64)
        requires
            old(self).wf(),
            old(buffer).wf(),
            old(buffer).bytes().len() == PACKET_BUFFER_SIZE,
            old(buffer).end() >= HEADER_SIZE,
        ensures
            final(self).wf(),
            final(buffer).wf(),
            final(buffer).bytes().len() == PACKET_BUFFER_SIZE,
            final(buffer).end() >= HEADER_SIZE,
            packet_received(*old(self), *final(self), header, *old(buffer), now_ms),
            is_new_packet(header.seq@, old(self).first_receive()) ==> *final(buffer) == old(
                self,
            ).receives().item(header.seq@).buffer,
            !is_new_packet(header.seq@, old(self).first_receive()) ==> *final(buffer) == *old(buffer),
    {
        self.packets_received_since_last_send = self.packets_received_since_last_send.saturating_add(
            1,
        );
        let size = buffer.read_size() as u32;
        self.own_bytes_received_since_last_send = self.own_bytes_received_since_last_send.saturating_add(
            size,
        );
        self.total_bytes_received_since_last_send =
            self.total_bytes_received_since_last_send.saturating_add(size + UDP_IP_HEADER_SIZE);
        let ghost c1 = *self;
        let ghost l0 = self.latest_receive_seq@;
        let ghost h = header.seq@;
        let ghost rb0 = self.receive_buffer;
        let ghost mut n: int = 0;
        while self.latest_receive_seq.precedes(header.seq)
            invariant
                self.wf(),
                h == header.seq@,
                l0 == old(self).latest_receive(),
                rb0 == old(self).receives(),
                rb0.wf(),
                forall|i: int|
                    0 <= i < SEQ_COUNT && #[trigger] rb0.has(i) ==> rb0.items()[i].header.seq@ == i,
                n >= 0,
                n == 0 ==> self.latest_receive() == l0 && self.receives() == rb0,
                n > 0 ==> {
                    &&& seq_less(l0, h)
                    &&& self.receives().stamps() == rb0.stamps().update(
                        seq_back(h, STALE_OFFSET as int),
                        SEQ_OUT_OF_BOUNDS,
                    )
                    &&& self.receives().items() == rb0.items()
                    &&& (h - self.latest_receive()) % (SEQ_COUNT as int) < SEQ_MID_VALUE
                },
                self.sends() == old(self).sends(),
                self.first_send() == old(self).first_send(),
                self.rtt_avg() == old(self).rtt_avg(),
                self.next_send() == old(self).next_send(),
                self.first_receive() == old(self).first_receive(),
                self.packets_created() == old(self).packets_created(),
                same_counts(c1, *self),
                self.peer() == old(self).peer(),
            decreases (h - self.latest_receive()) % (SEQ_COUNT as int),
        {
            let ghost before = self.receives().stamps();
            self.receive_buffer.mark_invalid(header.seq.wrapping_sub(STALE_OFFSET));
            self.latest_receive_seq.wrapping_increment();
            proof {
                assert(self.receives().stamps() == before.update(
                    seq_back(h, STALE_OFFSET as int),
                    SEQ_OUT_OF_BOUNDS,
                ));
                assert(self.receives().stamps() =~= rb0.stamps().update(
                    seq_back(h, STALE_OFFSET as int),
                    SEQ_OUT_OF_BOUNDS,
                ));
                assert forall|i: int|
                    0 <= i < SEQ_COUNT && #[trigger] self.receives().has(i) implies self.receives().items()[i].header.seq@
                    == i by {
                    assert(rb0.has(i));
                    assert(self.receives().items()[i] == rb0.items()[i]);
                }
                n = n + 1;
            }
        }
        proof {
            if n > 0 {
                assert(self.latest_receive() == h);
            }
        }
        if !header.seq.precedes(self.first_receive_seq) {
            self.new_packets_received_since_last_send =
                self.new_packets_received_since_last_send.saturating_add(1);
            let ghost rb1 = self.receive_buffer;
            let packet = self.receive_buffer.mark_valid(header.seq);
            std::mem::swap(buffer, &mut packet.buffer);
            packet.header = header;
            proof {
                assert forall|i: int|
                    0 <= i < SEQ_COUNT && #[trigger] self.receives().has(i) implies self.receives().items()[i].header.seq@
                    == i by {
                    if i != header.seq@ {
                        assert(rb1.has(i));
                    }
                }
            }
        }
        self.acknowledge(header.ack, header.ack_bits, now_ms);
    }
}

} // verus!

verus! {

/// After an acknowledgement word is applied, none of its sequence numbers
/// still has a sent packet waiting.
proof fn lemma_ack_leaves_none_awaiting(
    sends0: SequenceBuffer<SendPacket>,
    sends1: SequenceBuffer<SendPacket>,
    ack: int,
    bits: u32,
)
    requires
        sends0.wf(),
        sends1.items() == sends0.items(),
        sends1.stamps().len() == sends0.stamps().len(),
        forall|s: int|
            0 <= s < SEQ_COUNT ==> #[trigger] sends1.stamps()[s] == if in_ack_word(ack, bits, s)
                && awaiting_ack(sends0, s) {
                SEQ_OUT_OF_BOUNDS
            } else {
                sends0.stamps()[s]
            },
    ensures
        none_awaiting(sends1, ack, bits, ACK_BITS as int),
{
    assert forall|s: int| 0 <= s < SEQ_COUNT implies !(#[trigger] in_ack_prefix(
        ack,
        bits,
        ACK_BITS as int,
        s,
    ) && awaiting_ack(sends1, s)) by {
        assert(sends1.stamps()[s] == if in_ack_word(ack, bits, s) && awaiting_ack(sends0, s) {
            SEQ_OUT_OF_BOUNDS
        } else {
            sends0.stamps()[s]
        });
    }
}

/// Where the oldest unacknowledged sequence number stopped, it stays when
/// the same slots are walked again toward the same `ack`.
proof fn lemma_send_head_stays(
    sends1: SequenceBuffer<SendPacket>,
    sends2: SequenceBuffer<SendPacket>,
    first0: int,
    first1: int,
    first2: int,
    ack: int,
    next: int,
)
    requires
        sends2.stamps() == sends1.stamps(),
        send_head_advanced(sends1, first0, first1, ack, next),
        send_head_advanced(sends2, first1, first2, ack, next),
    ensures
        first2 == first1,
{
    let d1 = choose|d: int|
        #![trigger seq_forward(first0, d)]
        0 <= d < SEQ_COUNT && first1 == seq_forward(first0, d) && (forall|k: int|
            0 <= k < d ==> !sends1.has(#[trigger] seq_forward(first0, k)) && seq_less(
                seq_forward(first0, k),
                ack,
            ) && seq_forward(first0, k) != next) && !(seq_less(first1, ack) && first1 != next
            && !sends1.has(first1));
    let d2 = choose|d: int|
        #![trigger seq_forward(first1, d)]
        0 <= d < SEQ_COUNT && first2 == seq_forward(first1, d) && (forall|k: int|
            0 <= k < d ==> !sends2.has(#[trigger] seq_forward(first1, k)) && seq_less(
                seq_forward(first1, k),
                ack,
            ) && seq_forward(first1, k) != next) && !(seq_less(first2, ack) && first2 != next
            && !sends2.has(first2));
    assert(0 <= first1 < SEQ_COUNT);
    if d2 > 0 {
        assert(!sends2.has(seq_forward(first1, 0)) && seq_less(seq_forward(first1, 0), ack)
            && seq_forward(first1, 0) != next);
        assert(seq_forward(first1, 0) == first1);
    }
}

/// Applying the same acknowledgement word twice has the same effect on the
/// send side as applying it once.
pub proof fn lemma_ack_idempotent(
    sends0: SequenceBuffer<SendPacket>,
    first0: int,
    rtt0: u64,
    sends1: SequenceBuffer<SendPacket>,
    first1: int,
    rtt1: u64,
    sends2: SequenceBuffer<SendPacket>,
    first2: int,
    rtt2: u64,
    ack: int,
    bits: u32,
    now1: u64,
    now2: u64,
    next: int,
)
    requires
        sends0.wf(),
        ack_applied(sends0, first0, rtt0, sends1, first1, rtt1, ack, bits, now1, next),
        ack_applied(sends1, first1, rtt1, sends2, first2, rtt2, ack, bits, now2, next),
    ensures
        sends2.stamps() == sends1.stamps(),
        sends2.items() == sends1.items(),
        first2 == first1,
        rtt2 == rtt1,
{
    lemma_ack_leaves_none_awaiting(sends0, sends1, ack, bits);
    assert forall|s: int| 0 <= s < SEQ_COUNT implies sends2.stamps()[s] == sends1.stamps()[s] by {
        assert(sends2.stamps()[s] == if in_ack_word(ack, bits, s) && awaiting_ack(sends1, s) {
            SEQ_OUT_OF_BOUNDS
        } else {
            sends1.stamps()[s]
        });
        assert(!(in_ack_prefix(ack, bits, ACK_BITS as int, s) && awaiting_ack(sends1, s)));
    }
    assert(sends2.stamps() =~= sends1.stamps());
    lemma_send_head_stays(sends1, sends2, first0, first1, first2, ack, next);
}

} // verus!

verus! {

/// A round's plan is not empty when a packet due at offset `k` of the
/// window lies at or after offset `j`, and nothing of the budget is used.
proof fn lemma_plan_nonempty(sb: SequenceBuffer<SendPacket>, first: int, window: int, j: int, k: int)
    requires
        0 <= j <= k < window,
        due(sb, first, seq_forward(first, k)),
        forall|i: int|
            0 <= i < SEQ_COUNT ==> (#[trigger] sb.items()[i]).buffer.pos() <= PACKET_BUFFER_SIZE,
        sb.wf(),
    ensures
        send_plan(sb, first, window, j, 0).0.len() >= 1,
    decreases k - j,
{
    let s = seq_forward(first, j);
    assert(0 <= s < SEQ_COUNT);
    assert(sb.item(s) == sb.items()[s]);
    if due(sb, first, s) && send_cost(sb, s) <= BYTES_PER_SEND {
    } else {
        lemma_plan_nonempty(sb, first, window, j + 1, k);
    }
}

/// A round that starts with no packet created since the last one, and with
/// room in the window, queues a keep-alive and plans at least one datagram
/// for the peer, so acknowledgements keep flowing on a silent channel.
pub proof fn lemma_keep_alive_sends(
    before: ReliableOrderedDatagramEndpoint,
    mid: ReliableOrderedDatagramEndpoint,
)
    requires
        before.wf(),
        mid.wf(),
        before.packets_created() == 0,
        before.window() < SEQ_COUNT - 1,
        keep_alive_step(before, mid),
    ensures
        mid.window() == before.window() + 1,
        send_plan(mid.sends(), mid.first_send(), mid.window(), 0, 0).0.len() >= 1,
{
    let first = mid.first_send();
    lemma_seq_dist(before.first_send(), before.next_send());
    lemma_seq_dist_forward(before.first_send(), before.next_send());
    assert forall|i: int|
        0 <= i < SEQ_COUNT implies (#[trigger] mid.sends().items()[i]).buffer.pos()
        <= PACKET_BUFFER_SIZE by {
        assert(mid.sends().items()[i].buffer.wf());
    }
    lemma_plan_nonempty(mid.sends(), first, mid.window(), 0, before.window());
}

} // verus!

verus! {

/// A read that read nothing is also described with the target as it was.
pub proof fn lemma_message_read_failed<T: Streamable>(
    before: ReliableOrderedDatagramEndpoint,
    after: ReliableOrderedDatagramEndpoint,
    expected: PacketType,
    t0: T,
    t1: T,
    res: Result<bool, ReadError>,
)
    requires
        message_read(before, after, expected, t0, t1, res),
        res != Ok::<bool, ReadError>(true),
    ensures
        message_read(before, after, expected, t0, t0, res),
{
    let f = choose|f: int|
        #![trigger cursor_after_keep_alives(before.receives(), before.first_receive(), f)]
        cursor_after_keep_alives(before.receives(), before.first_receive(), f) && if before.receives().has(
            f,
        ) && !keep_alive_at(before.receives(), f) {
            if before.receives().item(f).header.packet_type == expected {
                &&& after.first_receive() == seq_next(f)
                &&& match T::parse(before.payload(f)) {
                    Some((v, n)) => res == Ok::<bool, ReadError>(true) && t1 == v,
                    None => res == Err::<bool, ReadError>(ReadError::MalformedPayload) && t1 == t0,
                }
            } else {
                &&& after.first_receive() == f
                &&& res == Err::<bool, ReadError>(ReadError::UnexpectedPacket(before.receives().item(f).header.packet_type))
                &&& t1 == t0
            }
        } else {
            after.first_receive() == f && res == Ok::<bool, ReadError>(false) && t1 == t0
        };
}

} // verus!

verus! {

/// A read that delivers a message consumes the packet at the receive cursor,
/// past keep-alive packets only: the packet of the expected type whose
/// sequence number is that of its slot. The cursor then stands just past
/// it, so a copy of that packet arriving later counts as old and is not
/// kept.
pub proof fn lemma_read_consumes<T: Streamable>(
    e0: ReliableOrderedDatagramEndpoint,
    e1: ReliableOrderedDatagramEndpoint,
    expected: PacketType,
    t0: T,
    t1: T,
)
    requires
        e0.wf(),
        message_read(e0, e1, expected, t0, t1, Ok(true)),
    ensures
        exists|f: int|
            #![trigger cursor_after_keep_alives(e0.receives(), e0.first_receive(), f)]
            {
                &&& cursor_after_keep_alives(e0.receives(), e0.first_receive(), f)
                &&& 0 <= f < SEQ_COUNT
                &&& e0.receives().has(f)
                &&& e0.receives().item(f).header.seq@ == f
                &&& e0.receives().item(f).header.packet_type == expected
                &&& e1.first_receive() == seq_next(f)
                &&& !is_new_packet(f, e1.first_receive())
            },
{
    let f = choose|f: int|
        #![trigger cursor_after_keep_alives(e0.receives(), e0.first_receive(), f)]
        cursor_after_keep_alives(e0.receives(), e0.first_receive(), f) && if e0.receives().has(f)
            && !keep_alive_at(e0.receives(), f) {
            if e0.receives().item(f).header.packet_type == expected {
                &&& e1.first_receive() == seq_next(f)
                &&& match T::parse(e0.payload(f)) {
                    Some((v, n)) => Ok::<bool, ReadError>(true) == Ok::<bool, ReadError>(true)
                        && t1 == v,
                    None => Ok::<bool, ReadError>(true) == Err::<bool, ReadError>(
                        ReadError::MalformedPayload,
                    ) && t1 == t0,
                }
            } else {
                &&& e1.first_receive() == f
                &&& Ok::<bool, ReadError>(true) == Err::<bool, ReadError>(
                    ReadError::UnexpectedPacket(e0.receives().item(f).header.packet_type),
                )
                &&& t1 == t0
            }
        } else {
            e1.first_receive() == f && Ok::<bool, ReadError>(true) == Ok::<bool, ReadError>(false)
                && t1 == t0
        };
    let d = choose|d: int|
        #![trigger seq_forward(e0.first_receive(), d)]
        0 <= d <= SEQ_COUNT && f == seq_forward(e0.first_receive(), d) && (forall|k: int|
            0 <= k < d ==> keep_alive_at(e0.receives(), #[trigger] seq_forward(e0.first_receive(), k)))
            && (d < SEQ_COUNT ==> !keep_alive_at(e0.receives(), f)) && (d == SEQ_COUNT ==> forall|i: int|
            0 <= i < SEQ_COUNT ==> #[trigger] keep_alive_at(e0.receives(), i));
    lemma_seq_forward_step(e0.first_receive(), d);
    assert(e0.receives().item(f) == e0.receives().items()[f]);
    lemma_seq_order_wraps(f, 1);
}

/// Successive reads deliver packets in sequence order: the second read
/// delivers the first packet after the one the first read delivered that
/// is not a keep-alive, so none is skipped and none comes early.
pub proof fn lemma_reads_in_order<T: Streamable>(
    e0: ReliableOrderedDatagramEndpoint,
    e1: ReliableOrderedDatagramEndpoint,
    e2: ReliableOrderedDatagramEndpoint,
    expected: PacketType,
    t0: T,
    t1: T,
    t2: T,
    t3: T,
)
    requires
        e0.wf(),
        e1.wf(),
        message_read(e0, e1, expected, t0, t1, Ok(true)),
        message_read(e1, e2, expected, t2, t3, Ok(true)),
    ensures
        exists|f1: int, f2: int|
            #![trigger cursor_after_keep_alives(e0.receives(), e0.first_receive(), f1), cursor_after_keep_alives(e1.receives(), seq_next(f1), f2)]
            {
                &&& cursor_after_keep_alives(e0.receives(), e0.first_receive(), f1)
                &&& e0.receives().has(f1)
                &&& e0.receives().item(f1).header.seq@ == f1
                &&& cursor_after_keep_alives(e1.receives(), seq_next(f1), f2)
                &&& e1.receives().has(f2)
                &&& e1.receives().item(f2).header.seq@ == f2
                &&& e2.first_receive() == seq_next(f2)
            },
{
    lemma_read_consumes(e0, e1, expected, t0, t1);
    lemma_read_consumes(e1, e2, expected, t2, t3);
    let f1 = choose|f: int|
        #![trigger cursor_after_keep_alives(e0.receives(), e0.first_receive(), f)]
        {
            &&& cursor_after_keep_alives(e0.receives(), e0.first_receive(), f)
            &&& 0 <= f < SEQ_COUNT
            &&& e0.receives().has(f)
            &&& e0.receives().item(f).header.seq@ == f
            &&& e0.receives().item(f).header.packet_type == expected
            &&& e1.first_receive() == seq_next(f)
            &&& !is_new_packet(f, e1.first_receive())
        };
    let f2 = choose|f: int|
        #![trigger cursor_after_keep_alives(e1.receives(), e1.first_receive(), f)]
        {
            &&& cursor_after_keep_alives(e1.receives(), e1.first_receive(), f)
            &&& 0 <= f < SEQ_COUNT
            &&& e1.receives().has(f)
            &&& e1.receives().item(f).header.seq@ == f
            &&& e1.receives().item(f).header.packet_type == expected
            &&& e2.first_receive() == seq_next(f)
            &&& !is_new_packet(f, e2.first_receive())
        };
    assert(cursor_after_keep_alives(e1.receives(), seq_next(f1), f2));
}

/// A packet of the window that has waited for its acknowledgement for the
/// connection timeout or longer does not wait silently: the round reports
/// the timeout.
pub proof fn lemma_stale_packet_times_out(
    before: ReliableOrderedDatagramEndpoint,
    after: ReliableOrderedDatagramEndpoint,
    now: u64,
    out0: Seq<Vec<u8>>,
    out1: Seq<Vec<u8>>,
    result: EndpointState,
    s: int,
    t: u64,
)
    requires
        transmitted(before, after, now, out0, out1, result),
        0 <= s < SEQ_COUNT,
        seq_dist(before.first_send(), s) < before.window(),
        before.sends().has(s),
        before.sends().items()[s].first_send_time == Some(t),
        now >= t + CONNECTION_TIMEOUT_MS,
    ensures
        result is ConnectionTimeout,
{
    assert(timed_out(before.sends(), before.first_send(), before.window(), now));
}

} // verus!

verus! {

/// A copy of a packet whose sequence number lies behind the receive cursor
/// (one already consumed) is not kept when it arrives: no slot takes its
/// bytes, and its slot holds it only if it did before.
pub proof fn lemma_old_copy_not_kept(
    e0: ReliableOrderedDatagramEndpoint,
    e1: ReliableOrderedDatagramEndpoint,
    header: PacketHeader,
    arrived: Buffer,
    now: u64,
)
    requires
        e0.wf(),
        packet_received(e0, e1, header, arrived, now),
        seq_less(header.seq@, e0.first_receive()),
    ensures
        e1.receives().items() == e0.receives().items(),
        e1.first_receive() == e0.first_receive(),
        e1.receives().has(header.seq@) ==> e0.receives().has(header.seq@),
{
    let stamps = e0.receives().stamps();
    let s = header.seq@;
    if seq_less(e0.latest_receive(), s) {
        assert(stamps_after_advance(stamps, e0.latest_receive(), s)[s] == stamps[s] || stamps_after_advance(
            stamps,
            e0.latest_receive(),
            s,
        )[s] == SEQ_OUT_OF_BOUNDS);
    }
}

} // verus!
