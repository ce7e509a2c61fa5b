//! The server driver: a fixed number of peer slots keyed by address, and the
//! connection handshake.

use vstd::prelude::*;
use crate::buffer::Buffer;
use crate::endpoint::{
    ack_bits_of, keep_alive_step, message_read, packet_queued, packet_received,
    send_head_advanced, transmitted, EndpointState, PeerAddress, ReadError,
    ReliableOrderedDatagramEndpoint,
};
use crate::endian::splice;
use crate::packet::{
    crc32_of, header_of, header_wire, type_code, type_of_code, ConnectionAcceptedPacket,
    PacketHeader, PacketType, HEADER_SIZE, PACKET_BUFFER_SIZE, PROTOCOL_ID,
};
use crate::stream::{fresh_header, seal};
use crate::endian::Endian;
use crate::sequence::{seq_forward, seq_less, SEQ_COUNT};
use crate::sequence_buffer::SequenceBuffer;
use crate::packet::SendPacket;
use crate::stream::{packet_valid, ReadStream, Streamable};

verus! {

broadcast use crate::sequence::lemma_seq_in_space;

/// What the server reports to the application.
#[derive(Clone, Copy, Debug, PartialEq, Eq, Structural)]
pub enum ServerEvent {
    /// The client in this slot stopped answering; its slot is free again.
    ClientTimeout(u8),
    /// A client took this slot.
    ClientConnected(u8),
}

/// The type of the valid packet `d`.
pub open spec fn datagram_type(d: Seq<u8>) -> PacketType {
    type_of_code(d[6])->0
}

/// The sequence number in the header of the valid packet `d`.
pub open spec fn datagram_seq(d: Seq<u8>) -> int {
    u16::spec_from_le(d.subrange(8, 10)) as int % (SEQ_COUNT as int)
}

/// Slot `i` holds the peer at `address`.
pub open spec fn holds_peer(slots: Seq<Option<ReliableOrderedDatagramEndpoint>>, i: int, address: PeerAddress) -> bool {
    slots[i] matches Some(e) && e.peer() == address
}

/// Some slot holds the peer at `address`.
pub open spec fn knows_peer(slots: Seq<Option<ReliableOrderedDatagramEndpoint>>, address: PeerAddress) -> bool {
    exists|i: int| 0 <= i < slots.len() && #[trigger] holds_peer(slots, i, address)
}

/// `i` is the first slot that holds the peer at `address`.
pub open spec fn first_slot_of(slots: Seq<Option<ReliableOrderedDatagramEndpoint>>, address: PeerAddress, i: int) -> bool {
    &&& 0 <= i < slots.len()
    &&& holds_peer(slots, i, address)
    &&& forall|j: int| 0 <= j < i ==> !#[trigger] holds_peer(slots, j, address)
}

/// `i` is the first free slot.
pub open spec fn first_free_slot(slots: Seq<Option<ReliableOrderedDatagramEndpoint>>, i: int) -> bool {
    &&& 0 <= i < slots.len()
    &&& slots[i] is None
    &&& forall|j: int| 0 <= j < i ==> (#[trigger] slots[j]) is Some
}

/// `after` is `before` after a round of sending at time `now` that did not
/// time out, which produced the datagrams `out`.
pub open spec fn sent_round(
    before: ReliableOrderedDatagramEndpoint,
    after: ReliableOrderedDatagramEndpoint,
    now: u64,
    out: Seq<Vec<u8>>,
) -> bool {
    exists|mid: ReliableOrderedDatagramEndpoint, st: EndpointState|
        #![trigger keep_alive_step(before, mid), transmitted(mid, after, now, Seq::empty(), out, st)]
        keep_alive_step(before, mid) && mid.wf() && transmitted(mid, after, now, Seq::empty(), out, st)
            && st is Running
}

/// A round of sending at time `now` from `before` timed out, after producing
/// the datagrams `out`.
pub open spec fn timed_out_round(before: ReliableOrderedDatagramEndpoint, now: u64, out: Seq<Vec<u8>>) -> bool {
    exists|mid: ReliableOrderedDatagramEndpoint, after: ReliableOrderedDatagramEndpoint|
        #![trigger keep_alive_step(before, mid), transmitted(mid, after, now, Seq::empty(), out, EndpointState::ConnectionTimeout)]
        keep_alive_step(before, mid) && mid.wf() && transmitted(
            mid,
            after,
            now,
            Seq::empty(),
            out,
            EndpointState::ConnectionTimeout,
        )
}

/// The endpoint `e` has its answer to a connection request queued: a
/// `ConnectionAccepted` packet under sequence number 0 whose one-byte
/// payload is the slot index `i`.
pub open spec fn accept_queued(e: ReliableOrderedDatagramEndpoint, i: u8) -> bool {
    e.next_send() == 1 ==> {
        let p = e.sends().item(0).buffer.written();
        &&& e.sends().has(0)
        &&& p.len() == HEADER_SIZE + 1
        &&& p[6] == type_code(PacketType::ConnectionAccepted)
        &&& p[16] == i
    }
}

/// `after` is `before` once the valid packet `d` was taken in at time
/// `now`.
pub open spec fn received_into(
    before: ReliableOrderedDatagramEndpoint,
    after: ReliableOrderedDatagramEndpoint,
    d: Seq<u8>,
    now: u64,
) -> bool {
    exists|h: PacketHeader, b: Buffer|
        #![trigger packet_received(before, after, h, b, now)]
        header_of(h, d) && b.content() == splice(d, 0, PROTOCOL_ID.spec_to_le()) && packet_received(
            before,
            after,
            h,
            b,
            now,
        )
}

/// A fixed number of peer slots, each empty or holding the endpoint of one
/// client, and the scratch buffer that received datagrams land in.
pub struct Server {
    pub capacity: usize,
    swap: ReadStream,
    endpoints: Vec<Option<ReliableOrderedDatagramEndpoint>>,
}

impl Server {
    /// The peer slots.
    pub closed spec fn slots(&self) -> Seq<Option<ReliableOrderedDatagramEndpoint>> {
        self.endpoints@
    }

    /// The number of slots the server was made with.
    pub closed spec fn slot_capacity(&self) -> usize {
        self.capacity
    }

    /// The scratch buffer.
    pub closed spec fn scratch(&self) -> Buffer {
        self.swap.0
    }

    pub open spec fn wf(&self) -> bool {
        &&& self.slots().len() <= u8::MAX + 1
        &&& self.slots().len() == self.slot_capacity()
        &&& forall|i: int| 0 <= i < self.slots().len() ==> (#[trigger] self.slots()[i] matches Some(e) ==> e.wf())
        &&& self.scratch().wf()
        &&& self.scratch().bytes().len() == PACKET_BUFFER_SIZE
    }

    /// A server with `max_peer_count` empty slots.
    pub fn new(max_peer_count: u8) -> (r: Server)
        ensures
            r.wf(),
            r.slot_capacity() == max_peer_count as usize,
            r.slots().len() == max_peer_count,
            forall|i: int| 0 <= i < max_peer_count ==> r.slots()[i] is None,
    {
        let capacity = max_peer_count as usize;
        let mut endpoints: Vec<Option<ReliableOrderedDatagramEndpoint>> = Vec::new();
        let mut i: usize = 0;
        while i < capacity
            invariant
                i <= capacity,
                capacity == max_peer_count,
                endpoints@.len() == i,
                forall|j: int| 0 <= j < i ==> endpoints@[j] is None,
            decreases capacity - i,
        {
            endpoints.push(None);
            i = i + 1;
        }
        Server { capacity, swap: ReadStream(Buffer::with_capacity(PACKET_BUFFER_SIZE)), endpoints }
    }

    /// The number of slots.
    pub fn slot_count(&self) -> (r: usize)
        ensures
            r == self.slots().len(),
    {
        self.endpoints.len()
    }

    /// The first slot that holds the peer at `address`.
    fn index_of(&self, address: PeerAddress) -> (r: Option<usize>)
        ensures
            match r {
                Some(i) => first_slot_of(self.slots(), address, i as int),
                None => !knows_peer(self.slots(), address),
            },
    {
        let mut i: usize = 0;
        while i < self.endpoints.len()
            invariant
                i <= self.slots().len(),
                forall|j: int| 0 <= j < i ==> !#[trigger] holds_peer(self.slots(), j, address),
            decreases self.slots().len() - i,
        {
            match &self.endpoints[i] {
                Some(e) => {
                    if e.peer_address() == address {
                        return Some(i);
                    }
                },
                None => {},
            }
            i = i + 1;
        }
        None
    }

    /// The first free slot.
    fn free_slot(&self) -> (r: Option<usize>)
        ensures
            match r {
                Some(i) => first_free_slot(self.slots(), i as int),
                None => forall|j: int| 0 <= j < self.slots().len() ==> (#[trigger] self.slots()[j]) is Some,
            },
    {
        let mut i: usize = 0;
        while i < self.endpoints.len()
            invariant
                i <= self.slots().len(),
                forall|j: int| 0 <= j < i ==> (#[trigger] self.slots()[j]) is Some,
            decreases self.slots().len() - i,
        {
            if self.endpoints[i].is_none() {
                return Some(i);
            }
            i = i + 1;
        }
        None
    }

    /// One round of sending at time `now_ms` for every occupied slot. The
    /// datagrams of each peer are appended to `outbox` with its address. A
    /// slot whose peer timed out is freed and reported.
    pub fn send_frame(&mut self, now_ms: u64, outbox: &mut Vec<(PeerAddress, Vec<Vec<u8>>)>) -> (events:
        Vec<ServerEvent>)
        requires
            old(self).wf(),
        ensures
            final(self).wf(),
            final(self).slots().len() == old(self).slots().len(),
            forall|i: int|
                0 <= i < old(self).slots().len() ==> (#[trigger] final(self).slots()[i] matches Some(
                    e2,
                ) ==> old(self).slots()[i] matches Some(e1) && e2.peer() == e1.peer() && exists|
                    k: int,
                |
                    old(outbox)@.len() <= k < final(outbox)@.len() && #[trigger] sent_round(
                        e1,
                        e2,
                        now_ms,
                        final(outbox)@[k].1@,
                    ) && final(outbox)@[k].0 == e1.peer()),
            forall|i: int|
                0 <= i < old(self).slots().len() ==> ((old(self).slots()[i] is Some
                    && #[trigger] final(self).slots()[i] is None) <==> events@.contains(
                    ServerEvent::ClientTimeout(i as u8),
                )),
            forall|i: int|
                0 <= i < old(self).slots().len() && old(self).slots()[i] is Some
                    && #[trigger] final(self).slots()[i] is None ==> exists|k: int|
                    old(outbox)@.len() <= k < final(outbox)@.len() && #[trigger] timed_out_round(
                        old(self).slots()[i]->0,
                        now_ms,
                        final(outbox)@[k].1@,
                    ) && final(outbox)@[k].0 == old(self).slots()[i]->0.peer(),
            forall|k: int|
                0 <= k < events@.len() ==> (#[trigger] events@[k] matches ServerEvent::ClientTimeout(i)
                    && i < old(self).slots().len()),
            forall|k: int|
                0 <= k < old(outbox)@.len() ==> final(outbox)@[k] == old(outbox)@[k],
            forall|k: int|
                old(outbox)@.len() <= k < final(outbox)@.len() ==> knows_peer(
                    old(self).slots(),
                    (#[trigger] final(outbox)@[k]).0,
                ),
    {
        let mut events: Vec<ServerEvent> = Vec::new();
        let n = self.endpoints.len();
        let mut i: usize = 0;
        while i < n
            invariant
                n == old(self).slots().len(),
                self.wf(),
                self.slots().len() == n,
                self.scratch() == old(self).scratch(),
                i <= n,
                forall|j: int| i <= j < n ==> #[trigger] self.slots()[j] == old(self).slots()[j],
                forall|j: int|
                    0 <= j < i ==> (#[trigger] self.slots()[j] matches Some(e2) ==> old(
                        self,
                    ).slots()[j] matches Some(e1) && e2.peer() == e1.peer() && exists|k: int|
                        old(outbox)@.len() <= k < outbox@.len() && #[trigger] sent_round(
                            e1,
                            e2,
                            now_ms,
                            outbox@[k].1@,
                        ) && outbox@[k].0 == e1.peer()),
                forall|j: int|
                    0 <= j < i ==> ((old(self).slots()[j] is Some && #[trigger] self.slots()[j] is None)
                        <==> events@.contains(ServerEvent::ClientTimeout(j as u8))),
                forall|j: int|
                    0 <= j < i && old(self).slots()[j] is Some && #[trigger] self.slots()[j] is None
                        ==> exists|k: int|
                        old(outbox)@.len() <= k < outbox@.len() && #[trigger] timed_out_round(
                            old(self).slots()[j]->0,
                            now_ms,
                            outbox@[k].1@,
                        ) && outbox@[k].0 == old(self).slots()[j]->0.peer(),
                forall|k: int|
                    0 <= k < events@.len() ==> (#[trigger] events@[k] matches ServerEvent::ClientTimeout(j)
                        && j < i),
                forall|k: int| 0 <= k < old(outbox)@.len() ==> outbox@[k] == old(outbox)@[k],
                forall|k: int|
                    old(outbox)@.len() <= k < outbox@.len() ==> knows_peer(
                        old(self).slots(),
                        (#[trigger] outbox@[k]).0,
                    ),
                outbox@.len() >= old(outbox)@.len(),
            decreases n - i,
        {
            let mut timed_out = false;
            let ghost events_before = events@;
            let ghost outbox_before = outbox@;
            match &mut self.endpoints[i] {
                Some(e) => {
                    let address = e.peer_address();
                    proof {
                        assert(holds_peer(old(self).slots(), i as int, address));
                    }
                    let mut datagrams: Vec<Vec<u8>> = Vec::new();
                    let state = e.send_outstanding(now_ms, &mut datagrams);
                    outbox.push((address, datagrams));
                    match state {
                        EndpointState::Running(_) => {},
                        EndpointState::ConnectionTimeout => {
                            timed_out = true;
                        },
                    }
                },
                None => {},
            }
            proof {
                if timed_out {
                    let k = outbox@.len() - 1;
                    assert(timed_out_round(old(self).slots()[i as int]->0, now_ms, outbox@[k].1@));
                }
                assert forall|j: int|
                    0 <= j < i && old(self).slots()[j] is Some && #[trigger] self.slots()[j] is None
                        implies exists|k: int|
                        old(outbox)@.len() <= k < outbox@.len() && #[trigger] timed_out_round(
                            old(self).slots()[j]->0,
                            now_ms,
                            outbox@[k].1@,
                        ) && outbox@[k].0 == old(self).slots()[j]->0.peer() by {
                    let k = choose|k: int|
                        old(outbox)@.len() <= k < outbox_before.len() && #[trigger] timed_out_round(
                            old(self).slots()[j]->0,
                            now_ms,
                            outbox_before[k].1@,
                        ) && outbox_before[k].0 == old(self).slots()[j]->0.peer();
                    assert(outbox@[k] == outbox_before[k]);
                }
                if !timed_out && self.slots()[i as int] is Some {
                    let k = outbox@.len() - 1;
                    assert(sent_round(
                        old(self).slots()[i as int]->0,
                        self.slots()[i as int]->0,
                        now_ms,
                        outbox@[k].1@,
                    ));
                }
                assert forall|j: int| 0 <= j < i implies (#[trigger] self.slots()[j] matches Some(e2)
                    ==> old(self).slots()[j] matches Some(e1) && e2.peer() == e1.peer() && exists|k: int|
                    old(outbox)@.len() <= k < outbox@.len() && #[trigger] sent_round(
                        e1,
                        e2,
                        now_ms,
                        outbox@[k].1@,
                    ) && outbox@[k].0 == e1.peer()) by {
                    if self.slots()[j] is Some {
                        let k = choose|k: int|
                            old(outbox)@.len() <= k < outbox_before.len() && #[trigger] sent_round(
                                old(self).slots()[j]->0,
                                self.slots()[j]->0,
                                now_ms,
                                outbox_before[k].1@,
                            ) && outbox_before[k].0 == old(self).slots()[j]->0.peer();
                        assert(outbox@[k] == outbox_before[k]);
                    }
                }
            }
            if timed_out {
                self.endpoints.set(i, None);
                events.push(ServerEvent::ClientTimeout(i as u8));
            }
            proof {
                assert forall|j: int| 0 <= j < i + 1 implies ((old(self).slots()[j] is Some
                    && #[trigger] self.slots()[j] is None) <==> events@.contains(
                    ServerEvent::ClientTimeout(j as u8),
                )) by {
                    if j < i {
                        if events_before.contains(ServerEvent::ClientTimeout(j as u8)) {
                            let k = choose|k: int|
                                0 <= k < events_before.len() && events_before[k] == ServerEvent::ClientTimeout(
                                    j as u8,
                                );
                            assert(events@[k] == ServerEvent::ClientTimeout(j as u8));
                        }
                        if events@.contains(ServerEvent::ClientTimeout(j as u8)) {
                            let k = choose|k: int|
                                0 <= k < events@.len() && events@[k] == ServerEvent::ClientTimeout(
                                    j as u8,
                                );
                            if k == events_before.len() {
                                assert((j as u8) == (i as u8));
                            } else {
                                assert(events_before[k] == ServerEvent::ClientTimeout(j as u8));
                            }
                        }
                    } else {
                        if timed_out {
                            assert(events@[events@.len() - 1] == ServerEvent::ClientTimeout(j as u8));
                        } else if events@.contains(ServerEvent::ClientTimeout(j as u8)) {
                            let k = choose|k: int|
                                0 <= k < events@.len() && events@[k] == ServerEvent::ClientTimeout(
                                    j as u8,
                                );
                            assert(events_before[k] matches ServerEvent::ClientTimeout(x) && x < i);
                        }
                    }
                }
            }
            i = i + 1;
        }
        events
    }

    /// Takes in one datagram from `address` at time `now_ms`. A valid
    /// connection request with sequence number 0 from an unknown address
    /// takes the first free slot, which answers with its index; a user
    /// payload or keep-alive goes to the slot of its address; everything
    /// else is dropped.
    pub fn receive_datagram(&mut self, datagram: &[u8], address: PeerAddress, now_ms: u64) -> (r:
        Option<ServerEvent>)
        requires
            old(self).wf(),
            datagram@.len() <= PACKET_BUFFER_SIZE,
        ensures
            final(self).wf(),
            final(self).slots().len() == old(self).slots().len(),
            !packet_valid(datagram@) ==> r is None && final(self).slots() == old(self).slots(),
            packet_valid(datagram@) && datagram_type(datagram@) == PacketType::ConnectionRequest ==> if !knows_peer(
                old(self).slots(),
                address,
            ) && datagram_seq(datagram@) == 0 && exists|i: int|
                #[trigger] first_free_slot(old(self).slots(), i) {
                &&& r matches Some(ServerEvent::ClientConnected(i))
                &&& first_free_slot(old(self).slots(), i as int)
                &&& final(self).slots()[i as int] matches Some(e) && e.peer() == address
                    && e.first_receive() == 1 && e.next_send() == 1 && accept_queued(e, i)
                    && e.latest_receive() == 0 && e.rtt_avg() == 0 && e.receives().has(0) && (
                forall|k: int| 1 <= k < SEQ_COUNT ==> !#[trigger] e.receives().has(k))
                &&& forall|j: int|
                    0 <= j < old(self).slots().len() && j != i ==> #[trigger] final(self).slots()[j]
                        == old(self).slots()[j]
            } else {
                r is None && final(self).slots() == old(self).slots()
            },
            packet_valid(datagram@) && datagram_type(datagram@) == PacketType::ConnectionAccepted ==> r is None
                && final(self).slots() == old(self).slots(),
            packet_valid(datagram@) && (datagram_type(datagram@) == PacketType::UserPayload
                || datagram_type(datagram@) == PacketType::ConnectionKeepAlive) ==> r is None && if knows_peer(
                old(self).slots(),
                address,
            ) {
                exists|i: int|
                    #![trigger first_slot_of(old(self).slots(), address, i)]
                    first_slot_of(old(self).slots(), address, i) && final(self).slots()[i] is Some
                        && received_into(
                        old(self).slots()[i]->0,
                        final(self).slots()[i]->0,
                        datagram@,
                        now_ms,
                    ) && forall|j: int|
                        0 <= j < old(self).slots().len() && j != i ==> #[trigger] final(self).slots()[j]
                            == old(self).slots()[j]
            } else {
                final(self).slots() == old(self).slots()
            },
    {
        let header = self.swap.receive_packet(datagram);
        match header {
            None => None,
            Some(h) => {
                match h.packet_type {
                    PacketType::ConnectionRequest => {
                        if self.index_of(address).is_some() {
                            return None;
                        }
                        if h.seq.unwrap() != 0 {
                            return None;
                        }
                        match self.free_slot() {
                            None => None,
                            Some(index) => {
                                let mut e = ReliableOrderedDatagramEndpoint::new(address);
                                let ghost e0 = e;
                                e.receive_swap(h, &mut self.swap.0, now_ms);
                                proof {
                                    assert forall|s: int| 0 <= s < SEQ_COUNT implies !e.sends().has(s) by {
                                        assert(e.sends().stamps()[s] == e0.sends().stamps()[s]);
                                    }
                                    // the walk of the oldest unacknowledged sequence number
                                    // stops at once: 0 is also the next one to send
                                    let d = choose|d: int|
                                        #![trigger seq_forward(0, d)]
                                        0 <= d < SEQ_COUNT && e.first_send() == seq_forward(0, d)
                                            && (forall|k: int|
                                            0 <= k < d ==> !e.sends().has(#[trigger] seq_forward(0, k))
                                                && seq_less(seq_forward(0, k), h.ack@)
                                                && seq_forward(0, k) != 0) && !(seq_less(
                                            e.first_send(),
                                            h.ack@,
                                        ) && e.first_send() != 0 && !e.sends().has(e.first_send()));
                                    if d > 0 {
                                        assert(seq_forward(0, 0) == 0);
                                    }
                                    assert(e.first_send() == 0);
                                    assert(e.receives().stamps() =~= e0.receives().stamps().update(0, 0));
                                    assert forall|k: int| 1 <= k < SEQ_COUNT implies !#[trigger] e.receives().has(k) by {
                                        assert(e.receives().stamps()[k] == e0.receives().stamps()[k]);
                                        assert(!e0.receives().has(k));
                                    }
                                    assert forall|s: int| 0 <= s < SEQ_COUNT implies !(#[trigger] crate::endpoint::in_ack_prefix(
                                        h.ack@,
                                        h.ack_bits,
                                        32,
                                        s,
                                    ) && crate::endpoint::awaiting_ack(e0.sends(), s)) by {}
                                    assert(e.rtt_avg() == 0);
                                    assert(e.latest_receive() == 0);
                                }
                                e.mark_handled();
                                let mut accepted = ConnectionAcceptedPacket::new(index);
                                let ghost e1 = e;
                                e.write_packet(PacketType::ConnectionAccepted, &mut accepted);
                                proof {
                                    let hw = header_wire(
                                        fresh_header(
                                            PacketType::ConnectionAccepted,
                                            e1.next_seq(),
                                            e1.latest(),
                                            ack_bits_of(e1.receives(), e1.latest_receive()),
                                        ),
                                    );
                                    let c = hw + seq![index as u8];
                                    crate::endian::lemma_splice_read(
                                        c,
                                        0,
                                        crc32_of(c).spec_to_le(),
                                    );
                                    assert(seal(c)[6] == c[6]);
                                    assert(seal(c)[16] == c[16]);
                                    assert(c[6] == type_code(PacketType::ConnectionAccepted));
                                }
                                self.endpoints.set(index, Some(e));
                                Some(ServerEvent::ClientConnected(index as u8))
                            },
                        }
                    },
                    PacketType::ConnectionAccepted => None,
                    _ => {
                        match self.index_of(address) {
                            Some(index) => {
                                let ghost b = self.swap.0;
                                match &mut self.endpoints[index] {
                                    Some(e) => {
                                        e.receive_swap(h, &mut self.swap.0, now_ms);
                                    },
                                    None => {},
                                }
                                proof {
                                    assert(packet_received(
                                        old(self).slots()[index as int]->0,
                                        self.slots()[index as int]->0,
                                        h,
                                        b,
                                        now_ms,
                                    ));
                                }
                            },
                            None => {},
                        }
                        None
                    },
                }
            },
        }
    }

    /// Reads the next user message of the client in slot `index` into
    /// `target`, as the endpoint's `read_into` does; `Ok(false)` when the
    /// slot is empty or out of range. A packet of another type at the
    /// client's receive cursor is reported with its type.
    pub fn read_into<T: Streamable>(&mut self, index: usize, target: &mut T) -> (res: Result<bool, ReadError>)
        requires
            old(self).wf(),
        ensures
            final(self).wf(),
            final(self).slots().len() == old(self).slots().len(),
            forall|j: int|
                0 <= j < old(self).slots().len() && j != index ==> #[trigger] final(self).slots()[j]
                    == old(self).slots()[j],
            index < old(self).slots().len() && old(self).slots()[index as int] is Some ==> {
                &&& final(self).slots()[index as int] is Some
                &&& message_read(
                    old(self).slots()[index as int]->0,
                    final(self).slots()[index as int]->0,
                    PacketType::UserPayload,
                    *old(target),
                    *final(target),
                    res,
                )
            },
            !(index < old(self).slots().len() && old(self).slots()[index as int] is Some) ==> {
                &&& res == Ok::<bool, ReadError>(false)
                &&& *final(target) == *old(target)
                &&& final(self).slots() == old(self).slots()
            },
    {
        if index >= self.endpoints.len() {
            return Ok(false);
        }
        match &mut self.endpoints[index] {
            Some(e) => e.read_into(target),
            None => Ok(false),
        }
    }

    /// Reads the next user message of the client in slot `index`, as
    /// `read_into` does.
    pub fn read_new<T: Streamable>(&mut self, index: usize) -> (r: Result<Option<T>, ReadError>)
        requires
            old(self).wf(),
        ensures
            final(self).wf(),
            final(self).slots().len() == old(self).slots().len(),
            forall|j: int|
                0 <= j < old(self).slots().len() && j != index ==> #[trigger] final(self).slots()[j]
                    == old(self).slots()[j],
            index < old(self).slots().len() && old(self).slots()[index as int] is Some ==> {
                &&& final(self).slots()[index as int] is Some
                &&& message_read(
                    old(self).slots()[index as int]->0,
                    final(self).slots()[index as int]->0,
                    PacketType::UserPayload,
                    T::spec_blank(),
                    match r {
                        Ok(Some(v)) => v,
                        _ => T::spec_blank(),
                    },
                    match r {
                        Ok(Some(_)) => Ok(true),
                        Ok(None) => Ok(false),
                        Err(t) => Err(t),
                    },
                )
            },
            !(index < old(self).slots().len() && old(self).slots()[index as int] is Some) ==> {
                &&& r == Ok::<Option<T>, ReadError>(None)
                &&& final(self).slots() == old(self).slots()
            },
    {
        if index >= self.endpoints.len() {
            return Ok(None);
        }
        match &mut self.endpoints[index] {
            Some(e) => e.read_new(),
            None => Ok(None),
        }
    }

    /// Consumes, unread, every message that the clients have ready: each
    /// receive cursor moves over the slots that hold a packet and stops at
    /// the first that holds none (or after going once round a full buffer).
    pub fn drop_incoming(&mut self)
        requires
            old(self).wf(),
        ensures
            final(self).wf(),
            final(self).slots().len() == old(self).slots().len(),
            forall|j: int|
                0 <= j < old(self).slots().len() ==> (old(self).slots()[j] is Some
                    <==> #[trigger] final(self).slots()[j] is Some),
            forall|j: int|
                0 <= j < old(self).slots().len() && #[trigger] old(self).slots()[j] is Some ==> {
                    let e1 = old(self).slots()[j]->0;
                    let e2 = final(self).slots()[j]->0;
                    &&& e2.receives() == e1.receives()
                    &&& e2.sends() == e1.sends()
                    &&& e2.latest() == e1.latest()
                    &&& e2.peer() == e1.peer()
                    &&& e2.next_send() == e1.next_send()
                    &&& !e2.receives().has(e2.first_receive()) || forall|i: int|
                        0 <= i < SEQ_COUNT ==> #[trigger] e2.receives().has(i)
                },
    {
        let n = self.endpoints.len();
        let mut i: usize = 0;
        while i < n
            invariant
                n == old(self).slots().len(),
                self.wf(),
                self.slots().len() == n,
                i <= n,
                forall|j: int| i <= j < n ==> #[trigger] self.slots()[j] == old(self).slots()[j],
                forall|j: int|
                    0 <= j < i ==> (old(self).slots()[j] is Some <==> #[trigger] self.slots()[j] is Some),
                forall|j: int|
                    0 <= j < i && #[trigger] old(self).slots()[j] is Some ==> {
                        let e1 = old(self).slots()[j]->0;
                        let e2 = self.slots()[j]->0;
                        &&& e2.receives() == e1.receives()
                        &&& e2.sends() == e1.sends()
                        &&& e2.latest() == e1.latest()
                        &&& e2.peer() == e1.peer()
                        &&& e2.next_send() == e1.next_send()
                        &&& !e2.receives().has(e2.first_receive()) || forall|i: int|
                            0 <= i < SEQ_COUNT ==> #[trigger] e2.receives().has(i)
                    },
            decreases n - i,
        {
            match &mut self.endpoints[i] {
                Some(e) => e.drop_ready(),
                None => {},
            }
            i = i + 1;
        }
    }

    /// Queues `value` as a user message to every client whose send window
    /// has room, when it fits in one packet. `true` exactly when every
    /// client got it.
    pub fn broadcast<T: Streamable>(&mut self, value: &mut T) -> (all_queued: bool)
        requires
            old(self).wf(),
        ensures
            final(self).wf(),
            all_queued == forall|j: int|
                0 <= j < old(self).slots().len() && #[trigger] old(self).slots()[j] is Some ==> (old(
                    self,
                ).slots()[j]->0.window() < SEQ_COUNT - 1 && HEADER_SIZE + old(value).wire().len()
                    <= PACKET_BUFFER_SIZE),
            *final(value) == *old(value),
            final(self).slots().len() == old(self).slots().len(),
            forall|j: int|
                0 <= j < old(self).slots().len() ==> (old(self).slots()[j] is Some
                    <==> #[trigger] final(self).slots()[j] is Some),
            forall|j: int|
                0 <= j < old(self).slots().len() && #[trigger] old(self).slots()[j] is Some ==> {
                    let e1 = old(self).slots()[j]->0;
                    let e2 = final(self).slots()[j]->0;
                    if e1.window() < SEQ_COUNT - 1 && HEADER_SIZE + old(value).wire().len()
                        <= PACKET_BUFFER_SIZE {
                        packet_queued(e1, e2, PacketType::UserPayload, old(value).wire())
                    } else {
                        e2 == e1
                    }
                },
    {
        let size = value.wire_len();
        let n = self.endpoints.len();
        let mut i: usize = 0;
        let mut all_queued = true;
        while i < n
            invariant
                n == old(self).slots().len(),
                self.wf(),
                self.slots().len() == n,
                *value == *old(value),
                all_queued == forall|j: int|
                    0 <= j < i && #[trigger] old(self).slots()[j] is Some ==> (old(
                        self,
                    ).slots()[j]->0.window() < SEQ_COUNT - 1 && HEADER_SIZE + old(value).wire().len()
                        <= PACKET_BUFFER_SIZE),
                size == value.wire().len() || (size > PACKET_BUFFER_SIZE && value.wire().len()
                    > PACKET_BUFFER_SIZE),
                i <= n,
                forall|j: int| i <= j < n ==> #[trigger] self.slots()[j] == old(self).slots()[j],
                forall|j: int|
                    0 <= j < i ==> (old(self).slots()[j] is Some <==> #[trigger] self.slots()[j] is Some),
                forall|j: int|
                    0 <= j < i && #[trigger] old(self).slots()[j] is Some ==> {
                        let e1 = old(self).slots()[j]->0;
                        let e2 = self.slots()[j]->0;
                        if e1.window() < SEQ_COUNT - 1 && HEADER_SIZE + old(value).wire().len()
                            <= PACKET_BUFFER_SIZE {
                            packet_queued(e1, e2, PacketType::UserPayload, old(value).wire())
                        } else {
                            e2 == e1
                        }
                    },
            decreases n - i,
        {
            match &mut self.endpoints[i] {
                Some(e) => {
                    if e.can_write() && size <= PACKET_BUFFER_SIZE - HEADER_SIZE {
                        e.write_packet(PacketType::UserPayload, value);
                    } else {
                        all_queued = false;
                    }
                },
                None => {},
            }
            i = i + 1;
        }
        all_queued
    }
}

} // verus!
