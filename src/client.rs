//! The client driver: one endpoint to the server and the connection
//! handshake.

use vstd::prelude::*;
use crate::buffer::Buffer;
use crate::endpoint::{
    is_fresh, keep_alive_step, message_read, packet_queued, transmitted, EndpointState,
    PeerAddress, ReadError, ReliableOrderedDatagramEndpoint,
};
use crate::packet::{ConnectionAcceptedPacket, PacketType, HEADER_SIZE, PACKET_BUFFER_SIZE};
use crate::sequence::SEQ_COUNT;
use crate::server::{datagram_type, received_into};
use crate::endpoint::packet_received;
use crate::stream::{packet_valid, ReadStream, Streamable};

verus! {

/// The handshake state of a client.
#[derive(Clone, Copy, Debug, PartialEq, Eq, Structural)]
pub enum ClientState {
    /// A connection request is to be queued.
    ConnectionRequest,
    /// Waiting for the server to accept.
    Connecting,
    /// Accepted: messages flow.
    Connected,
}

/// What the client reports to the application.
#[derive(Clone, Copy, Debug, PartialEq, Eq, Structural)]
pub enum ClientEvent {
    Connected,
    ConnectionTimeout,
}

/// One endpoint to the server, the handshake state, and the slot the server
/// gave this client.
pub struct Client {
    pub index: u8,
    swap: ReadStream,
    endpoint: ReliableOrderedDatagramEndpoint,
    pub state: ClientState,
}

impl Client {
    /// The endpoint to the server.
    pub closed spec fn channel(&self) -> ReliableOrderedDatagramEndpoint {
        self.endpoint
    }

    /// The handshake state.
    pub closed spec fn phase(&self) -> ClientState {
        self.state
    }

    /// The slot the server gave this client.
    pub closed spec fn slot(&self) -> u8 {
        self.index
    }

    /// The scratch buffer.
    pub closed spec fn scratch(&self) -> Buffer {
        self.swap.0
    }

    pub open spec fn wf(&self) -> bool {
        &&& self.channel().wf()
        &&& self.scratch().wf()
        &&& self.scratch().bytes().len() == PACKET_BUFFER_SIZE
    }

    /// A client of the server at `server_address`, about to request a
    /// connection.
    pub fn new(server_address: PeerAddress) -> (r: Client)
        ensures
            r.wf(),
            r.phase() == ClientState::ConnectionRequest,
            r.slot() == 0,
            r.channel().peer() == server_address,
            r.channel().next_send() == 0,
            r.channel().first_receive() == 0,
    {
        Client {
            index: 0,
            swap: ReadStream(Buffer::with_capacity(PACKET_BUFFER_SIZE)),
            endpoint: ReliableOrderedDatagramEndpoint::new(server_address),
            state: ClientState::ConnectionRequest,
        }
    }

    /// The handshake state.
    pub fn current_state(&self) -> (r: ClientState)
        ensures
            r == self.phase(),
    {
        self.state
    }

    /// The slot the server gave this client.
    pub fn slot_index(&self) -> (r: u8)
        ensures
            r == self.slot(),
    {
        self.index
    }

    /// One round of sending at time `now_ms`; the datagrams for the server
    /// are appended to `outbox`. When the server stopped answering, the
    /// endpoint is replaced by a fresh one and the handshake starts over.
    pub fn send_frame(&mut self, now_ms: u64, outbox: &mut Vec<Vec<u8>>) -> (r: Option<ClientEvent>)
        requires
            old(self).wf(),
        ensures
            final(self).wf(),
            final(self).channel().peer() == old(self).channel().peer(),
            final(self).slot() == old(self).slot(),
            r is Some ==> r == Some(ClientEvent::ConnectionTimeout) && final(self).phase()
                == ClientState::ConnectionRequest,
            r is None ==> final(self).phase() == old(self).phase(),
            exists|
                mid: ReliableOrderedDatagramEndpoint,
                after: ReliableOrderedDatagramEndpoint,
                st: EndpointState,
            |
                #![trigger keep_alive_step(old(self).channel(), mid), transmitted(mid, after, now_ms, old(outbox)@, final(outbox)@, st)]
                keep_alive_step(old(self).channel(), mid) && mid.wf() && transmitted(
                    mid,
                    after,
                    now_ms,
                    old(outbox)@,
                    final(outbox)@,
                    st,
                ) && (r is None <==> st is Running) && (r is None ==> final(self).channel() == after),
            r is Some ==> is_fresh(final(self).channel(), old(self).channel().peer()),
    {
        let peer = self.endpoint.peer_address();
        let st = self.endpoint.send_outstanding(now_ms, outbox);
        let ghost after = self.channel();
        proof {
            let mid = choose|mid: ReliableOrderedDatagramEndpoint|
                #![trigger keep_alive_step(old(self).channel(), mid)]
                keep_alive_step(old(self).channel(), mid) && mid.wf() && transmitted(
                    mid,
                    self.channel(),
                    now_ms,
                    old(outbox)@,
                    outbox@,
                    st,
                );
            assert(keep_alive_step(old(self).channel(), mid));
            assert(transmitted(mid, after, now_ms, old(outbox)@, outbox@, st));
        }
        match st {
            EndpointState::Running(_) => None,
            EndpointState::ConnectionTimeout => {
                self.endpoint = ReliableOrderedDatagramEndpoint::new(peer);
                self.state = ClientState::ConnectionRequest;
                Some(ClientEvent::ConnectionTimeout)
            },
        }
    }

    /// Takes in one datagram from `address` at time `now_ms`: a valid packet
    /// from the server goes to the endpoint unless it is a connection
    /// request; everything else is dropped.
    pub fn receive_datagram(&mut self, datagram: &[u8], address: PeerAddress, now_ms: u64)
        requires
            old(self).wf(),
            datagram@.len() <= PACKET_BUFFER_SIZE,
        ensures
            final(self).wf(),
            final(self).phase() == old(self).phase(),
            final(self).slot() == old(self).slot(),
            final(self).channel().peer() == old(self).channel().peer(),
            final(self).channel().next_send() == old(self).channel().next_send(),
            final(self).channel().first_receive() == old(self).channel().first_receive(),
            !(packet_valid(datagram@) && address == old(self).channel().peer()
                && datagram_type(datagram@) != PacketType::ConnectionRequest) ==> final(self).channel()
                == old(self).channel(),
            packet_valid(datagram@) && address == old(self).channel().peer() && datagram_type(
                datagram@,
            ) != PacketType::ConnectionRequest ==> received_into(
                old(self).channel(),
                final(self).channel(),
                datagram@,
                now_ms,
            ),
    {
        if self.endpoint.peer_address() != address {
            return ;
        }
        match self.swap.receive_packet(datagram) {
            Some(h) => {
                match h.packet_type {
                    PacketType::ConnectionRequest => {},
                    _ => {
                        let ghost b = self.swap.0;
                        self.endpoint.receive_swap(h, &mut self.swap.0, now_ms);
                        proof {
                            assert(packet_received(old(self).channel(), self.channel(), h, b, now_ms));
                        }
                    },
                }
            },
            None => {},
        }
    }

    /// The handshake step of a tick. In `ConnectionRequest` the endpoint
    /// starts afresh, a connection request is queued under sequence number
    /// 0, and the client moves to `Connecting`. In `Connecting` an accept
    /// packet at the receive cursor is read: its slot index is kept and the
    /// client is `Connected`. A packet of another type there is left in
    /// place and reported with its type: the server broke the handshake.
    pub fn update_state(&mut self) -> (r: Result<Option<ClientEvent>, ReadError>)
        requires
            old(self).wf(),
        ensures
            final(self).wf(),
            final(self).channel().peer() == old(self).channel().peer(),
            old(self).phase() == ClientState::ConnectionRequest ==> {
                &&& r == Ok::<Option<ClientEvent>, ReadError>(None)
                &&& final(self).phase() == ClientState::Connecting
                &&& final(self).channel().next_send() == 1
                &&& exists|f: ReliableOrderedDatagramEndpoint|
                    #![trigger packet_queued(f, final(self).channel(), PacketType::ConnectionRequest, Seq::empty())]
                    is_fresh(f, old(self).channel().peer()) && f.wf() && packet_queued(
                        f,
                        final(self).channel(),
                        PacketType::ConnectionRequest,
                        Seq::empty(),
                    )
            },
            old(self).phase() == ClientState::Connecting ==> {
                &&& r == Ok::<Option<ClientEvent>, ReadError>(Some(ClientEvent::Connected)) ==> message_read(
                    old(self).channel(),
                    final(self).channel(),
                    PacketType::ConnectionAccepted,
                    ConnectionAcceptedPacket { index: 0 },
                    ConnectionAcceptedPacket { index: final(self).slot() },
                    Ok(true),
                )
                &&& r != Ok::<Option<ClientEvent>, ReadError>(Some(ClientEvent::Connected)) ==> message_read(
                    old(self).channel(),
                    final(self).channel(),
                    PacketType::ConnectionAccepted,
                    ConnectionAcceptedPacket { index: 0 },
                    ConnectionAcceptedPacket { index: 0 },
                    match r {
                        Err(t) => Err(t),
                        _ => Ok(false),
                    },
                )
                &&& r == Ok::<Option<ClientEvent>, ReadError>(None) || r == Ok::<
                    Option<ClientEvent>,
                    ReadError,
                >(Some(ClientEvent::Connected)) || r is Err
                &&& (r == Ok::<Option<ClientEvent>, ReadError>(Some(ClientEvent::Connected)))
                    <==> final(self).phase() == ClientState::Connected
                &&& r != Ok::<Option<ClientEvent>, ReadError>(Some(ClientEvent::Connected))
                    ==> final(self).slot() == old(self).slot() && final(self).phase()
                    == ClientState::Connecting
            },
            old(self).phase() == ClientState::Connected ==> r == Ok::<Option<ClientEvent>, ReadError>(None)
                && *final(self) == *old(self),
    {
        match self.state {
            ClientState::ConnectionRequest => {
                let peer = self.endpoint.peer_address();
                self.endpoint = ReliableOrderedDatagramEndpoint::new(peer);
                let ghost f = self.channel();
                self.endpoint.create_packet(PacketType::ConnectionRequest);
                self.state = ClientState::Connecting;
                proof {
                    assert(packet_queued(f, self.channel(), PacketType::ConnectionRequest, Seq::empty()));
                }
                Ok(None)
            },
            ClientState::Connecting => {
                let mut accepted = ConnectionAcceptedPacket { index: 0 };
                match self.endpoint.read_message_of(PacketType::ConnectionAccepted, &mut accepted) {
                    Ok(true) => {
                        self.index = accepted.index;
                        self.state = ClientState::Connected;
                        Ok(Some(ClientEvent::Connected))
                    },
                    Ok(false) => {
                        proof {
                            crate::endpoint::lemma_message_read_failed(
                                old(self).channel(),
                                self.channel(),
                                PacketType::ConnectionAccepted,
                                ConnectionAcceptedPacket { index: 0 },
                                accepted,
                                Ok(false),
                            );
                        }
                        Ok(None)
                    },
                    Err(t) => {
                        proof {
                            crate::endpoint::lemma_message_read_failed(
                                old(self).channel(),
                                self.channel(),
                                PacketType::ConnectionAccepted,
                                ConnectionAcceptedPacket { index: 0 },
                                accepted,
                                Err(t),
                            );
                        }
                        Err(t)
                    },
                }
            },
            ClientState::Connected => Ok(None),
        }
    }

    /// Reads the next user message from the server into `target`, as the
    /// endpoint's `read_into` does.
    pub fn read_into<T: Streamable>(&mut self, target: &mut T) -> (res: Result<bool, ReadError>)
        requires
            old(self).wf(),
            old(self).phase() == ClientState::Connected,
        ensures
            final(self).wf(),
            final(self).phase() == old(self).phase(),
            final(self).slot() == old(self).slot(),
            message_read(
                old(self).channel(),
                final(self).channel(),
                PacketType::UserPayload,
                *old(target),
                *final(target),
                res,
            ),
    {
        self.endpoint.read_into(target)
    }

    /// Reads the next user message from the server, as the endpoint's
    /// `read_new` does.
    pub fn read_new<T: Streamable>(&mut self) -> (r: Result<Option<T>, ReadError>)
        requires
            old(self).wf(),
            old(self).phase() == ClientState::Connected,
        ensures
            final(self).wf(),
            final(self).phase() == old(self).phase(),
            final(self).slot() == old(self).slot(),
            message_read(
                old(self).channel(),
                final(self).channel(),
                PacketType::UserPayload,
                T::spec_blank(),
                match r {
                    Ok(Some(v)) => v,
                    _ => T::spec_blank(),
                },
                match r {
                    Ok(Some(_)) => Ok(true),
                    Ok(None) => Ok(false),
                    Err(t) => Err(t),
                },
            ),
    {
        self.endpoint.read_new()
    }

    /// Queues `value` as a user message to the server; `false`, with
    /// nothing queued, when the send window is full or the message does not
    /// fit in one packet.
    pub fn write<T: Streamable>(&mut self, value: &mut T) -> (ok: bool)
        requires
            old(self).wf(),
        ensures
            final(self).wf(),
            *final(value) == *old(value),
            final(self).phase() == old(self).phase(),
            final(self).slot() == old(self).slot(),
            ok == (old(self).channel().window() < SEQ_COUNT - 1 && HEADER_SIZE + old(value).wire().len()
                <= PACKET_BUFFER_SIZE),
            ok ==> packet_queued(
                old(self).channel(),
                final(self).channel(),
                PacketType::UserPayload,
                old(value).wire(),
            ),
            !ok ==> final(self).channel() == old(self).channel(),
    {
        let size = value.wire_len();
        if self.endpoint.can_write() && size <= PACKET_BUFFER_SIZE - HEADER_SIZE {
            self.endpoint.write_packet(PacketType::UserPayload, value);
            true
        } else {
            false
        }
    }
}

} // verus!
