//! The lobby messages of the example game.

use vstd::prelude::*;
use crate::endian::Endian;
use crate::stream::{rest, Stream, Streamable};

verus! {

/// The phase of the example game.
#[derive(Clone, Copy, Debug, PartialEq, Eq, Structural)]
pub enum GameState {
    Lobby,
    Running,
}

/// The seats taken in the lobby: bit `i` set when player `i` has joined.
#[derive(Clone, Copy, Debug, PartialEq, Eq, Structural)]
pub struct Lobby {
    pub join_mask: u8,
}

/// The largest number of seats in a lobby.
pub const LOBBY_SEATS: u8 = 8;

impl Lobby {
    /// An empty lobby.
    pub fn new() -> (r: Lobby)
        ensures
            r.join_mask == 0,
    {
        Lobby { join_mask: 0 }
    }

    /// Player `index` takes its seat.
    pub fn add_player(&mut self, index: u8)
        requires
            index < LOBBY_SEATS,
        ensures
            final(self).join_mask == old(self).join_mask | (1u8 << index),
    {
        self.join_mask = self.join_mask | (1u8 << index);
    }

    /// Player `index` leaves its seat.
    pub fn remove_player(&mut self, index: u8)
        requires
            index < LOBBY_SEATS,
        ensures
            final(self).join_mask == old(self).join_mask & !(1u8 << index),
    {
        self.join_mask = self.join_mask & !(1u8 << index);
    }
}

/// Seat `i` is taken in `mask`.
pub open spec fn seat_taken(mask: u8, i: u8) -> bool {
    (mask >> i) & 1u8 == 1u8
}

/// Taking a seat marks exactly that seat; leaving it clears exactly that
/// seat.
pub proof fn lemma_seats(mask: u8, index: u8, i: u8)
    requires
        index < LOBBY_SEATS,
        i < LOBBY_SEATS,
    ensures
        seat_taken(mask | (1u8 << index), i) == (i == index || seat_taken(mask, i)),
        seat_taken(mask & !(1u8 << index), i) == (i != index && seat_taken(mask, i)),
{
    assert(((mask | (1u8 << index)) >> i) & 1u8 == 1u8 <==> (i == index || (mask >> i) & 1u8 == 1u8))
        by (bit_vector)
        requires
            index < 8,
            i < 8,
    ;
    assert(((mask & !(1u8 << index)) >> i) & 1u8 == 1u8 <==> (i != index && (mask >> i) & 1u8
        == 1u8)) by (bit_vector)
        requires
            index < 8,
            i < 8,
    ;
}

impl Streamable for Lobby {
    open spec fn wire(&self) -> Seq<u8> {
        seq![self.join_mask]
    }

    fn wire_len(&self) -> (r: usize) {
        1
    }

    open spec fn spec_blank() -> Lobby {
        Lobby { join_mask: 0 }
    }

    fn blank() -> (r: Lobby) {
        Lobby { join_mask: 0 }
    }

    open spec fn parse(b: Seq<u8>) -> Option<(Lobby, nat)> {
        if b.len() >= 1 {
            Some((Lobby { join_mask: b[0] }, 1))
        } else {
            None
        }
    }

    proof fn lemma_parse_wire(&self, tail: Seq<u8>) {
        assert((seq![self.join_mask] + tail)[0] == self.join_mask);
    }

    fn stream<S: Stream>(&mut self, s: &mut S) -> (ok: bool) {
        let ghost b = s.buf();
        let ok = s.copy(&mut self.join_mask);
        proof {
            if rest(b).len() >= 1 {
                assert(rest(b)[0] == b.bytes().subrange(b.pos() as int, (b.pos() + 1) as int)[0]);
            }
            assert(seq![self.join_mask] =~= self.join_mask.spec_to_le());
        }
        ok
    }
}

/// The wire tag of `LobbyMessage::LobbyUpdated`.
pub const LOBBY_UPDATED_TAG: u8 = 10;

/// The wire tag of `LobbyMessage::StartGame`.
pub const START_GAME_TAG: u8 = 11;

/// A message of the lobby phase: a one-byte tag, then the variant's fields.
#[derive(Clone, Copy, Debug, PartialEq, Eq, Structural)]
pub enum LobbyMessage {
    LobbyUpdated(Lobby),
    StartGame,
}

impl LobbyMessage {
    /// The wire tag of this variant.
    pub fn discriminant(&self) -> (r: u8)
        ensures
            r == (match self {
                LobbyMessage::LobbyUpdated(_) => LOBBY_UPDATED_TAG,
                LobbyMessage::StartGame => START_GAME_TAG,
            }),
    {
        match self {
            LobbyMessage::LobbyUpdated(_) => LOBBY_UPDATED_TAG,
            LobbyMessage::StartGame => START_GAME_TAG,
        }
    }
}

impl Streamable for LobbyMessage {
    open spec fn wire(&self) -> Seq<u8> {
        match self {
            LobbyMessage::LobbyUpdated(l) => seq![LOBBY_UPDATED_TAG] + l.wire(),
            LobbyMessage::StartGame => seq![START_GAME_TAG],
        }
    }

    fn wire_len(&self) -> (r: usize) {
        match self {
            LobbyMessage::LobbyUpdated(_) => 2,
            LobbyMessage::StartGame => 1,
        }
    }

    open spec fn spec_blank() -> LobbyMessage {
        LobbyMessage::StartGame
    }

    fn blank() -> (r: LobbyMessage) {
        LobbyMessage::StartGame
    }

    /// An unknown tag parses to nothing: the stream reports failure rather
    /// than make up a variant.
    open spec fn parse(b: Seq<u8>) -> Option<(LobbyMessage, nat)> {
        if b.len() >= 1 && b[0] == LOBBY_UPDATED_TAG {
            match Lobby::parse(b.subrange(1, b.len() as int)) {
                Some((l, n)) => Some((LobbyMessage::LobbyUpdated(l), n + 1)),
                None => None,
            }
        } else if b.len() >= 1 && b[0] == START_GAME_TAG {
            Some((LobbyMessage::StartGame, 1))
        } else {
            None
        }
    }

    proof fn lemma_parse_wire(&self, tail: Seq<u8>) {
        match self {
            LobbyMessage::LobbyUpdated(l) => {
                let w = seq![LOBBY_UPDATED_TAG] + l.wire() + tail;
                assert(w.subrange(1, w.len() as int) =~= l.wire() + tail);
                l.lemma_parse_wire(tail);
                assert(seq![LOBBY_UPDATED_TAG] + l.wire() + tail =~= self.wire() + tail);
            },
            LobbyMessage::StartGame => {
                assert((self.wire() + tail)[0] == START_GAME_TAG);
            },
        }
    }

    fn stream<S: Stream>(&mut self, s: &mut S) -> (ok: bool) {
        let ghost b0 = s.buf();
        let ghost m0 = *self;
        if S::is_writing() {
            let mut tag = self.discriminant();
            if !s.copy(&mut tag) {
                return false;
            }
            let ghost b1 = s.buf();
            match self {
                LobbyMessage::LobbyUpdated(l) => {
                    let ghost l0 = *l;
                    let ok = l.stream(s);
                    proof {
                        assert(seq![LOBBY_UPDATED_TAG] =~= tag.spec_to_le());
                        if ok {
                            crate::endian::lemma_splice_twice(
                                b0.bytes(),
                                b0.pos() as int,
                                seq![LOBBY_UPDATED_TAG],
                                l0.wire(),
                            );
                        }
                    }
                    ok
                },
                LobbyMessage::StartGame => {
                    proof {
                        assert(seq![START_GAME_TAG] =~= tag.spec_to_le());
                    }
                    true
                },
            }
        } else {
            let mut tag: u8 = 0;
            if !s.copy(&mut tag) {
                return false;
            }
            let ghost b1 = s.buf();
            proof {
                let r = rest(b0);
                assert(tag == r[0]) by {
                    assert(r[0] == b0.bytes().subrange(b0.pos() as int, (b0.pos() + 1) as int)[0]);
                }
                assert(rest(b1) =~= r.subrange(1, r.len() as int));
            }
            if tag == LOBBY_UPDATED_TAG {
                let mut lobby = Lobby::new();
                if lobby.stream(s) {
                    *self = LobbyMessage::LobbyUpdated(lobby);
                    true
                } else {
                    false
                }
            } else if tag == START_GAME_TAG {
                *self = LobbyMessage::StartGame;
                true
            } else {
                false
            }
        }
    }
}

} // verus!
