//! The decisions of a peer session: the states from the open transport to
//! the lifted choke, and the strictly sequential download of one piece. The
//! caller moves the bytes; these functions say what to do next and what to
//! make of what came.

use crate::download::{calculate_block_length, layout_consistent, piece_length_of};
use crate::peer::{handshake_reading, HandShake, MessageView, PeerMessage};
use crate::torrent::Torrent;
use vstd::prelude::*;

verus! {

/// A violation of the peer protocol.
#[derive(Debug, Clone, Copy, PartialEq, Eq, Structural)]
pub enum ProtocolError {
    /// The peer's 68 bytes are no handshake.
    HandshakeRejected,
    /// Another message came than the one the exchange calls for.
    UnexpectedMessage,
    /// A block came that is not the block that was requested.
    ProtocolDesync,
    /// An event was reported that the state does not wait for.
    OutOfTurn,
}

/// Where a connection stands.
#[derive(Debug, Clone, Copy, PartialEq, Eq, Structural)]
pub enum SessionState {
    /// The transport is open and nothing was sent.
    Connected,
    /// The local handshake was sent; the peer's is awaited.
    HandshakeSent,
    /// The peer's handshake was accepted; its bitfield is awaited.
    HandshakeVerified,
    /// The bitfield came; `Interested` is to be sent.
    BitfieldReceived,
    /// `Interested` was sent; `UnChoke` is awaited.
    InterestedSent,
    /// The peer lifted the choke: blocks may be requested.
    Unchoked,
    /// The connection is given up.
    Closed,
}

/// What the caller is to do next.
#[derive(Debug, Clone, Copy, PartialEq, Eq, Structural)]
pub enum SessionAction {
    /// Send the local handshake, then report `Sent`.
    SendHandshake,
    /// Read 68 bytes and report them.
    ReceiveHandshake,
    /// Read one message and report it.
    ReceiveMessage,
    /// Send `Interested`, then report `Sent`.
    SendInterested,
    /// Request blocks, one at a time.
    RequestBlocks,
    /// Close the transport.
    Close,
}

/// What the caller reports.
#[derive(Debug)]
pub enum SessionEvent {
    /// What was to be sent has been sent.
    Sent,
    /// The 68 bytes that the peer answered the handshake with.
    Handshake([u8; 68]),
    /// A message from the peer.
    Message(PeerMessage),
}

/// An event as a mathematical value.
pub enum EventView {
    Sent,
    Handshake(Seq<u8>),
    Message(MessageView),
}

impl View for SessionEvent {
    type V = EventView;

    open spec fn view(&self) -> EventView {
        match *self {
            SessionEvent::Sent => EventView::Sent,
            SessionEvent::Handshake(bytes) => EventView::Handshake(bytes@),
            SessionEvent::Message(message) => EventView::Message(message@),
        }
    }
}

/// What is to be done in each state.
pub open spec fn action_in(state: SessionState) -> SessionAction {
    match state {
        SessionState::Connected => SessionAction::SendHandshake,
        SessionState::HandshakeSent => SessionAction::ReceiveHandshake,
        SessionState::HandshakeVerified => SessionAction::ReceiveMessage,
        SessionState::BitfieldReceived => SessionAction::SendInterested,
        SessionState::InterestedSent => SessionAction::ReceiveMessage,
        SessionState::Unchoked => SessionAction::RequestBlocks,
        SessionState::Closed => SessionAction::Close,
    }
}

/// The state that an event leads to. The handshake is sent first and the
/// peer's is read back: it must name the protocol. The first message must
/// be a bitfield, which is answered with `Interested`, and the next must be
/// `UnChoke`; no other message is taken in between. An event that the state
/// does not wait for is out of turn. After any error the connection is to
/// be closed.
pub open spec fn state_after(state: SessionState, event: EventView) -> Result<
    SessionState,
    ProtocolError,
> {
    match (state, event) {
        (SessionState::Connected, EventView::Sent) => Ok(SessionState::HandshakeSent),
        (SessionState::HandshakeSent, EventView::Handshake(bytes)) => if handshake_reading(
            bytes,
        ) is Ok {
            Ok(SessionState::HandshakeVerified)
        } else {
            Err(ProtocolError::HandshakeRejected)
        },
        (SessionState::HandshakeVerified, EventView::Message(message)) => if message is Bitfield {
            Ok(SessionState::BitfieldReceived)
        } else {
            Err(ProtocolError::UnexpectedMessage)
        },
        (SessionState::BitfieldReceived, EventView::Sent) => Ok(SessionState::InterestedSent),
        (SessionState::InterestedSent, EventView::Message(message)) => if message is UnChoke {
            Ok(SessionState::Unchoked)
        } else {
            Err(ProtocolError::UnexpectedMessage)
        },
        _ => Err(ProtocolError::OutOfTurn),
    }
}

/// What the caller is to do in `state`.
pub fn next_action(state: SessionState) -> (action: SessionAction)
    ensures
        action == action_in(state),
{
    match state {
        SessionState::Connected => SessionAction::SendHandshake,
        SessionState::HandshakeSent => SessionAction::ReceiveHandshake,
        SessionState::HandshakeVerified => SessionAction::ReceiveMessage,
        SessionState::BitfieldReceived => SessionAction::SendInterested,
        SessionState::InterestedSent => SessionAction::ReceiveMessage,
        SessionState::Unchoked => SessionAction::RequestBlocks,
        SessionState::Closed => SessionAction::Close,
    }
}

/// One step of a session: the state that `event` leads to from `state`, or
/// the violation that ends the session.
pub fn advance(state: SessionState, event: &SessionEvent) -> (r: Result<
    SessionState,
    ProtocolError,
>)
    ensures
        r == state_after(state, event@),
{
    match state {
        SessionState::Connected => match event {
            SessionEvent::Sent => Ok(SessionState::HandshakeSent),
            _ => Err(ProtocolError::OutOfTurn),
        },
        SessionState::HandshakeSent => match event {
            SessionEvent::Handshake(bytes) => match HandShake::from_bytes(*bytes) {
                Ok(_) => Ok(SessionState::HandshakeVerified),
                Err(_) => Err(ProtocolError::HandshakeRejected),
            },
            _ => Err(ProtocolError::OutOfTurn),
        },
        SessionState::HandshakeVerified => match event {
            SessionEvent::Message(PeerMessage::Bitfield { .. }) => Ok(
                SessionState::BitfieldReceived,
            ),
            SessionEvent::Message(_) => Err(ProtocolError::UnexpectedMessage),
            _ => Err(ProtocolError::OutOfTurn),
        },
        SessionState::BitfieldReceived => match event {
            SessionEvent::Sent => Ok(SessionState::InterestedSent),
            _ => Err(ProtocolError::OutOfTurn),
        },
        SessionState::InterestedSent => match event {
            SessionEvent::Message(PeerMessage::UnChoke) => Ok(SessionState::Unchoked),
            SessionEvent::Message(_) => Err(ProtocolError::UnexpectedMessage),
            _ => Err(ProtocolError::OutOfTurn),
        },
        SessionState::Unchoked => Err(ProtocolError::OutOfTurn),
        SessionState::Closed => Err(ProtocolError::OutOfTurn),
    }
}

/// From the verified handshake the choke is lifted by exactly two messages:
/// a bitfield and, once `Interested` is sent, `UnChoke`.
pub proof fn lemma_bootstrap_sequence(first: MessageView, second: MessageView)
    ensures
        match state_after(SessionState::HandshakeVerified, EventView::Message(first)) {
            Ok(state) => first is Bitfield && action_in(state) == SessionAction::SendInterested
                && match state_after(state, EventView::Sent) {
                Ok(state) => match state_after(state, EventView::Message(second)) {
                    Ok(state) => second is UnChoke && state == SessionState::Unchoked,
                    Err(e) => !(second is UnChoke) && e == ProtocolError::UnexpectedMessage,
                },
                Err(_) => false,
            },
            Err(e) => !(first is Bitfield) && e == ProtocolError::UnexpectedMessage,
        },
{
}

/// The download of one piece: the buffer, and which block is due.
#[derive(Debug)]
pub struct PieceDownload {
    /// The index of the piece.
    pub piece_index: u32,
    /// The length of every block but the last.
    pub block_size: u32,
    /// The number of blocks.
    pub block_count: u32,
    /// The length of the last block.
    pub last_block_length: u32,
    /// The number of blocks that have landed.
    pub next_block: u32,
    /// The piece, filled up to the block that is due.
    pub buffer: Vec<u8>,
}

impl PieceDownload {
    /// The blocks add up to the buffer, whose offsets fit the wire, and the
    /// block that is due exists or the piece is complete.
    pub open spec fn wf(&self) -> bool {
        &&& self.buffer@.len() <= u32::MAX
        &&& self.block_size > 0
        &&& self.block_count >= 1
        &&& 1 <= self.last_block_length <= self.block_size
        &&& (self.block_count - 1) * self.block_size + self.last_block_length
            == self.buffer@.len()
        &&& self.next_block <= self.block_count
    }

    /// Every block has landed.
    pub open spec fn complete(&self) -> bool {
        self.next_block == self.block_count
    }

    /// The offset of the block that is due.
    pub open spec fn due_offset(&self) -> int {
        self.next_block * self.block_size
    }

    /// The length of the block that is due.
    pub open spec fn due_length(&self) -> int {
        if self.next_block == self.block_count - 1 {
            self.last_block_length as int
        } else {
            self.block_size as int
        }
    }

    /// The part of the piece that has landed.
    pub open spec fn received(&self) -> Seq<u8> {
        if self.complete() {
            self.buffer@
        } else {
            self.buffer@.take(self.due_offset())
        }
    }

    /// The request for the block that is due.
    pub open spec fn due_request(&self) -> MessageView {
        MessageView::Request {
            piece_index: self.piece_index,
            offset: self.due_offset() as u32,
            length: self.due_length() as u32,
        }
    }

    /// The block that is due lies inside the buffer, and its offset fits
    /// the wire.
    pub proof fn lemma_due_block_fits(&self)
        requires
            self.wf(),
            !self.complete(),
        ensures
            0 <= self.due_offset(),
            self.due_offset() + self.due_length() <= self.buffer@.len(),
            self.next_block == self.block_count - 1 ==> self.due_offset() + self.due_length()
                == self.buffer@.len(),
            (self.next_block + 1) * self.block_size == self.due_offset() + self.block_size,
    {
        let n = self.next_block as int;
        let c = self.block_count as int;
        let b = self.block_size as int;
        assert(n * b >= 0) by (nonlinear_arith)
            requires
                n >= 0,
                b > 0,
        ;
        assert((n + 1) * b == n * b + b) by (nonlinear_arith);
        if n + 1 <= c - 1 {
            assert((n + 1) * b <= (c - 1) * b) by (nonlinear_arith)
                requires
                    n + 1 <= c - 1,
                    b > 0,
            ;
        }
    }

    /// A download of piece `piece_index` of `torrent` in blocks of
    /// `block_size` bytes, with a zeroed buffer and no block landed yet.
    pub fn start(torrent: &Torrent, piece_index: usize, block_size: u32) -> (d: Self)
        requires
            layout_consistent(torrent@),
            piece_index < torrent@.info.pieces.len(),
            piece_index <= u32::MAX,
            block_size > 0,
            piece_length_of(torrent@, piece_index as int) <= u32::MAX,
        ensures
            d.wf(),
            d.piece_index == piece_index,
            d.block_size == block_size,
            d.next_block == 0,
            d.buffer@ == Seq::new(
                piece_length_of(torrent@, piece_index as int) as nat,
                |i: int| 0u8,
            ),
            d.received() == Seq::<u8>::empty(),
    {
        let (piece_length, block_count, last_block_length) = calculate_block_length(
            torrent,
            piece_index,
            block_size,
        );
        let mut buffer: Vec<u8> = Vec::new();
        let mut i: usize = 0;
        while i < piece_length
            invariant
                i <= piece_length,
                buffer@ == Seq::new(i as nat, |k: int| 0u8),
            decreases piece_length - i,
        {
            buffer.push(0);
            assert(buffer@ =~= Seq::new((i + 1) as nat, |k: int| 0u8));
            i += 1;
        }
        let d = PieceDownload {
            piece_index: piece_index as u32,
            block_size,
            block_count,
            last_block_length,
            next_block: 0,
            buffer,
        };
        assert(d.due_offset() == 0) by (nonlinear_arith)
            requires
                d.next_block == 0,
                d.due_offset() == d.next_block * d.block_size,
        ;
        assert(d.received() =~= Seq::<u8>::empty());
        d
    }

    /// Whether every block has landed.
    pub fn is_complete(&self) -> (done: bool)
        ensures
            done == self.complete(),
    {
        self.next_block == self.block_count
    }

    /// The request to send next: for the block that is due, at its offset
    /// and of its length, or `None` once every block has landed.
    pub fn next_request(&self) -> (r: Option<PeerMessage>)
        requires
            self.wf(),
        ensures
            match r {
                Some(m) => !self.complete() && m@ == self.due_request(),
                None => self.complete(),
            },
    {
        if self.next_block == self.block_count {
            return None;
        }
        proof {
            self.lemma_due_block_fits();
        }
        let offset: u64 = self.next_block as u64 * self.block_size as u64;
        let length: u32 = if self.next_block == self.block_count - 1 {
            self.last_block_length
        } else {
            self.block_size
        };
        Some(PeerMessage::Request { piece_index: self.piece_index, offset: offset as u32, length })
    }

    /// Takes the answer to the request for the block that is due. A `Piece`
    /// message for this piece, at the offset and of the length requested, is
    /// copied into the buffer and the next block falls due. A `Piece`
    /// message that differs in any of the three is a desynchronisation, any
    /// other message is unexpected, and once every block has landed any
    /// message is out of turn; all three leave the download as it was.
    pub fn accept(&mut self, message: &PeerMessage) -> (r: Result<(), ProtocolError>)
        requires
            old(self).wf(),
        ensures
            final(self).wf(),
            match r {
                Ok(_) => {
                    &&& !old(self).complete()
                    &&& message@ matches MessageView::Piece { piece_index, offset, piece }
                    &&& piece_index == old(self).piece_index
                    &&& offset == old(self).due_offset()
                    &&& piece.len() == old(self).due_length()
                    &&& final(self).buffer@ == old(self).buffer@.take(offset as int) + piece + old(
                        self,
                    ).buffer@.skip(offset + piece.len())
                    &&& final(self).received() == old(self).received() + piece
                    &&& final(self).next_block == old(self).next_block + 1
                    &&& final(self).piece_index == old(self).piece_index
                    &&& final(self).block_size == old(self).block_size
                    &&& final(self).block_count == old(self).block_count
                    &&& final(self).last_block_length == old(self).last_block_length
                },
                Err(ProtocolError::OutOfTurn) => {
                    &&& *final(self) == *old(self)
                    &&& old(self).complete()
                },
                Err(ProtocolError::ProtocolDesync) => {
                    &&& *final(self) == *old(self)
                    &&& !old(self).complete()
                    &&& message@ matches MessageView::Piece { piece_index, offset, piece }
                    &&& (piece_index != old(self).piece_index || offset != old(self).due_offset()
                        || piece.len() != old(self).due_length())
                },
                Err(ProtocolError::UnexpectedMessage) => {
                    &&& *final(self) == *old(self)
                    &&& !old(self).complete()
                    &&& !(message@ is Piece)
                },
                Err(ProtocolError::HandshakeRejected) => false,
            },
    {
        if self.next_block == self.block_count {
            return Err(ProtocolError::OutOfTurn);
        }
        proof {
            self.lemma_due_block_fits();
        }
        let due_offset: u64 = self.next_block as u64 * self.block_size as u64;
        let due_length: u32 = if self.next_block == self.block_count - 1 {
            self.last_block_length
        } else {
            self.block_size
        };
        match message {
            PeerMessage::Piece { piece_index, offset, piece } => {
                if *piece_index != self.piece_index || *offset as u64 != due_offset || piece.len()
                    != due_length as usize {
                    return Err(ProtocolError::ProtocolDesync);
                }
                let start: usize = due_offset as usize;
                let mut k: usize = 0;
                while k < piece.len()
                    invariant
                        k <= piece.len(),
                        start + piece.len() <= self.buffer@.len(),
                        self.buffer@.len() == old(self).buffer@.len(),
                        self.buffer@.len() <= u32::MAX,
                        !old(self).complete(),
                        self.piece_index == old(self).piece_index,
                        self.block_size == old(self).block_size,
                        self.block_count == old(self).block_count,
                        self.last_block_length == old(self).last_block_length,
                        self.next_block == old(self).next_block,
                        forall|j: int| 0 <= j < start ==> self.buffer@[j] == old(self).buffer@[j],
                        forall|j: int| start <= j < start + k ==> self.buffer@[j] == piece@[j - start],
                        forall|j: int|
                            start + k <= j < self.buffer@.len() ==> self.buffer@[j] == old(
                                self,
                            ).buffer@[j],
                    decreases piece.len() - k,
                {
                    self.buffer.set(start + k, piece[k]);
                    k += 1;
                }
                self.next_block = self.next_block + 1;
                assert(self.buffer@ =~= old(self).buffer@.take(start as int) + piece@ + old(
                    self,
                ).buffer@.skip(start + piece@.len()));
                assert(self.received() =~= old(self).received() + piece@);
                Ok(())
            },
            _ => Err(ProtocolError::UnexpectedMessage),
        }
    }

    /// The piece, once every block has landed, and `None` before.
    pub fn into_bytes(self) -> (r: Option<Vec<u8>>)
        ensures
            match r {
                Some(piece) => self.complete() && piece@ == self.buffer@ && piece@
                    == self.received(),
                None => !self.complete(),
            },
    {
        if self.next_block == self.block_count {
            Some(self.buffer)
        } else {
            None
        }
    }
}

} // verus!
