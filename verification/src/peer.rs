//! The peer wire protocol: the handshake record, the typed messages and
//! their length-prefixed framing.

use crate::wire::{
    be32, bytes_equal, from_be32, lemma_be32_round_trip, put_slice, put_u32, read_u32_be,
    take_array,
};
use vstd::prelude::*;
use vstd::slice::{slice_subrange, slice_to_vec};
use vstd::std_specs::convert::{FromSpecImpl, TryFromSpecImpl};

verus! {

/// The protocol name that opens every handshake: `BitTorrent protocol`.
pub open spec fn protocol_name() -> Seq<u8> {
    seq![
        66u8, 105, 116, 84, 111, 114, 114, 101, 110, 116, 32, 112, 114, 111, 116, 111, 99, 111, 108,
    ]
}

/// The peer identifier that a handshake carries until another is chosen:
/// `00112233445566778899`.
pub open spec fn default_peer_id() -> Seq<u8> {
    seq![48u8, 48, 49, 49, 50, 50, 51, 51, 52, 52, 53, 53, 54, 54, 55, 55, 56, 56, 57, 57]
}

/// The 68 bytes of a handshake with the given reserved bytes, content
/// identifier and peer identifier.
pub open spec fn handshake_wire(reserved: Seq<u8>, info_hash: Seq<u8>, peer_id: Seq<u8>) -> Seq<
    u8,
> {
    seq![19u8] + protocol_name() + reserved + info_hash + peer_id
}

/// The protocol name as bytes to send or to compare with.
fn protocol_bytes() -> (name: [u8; 19])
    ensures
        name@ == protocol_name(),
{
    let name: [u8; 19] = [
        66, 105, 116, 84, 111, 114, 114, 101, 110, 116, 32, 112, 114, 111, 116, 111, 99, 111, 108,
    ];
    assert(name@ =~= protocol_name());
    name
}

/// The fixed 68-byte record that opens a peer connection.
#[derive(Debug, Clone)]
pub struct HandShake {
    /// The length of the protocol name: 19 in every well-formed record.
    pub length: u8,
    /// The protocol name.
    pub protocol: [u8; 19],
    /// Eight reserved bytes, zero in a record made here.
    pub reserved: [u8; 8],
    /// The content identifier both sides refer to.
    pub info_hash: [u8; 20],
    /// The identifier of the peer that sent the record.
    pub peer_id: [u8; 20],
}

/// Why 68 received bytes are no handshake.
#[derive(Debug, Clone)]
pub enum ConversionError {
    /// The first byte is not 19.
    InvalidLength { length: u8 },
    /// The 19 bytes after the first are not the protocol name.
    InvalidProtocol { protocol: Vec<u8> },
}

/// What `HandShake::from_bytes` owes for the 68 bytes `b`: the reserved
/// bytes, content identifier and peer identifier, or the field at fault.
pub open spec fn handshake_reading(b: Seq<u8>) -> Result<(Seq<u8>, Seq<u8>, Seq<u8>), Seq<u8>>
    recommends
        b.len() == 68,
{
    if b[0] != 19 {
        Err(seq![b[0]])
    } else if b.subrange(1, 20) != protocol_name() {
        Err(b.subrange(1, 20))
    } else {
        Ok((b.subrange(20, 28), b.subrange(28, 48), b.subrange(48, 68)))
    }
}

/// `r` is what reading the 68 bytes `b` as a handshake owes: the record
/// with the fields that `b` holds, or the error that names the field at
/// fault.
pub open spec fn read_as_handshake(b: Seq<u8>, r: Result<HandShake, ConversionError>) -> bool {
    match r {
        Ok(h) => h.wf() && handshake_reading(b) == Ok::<_, Seq<u8>>(
            (h.reserved@, h.info_hash@, h.peer_id@),
        ),
        Err(ConversionError::InvalidLength { length }) => b[0] != 19 && handshake_reading(b)
            == Err::<(Seq<u8>, Seq<u8>, Seq<u8>), _>(seq![length]),
        Err(ConversionError::InvalidProtocol { protocol }) => b[0] == 19 && handshake_reading(b)
            == Err::<(Seq<u8>, Seq<u8>, Seq<u8>), _>(protocol@),
    }
}

impl HandShake {
    /// The record names the protocol as every handshake must.
    pub open spec fn wf(&self) -> bool {
        self.length == 19 && self.protocol@ == protocol_name()
    }

    /// The bytes that the record is sent as: the length byte, the protocol
    /// name, the reserved bytes, the content identifier, the peer
    /// identifier. For a well-formed record that is
    /// `handshake_wire(reserved, info_hash, peer_id)`.
    pub open spec fn wire(&self) -> Seq<u8> {
        seq![self.length] + self.protocol@ + self.reserved@ + self.info_hash@ + self.peer_id@
    }

    /// A handshake for `info_hash`, with zeroed reserved bytes and the
    /// default peer identifier.
    pub fn new(info_hash: [u8; 20]) -> (h: Self)
        ensures
            h.wf(),
            h.reserved@ == Seq::new(8, |i: int| 0u8),
            h.info_hash == info_hash,
            h.peer_id@ == default_peer_id(),
    {
        let protocol: [u8; 19] = protocol_bytes();
        let peer_id: [u8; 20] = [
            48, 48, 49, 49, 50, 50, 51, 51, 52, 52, 53, 53, 54, 54, 55, 55, 56, 56, 57, 57,
        ];
        let reserved: [u8; 8] = [0u8; 8];
        assert(peer_id@ =~= default_peer_id());
        assert(reserved@ =~= Seq::new(8, |i: int| 0u8));
        Self { length: 19, protocol, reserved, info_hash, peer_id }
    }

    /// The same handshake under another peer identifier.
    pub fn peer_id(self, peer_id: [u8; 20]) -> (h: Self)
        ensures
            h.length == self.length,
            h.protocol == self.protocol,
            h.reserved == self.reserved,
            h.info_hash == self.info_hash,
            h.peer_id == peer_id,
    {
        Self { peer_id, ..self }
    }

    /// The 68 bytes to send.
    pub fn to_bytes(&self) -> (out: [u8; 68])
        ensures
            out@ == self.wire(),
            self.wf() ==> out@ == handshake_wire(self.reserved@, self.info_hash@, self.peer_id@),
    {
        let mut buf: Vec<u8> = Vec::with_capacity(68);
        buf.push(self.length);
        put_slice(&mut buf, self.protocol.as_slice());
        put_slice(&mut buf, self.reserved.as_slice());
        put_slice(&mut buf, self.info_hash.as_slice());
        put_slice(&mut buf, self.peer_id.as_slice());
        assert(buf@ =~= self.wire());
        let out: [u8; 68] = take_array(buf.as_slice(), 0);
        assert(out@ =~= self.wire());
        out
    }

    /// Reads a peer's 68 bytes. The record is refused when its first byte is
    /// not 19, and otherwise when the protocol name is another; the content
    /// identifier is taken as sent.
    pub fn from_bytes(value: [u8; 68]) -> (r: Result<Self, ConversionError>)
        ensures
            read_as_handshake(value@, r),
    {
        let bytes = value.as_slice();
        let length: u8 = bytes[0];
        if length != 19 {
            return Err(ConversionError::InvalidLength { length });
        }
        let protocol: [u8; 19] = take_array(bytes, 1);
        let expected: [u8; 19] = protocol_bytes();
        if !bytes_equal(protocol.as_slice(), expected.as_slice()) {
            let protocol = slice_to_vec(protocol.as_slice());
            return Err(ConversionError::InvalidProtocol { protocol });
        }
        let reserved: [u8; 8] = take_array(bytes, 20);
        let info_hash: [u8; 20] = take_array(bytes, 28);
        let peer_id: [u8; 20] = take_array(bytes, 48);
        Ok(Self { length: 19, protocol, reserved, info_hash, peer_id })
    }
}

/// What is sent is read back as it was.
pub proof fn lemma_handshake_round_trip(reserved: Seq<u8>, info_hash: Seq<u8>, peer_id: Seq<u8>)
    requires
        reserved.len() == 8,
        info_hash.len() == 20,
        peer_id.len() == 20,
    ensures
        handshake_wire(reserved, info_hash, peer_id).len() == 68,
        handshake_reading(handshake_wire(reserved, info_hash, peer_id)) == Ok::<_, Seq<u8>>(
            (reserved, info_hash, peer_id),
        ),
{
    let w = handshake_wire(reserved, info_hash, peer_id);
    assert(w.subrange(1, 20) =~= protocol_name());
    assert(w.subrange(20, 28) =~= reserved);
    assert(w.subrange(28, 48) =~= info_hash);
    assert(w.subrange(48, 68) =~= peer_id);
}

/// A message of the peer protocol.
#[derive(Debug, Clone, PartialEq, Eq)]
pub enum PeerMessage {
    Choke,
    UnChoke,
    Interested,
    NotInterested,
    Have { piece_index: u32 },
    Bitfield { fields: Vec<u8> },
    Request { piece_index: u32, offset: u32, length: u32 },
    Piece { piece_index: u32, offset: u32, piece: Vec<u8> },
    Cancel { piece_index: u32, offset: u32, length: u32 },
}

/// A message as a mathematical value.
pub enum MessageView {
    Choke,
    UnChoke,
    Interested,
    NotInterested,
    Have { piece_index: u32 },
    Bitfield { fields: Seq<u8> },
    Request { piece_index: u32, offset: u32, length: u32 },
    Piece { piece_index: u32, offset: u32, piece: Seq<u8> },
    Cancel { piece_index: u32, offset: u32, length: u32 },
}

impl View for PeerMessage {
    type V = MessageView;

    open spec fn view(&self) -> MessageView {
        match *self {
            PeerMessage::Choke => MessageView::Choke,
            PeerMessage::UnChoke => MessageView::UnChoke,
            PeerMessage::Interested => MessageView::Interested,
            PeerMessage::NotInterested => MessageView::NotInterested,
            PeerMessage::Have { piece_index } => MessageView::Have { piece_index },
            PeerMessage::Bitfield { fields } => MessageView::Bitfield { fields: fields@ },
            PeerMessage::Request { piece_index, offset, length } => MessageView::Request {
                piece_index,
                offset,
                length,
            },
            PeerMessage::Piece { piece_index, offset, piece } => MessageView::Piece {
                piece_index,
                offset,
                piece: piece@,
            },
            PeerMessage::Cancel { piece_index, offset, length } => MessageView::Cancel {
                piece_index,
                offset,
                length,
            },
        }
    }
}

/// Why received bytes are no message.
#[derive(Debug, Clone, PartialEq, Eq)]
pub enum PeerMessageError {
    /// The type code names no message.
    UnknownCode(u8),
    /// The bytes end before the message does.
    Truncated,
}

/// The payload of a message: its type code, then its body.
pub open spec fn message_payload(m: MessageView) -> Seq<u8> {
    match m {
        MessageView::Choke => seq![0u8],
        MessageView::UnChoke => seq![1u8],
        MessageView::Interested => seq![2u8],
        MessageView::NotInterested => seq![3u8],
        MessageView::Have { piece_index } => seq![4u8] + be32(piece_index),
        MessageView::Bitfield { fields } => seq![5u8] + fields,
        MessageView::Request { piece_index, offset, length } => seq![6u8] + be32(piece_index)
            + be32(offset) + be32(length),
        MessageView::Piece { piece_index, offset, piece } => seq![7u8] + be32(piece_index) + be32(
            offset,
        ) + piece,
        MessageView::Cancel { piece_index, offset, length } => seq![8u8] + be32(piece_index)
            + be32(offset) + be32(length),
    }
}

/// The number of bytes that the fixed fields of a message with type code
/// `code` take after the code.
pub open spec fn fixed_body_len(code: u8) -> int {
    if code == 4 {
        4
    } else if code == 6 || code == 8 {
        12
    } else if code == 7 {
        8
    } else {
        0
    }
}

/// The message that a payload spells. A payload with no type code, or one
/// that ends inside the fixed fields of its message, is truncated; a type
/// code above 8 is unknown. Bytes after the fixed fields of a message
/// without a variable part are passed over.
pub open spec fn parse_payload(b: Seq<u8>) -> Result<MessageView, PeerMessageError> {
    if b.len() == 0 {
        Err(PeerMessageError::Truncated)
    } else if b[0] > 8 {
        Err(PeerMessageError::UnknownCode(b[0]))
    } else if b.len() < 1 + fixed_body_len(b[0]) {
        Err(PeerMessageError::Truncated)
    } else if b[0] == 0 {
        Ok(MessageView::Choke)
    } else if b[0] == 1 {
        Ok(MessageView::UnChoke)
    } else if b[0] == 2 {
        Ok(MessageView::Interested)
    } else if b[0] == 3 {
        Ok(MessageView::NotInterested)
    } else if b[0] == 4 {
        Ok(MessageView::Have { piece_index: from_be32(b.subrange(1, 5)) })
    } else if b[0] == 5 {
        Ok(MessageView::Bitfield { fields: b.subrange(1, b.len() as int) })
    } else if b[0] == 6 {
        Ok(
            MessageView::Request {
                piece_index: from_be32(b.subrange(1, 5)),
                offset: from_be32(b.subrange(5, 9)),
                length: from_be32(b.subrange(9, 13)),
            },
        )
    } else if b[0] == 7 {
        Ok(
            MessageView::Piece {
                piece_index: from_be32(b.subrange(1, 5)),
                offset: from_be32(b.subrange(5, 9)),
                piece: b.subrange(9, b.len() as int),
            },
        )
    } else {
        Ok(
            MessageView::Cancel {
                piece_index: from_be32(b.subrange(1, 5)),
                offset: from_be32(b.subrange(5, 9)),
                length: from_be32(b.subrange(9, 13)),
            },
        )
    }
}

/// A message on the wire: the length of its payload in four big-endian
/// bytes, then the payload.
pub open spec fn frame(m: MessageView) -> Seq<u8>
    recommends
        message_payload(m).len() <= u32::MAX,
{
    be32(message_payload(m).len() as u32) + message_payload(m)
}

/// The first message that `b` holds and the number of bytes it takes, or
/// why there is none: `b` is truncated when it ends before the four length
/// bytes do, or before the payload that they declare does.
pub open spec fn parse_frame(b: Seq<u8>) -> Result<(MessageView, int), PeerMessageError> {
    if b.len() < 4 {
        Err(PeerMessageError::Truncated)
    } else if b.len() < 4 + from_be32(b.subrange(0, 4)) {
        Err(PeerMessageError::Truncated)
    } else {
        match parse_payload(b.subrange(4, 4 + from_be32(b.subrange(0, 4)))) {
            Ok(m) => Ok((m, 4 + from_be32(b.subrange(0, 4)))),
            Err(e) => Err(e),
        }
    }
}

/// `r` is what reading the payload `b` owes: the message that `b` spells,
/// or why it spells none.
pub open spec fn read_as_message(b: Seq<u8>, r: Result<PeerMessage, PeerMessageError>) -> bool {
    match r {
        Ok(m) => parse_payload(b) == Ok::<_, PeerMessageError>(m@),
        Err(e) => parse_payload(b) == Err::<MessageView, _>(e),
    }
}

impl PeerMessage {
    /// The payload of the message: its type code, then its body.
    pub fn to_bytes(&self) -> (buf: Vec<u8>)
        ensures
            buf@ == message_payload(self@),
    {
        let mut buf: Vec<u8> = Vec::new();
        match self {
            PeerMessage::Choke => buf.push(0),
            PeerMessage::UnChoke => buf.push(1),
            PeerMessage::Interested => buf.push(2),
            PeerMessage::NotInterested => buf.push(3),
            PeerMessage::Have { piece_index } => {
                buf.push(4);
                put_u32(&mut buf, *piece_index);
            },
            PeerMessage::Bitfield { fields } => {
                buf.push(5);
                put_slice(&mut buf, fields.as_slice());
            },
            PeerMessage::Request { piece_index, offset, length } => {
                buf.push(6);
                put_u32(&mut buf, *piece_index);
                put_u32(&mut buf, *offset);
                put_u32(&mut buf, *length);
            },
            PeerMessage::Piece { piece_index, offset, piece } => {
                buf.push(7);
                put_u32(&mut buf, *piece_index);
                put_u32(&mut buf, *offset);
                put_slice(&mut buf, piece.as_slice());
            },
            PeerMessage::Cancel { piece_index, offset, length } => {
                buf.push(8);
                put_u32(&mut buf, *piece_index);
                put_u32(&mut buf, *offset);
                put_u32(&mut buf, *length);
            },
        }
        assert(buf@ =~= message_payload(self@));
        buf
    }

    /// Reads a payload: a type code, then the body of that message.
    pub fn from_bytes(value: &[u8]) -> (r: Result<Self, PeerMessageError>)
        ensures
            read_as_message(value@, r),
    {
        if value.len() == 0 {
            return Err(PeerMessageError::Truncated);
        }
        let code: u8 = value[0];
        if code > 8 {
            return Err(PeerMessageError::UnknownCode(code));
        }
        let fixed: usize = if code == 4 {
            4
        } else if code == 6 || code == 8 {
            12
        } else if code == 7 {
            8
        } else {
            0
        };
        if value.len() - 1 < fixed {
            return Err(PeerMessageError::Truncated);
        }
        Ok(
            if code == 0 {
                PeerMessage::Choke
            } else if code == 1 {
                PeerMessage::UnChoke
            } else if code == 2 {
                PeerMessage::Interested
            } else if code == 3 {
                PeerMessage::NotInterested
            } else if code == 4 {
                PeerMessage::Have { piece_index: read_u32_be(value, 1) }
            } else if code == 5 {
                PeerMessage::Bitfield { fields: slice_to_vec(slice_subrange(value, 1, value.len())) }
            } else if code == 6 {
                PeerMessage::Request {
                    piece_index: read_u32_be(value, 1),
                    offset: read_u32_be(value, 5),
                    length: read_u32_be(value, 9),
                }
            } else if code == 7 {
                PeerMessage::Piece {
                    piece_index: read_u32_be(value, 1),
                    offset: read_u32_be(value, 5),
                    piece: slice_to_vec(slice_subrange(value, 9, value.len())),
                }
            } else {
                PeerMessage::Cancel {
                    piece_index: read_u32_be(value, 1),
                    offset: read_u32_be(value, 5),
                    length: read_u32_be(value, 9),
                }
            },
        )
    }

    /// The message as it goes on the wire: four length bytes, then the
    /// payload.
    pub fn encode_frame(&self) -> (out: Vec<u8>)
        requires
            message_payload(self@).len() <= u32::MAX,
        ensures
            out@ == frame(self@),
    {
        let payload = self.to_bytes();
        let mut out: Vec<u8> = Vec::new();
        put_u32(&mut out, payload.len() as u32);
        put_slice(&mut out, payload.as_slice());
        assert(out@ =~= frame(self@));
        out
    }

    /// Reads the first message of `bytes`, and says how many bytes it took.
    pub fn decode_frame(bytes: &[u8]) -> (r: Result<(Self, usize), PeerMessageError>)
        ensures
            match r {
                Ok((m, used)) => parse_frame(bytes@) == Ok::<_, PeerMessageError>((m@, used as int)),
                Err(e) => parse_frame(bytes@) == Err::<(MessageView, int), _>(e),
            },
    {
        if bytes.len() < 4 {
            return Err(PeerMessageError::Truncated);
        }
        let declared: usize = declared_length(bytes, 0);
        if bytes.len() - 4 < declared {
            return Err(PeerMessageError::Truncated);
        }
        match PeerMessage::from_bytes(slice_subrange(bytes, 4, 4 + declared)) {
            Ok(m) => Ok((m, 4 + declared)),
            Err(e) => Err(e),
        }
    }
}

/// The payload length that the four bytes at `at` declare.
pub fn declared_length(bytes: &[u8], at: usize) -> (n: usize)
    requires
        at + 4 <= bytes.len(),
    ensures
        n == from_be32(bytes@.subrange(at as int, at + 4)),
{
    read_u32_be(bytes, at) as usize
}

/// What stands behind the type code of a message with two or three numbers.
proof fn lemma_numbered_body(code: u8, x: u32, y: u32, tail: Seq<u8>)
    ensures
        (seq![code] + be32(x) + be32(y) + tail).len() == 9 + tail.len(),
        (seq![code] + be32(x) + be32(y) + tail)[0] == code,
        from_be32((seq![code] + be32(x) + be32(y) + tail).subrange(1, 5)) == x,
        from_be32((seq![code] + be32(x) + be32(y) + tail).subrange(5, 9)) == y,
        (seq![code] + be32(x) + be32(y) + tail).subrange(9, 9 + tail.len() as int) == tail,
{
    let w = seq![code] + be32(x) + be32(y) + tail;
    lemma_be32_round_trip(x);
    lemma_be32_round_trip(y);
    assert(w.subrange(1, 5) =~= be32(x));
    assert(w.subrange(5, 9) =~= be32(y));
    assert(w.subrange(9, 9 + tail.len() as int) =~= tail);
}

/// A payload is read back as the message it was written from.
pub proof fn lemma_payload_round_trip(m: MessageView)
    ensures
        parse_payload(message_payload(m)) == Ok::<_, PeerMessageError>(m),
{
    let b = message_payload(m);
    match m {
        MessageView::Have { piece_index } => {
            lemma_be32_round_trip(piece_index);
            assert(b.subrange(1, 5) =~= be32(piece_index));
        },
        MessageView::Bitfield { fields } => {
            assert(b.subrange(1, b.len() as int) =~= fields);
        },
        MessageView::Request { piece_index, offset, length } => {
            lemma_numbered_body(6, piece_index, offset, be32(length));
            lemma_be32_round_trip(length);
        },
        MessageView::Piece { piece_index, offset, piece } => {
            lemma_numbered_body(7, piece_index, offset, piece);
        },
        MessageView::Cancel { piece_index, offset, length } => {
            lemma_numbered_body(8, piece_index, offset, be32(length));
            lemma_be32_round_trip(length);
        },
        _ => {},
    }
}

/// A framed message, with whatever follows it, is read back as the message
/// it was written from, and the bytes taken are those of the frame.
pub proof fn lemma_frame_round_trip(m: MessageView, rest: Seq<u8>)
    requires
        message_payload(m).len() <= u32::MAX,
    ensures
        parse_frame(frame(m) + rest) == Ok::<_, PeerMessageError>((m, frame(m).len() as int)),
{
    let p = message_payload(m);
    let b = frame(m) + rest;
    let n = p.len() as u32;
    lemma_be32_round_trip(n);
    assert(b.subrange(0, 4) =~= be32(n));
    assert(b.subrange(4, 4 + n) =~= p);
    lemma_payload_round_trip(m);
}

impl From<HandShake> for [u8; 68] {
    /// The 68 bytes to send.
    fn from(value: HandShake) -> (out: [u8; 68])
        ensures
            out@ == value.wire(),
    {
        value.to_bytes()
    }
}

impl FromSpecImpl<HandShake> for [u8; 68] {
    open spec fn obeys_from_spec() -> bool {
        true
    }

    open spec fn from_spec(value: HandShake) -> [u8; 68] {
        choose|out: [u8; 68]| out@ == value.wire()
    }
}

impl From<HandShake> for Vec<u8> {
    /// The 68 bytes to send.
    fn from(value: HandShake) -> (out: Vec<u8>)
        ensures
            out@ == value.wire(),
    {
        let bytes = value.to_bytes();
        slice_to_vec(bytes.as_slice())
    }
}

impl FromSpecImpl<HandShake> for Vec<u8> {
    open spec fn obeys_from_spec() -> bool {
        false
    }

    open spec fn from_spec(value: HandShake) -> Vec<u8> {
        choose|out: Vec<u8>| out@ == value.wire()
    }
}

impl From<PeerMessage> for Vec<u8> {
    /// The payload of the message: its type code, then its body.
    fn from(value: PeerMessage) -> (buf: Vec<u8>)
        ensures
            buf@ == message_payload(value@),
    {
        value.to_bytes()
    }
}

impl FromSpecImpl<PeerMessage> for Vec<u8> {
    open spec fn obeys_from_spec() -> bool {
        false
    }

    open spec fn from_spec(value: PeerMessage) -> Vec<u8> {
        choose|out: Vec<u8>| out@ == message_payload(value@)
    }
}

impl TryFrom<[u8; 68]> for HandShake {
    type Error = ConversionError;

    /// Reads a peer's 68 bytes.
    fn try_from(value: [u8; 68]) -> (r: Result<Self, ConversionError>)
        ensures
            read_as_handshake(value@, r),
    {
        HandShake::from_bytes(value)
    }
}

impl TryFromSpecImpl<[u8; 68]> for HandShake {
    open spec fn obeys_try_from_spec() -> bool {
        false
    }

    open spec fn try_from_spec(value: [u8; 68]) -> Result<Self, ConversionError> {
        choose|r: Result<HandShake, ConversionError>| read_as_handshake(value@, r)
    }
}

impl<'a> TryFrom<&'a [u8]> for PeerMessage {
    type Error = PeerMessageError;

    /// Reads a payload: a type code, then the body of that message.
    fn try_from(value: &'a [u8]) -> (r: Result<Self, PeerMessageError>)
        ensures
            read_as_message(value@, r),
    {
        PeerMessage::from_bytes(value)
    }
}

impl<'a> TryFromSpecImpl<&'a [u8]> for PeerMessage {
    open spec fn obeys_try_from_spec() -> bool {
        false
    }

    open spec fn try_from_spec(value: &'a [u8]) -> Result<Self, PeerMessageError> {
        choose|r: Result<PeerMessage, PeerMessageError>| read_as_message(value@, r)
    }
}

} // verus!
