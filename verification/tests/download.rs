use bittorrent_core::download::{
    calculate_block_length, check_digest, validate_piece, PieceHashMismatch,
};
use bittorrent_core::peer::{HandShake, PeerMessage};
use bittorrent_core::session::{
    advance, next_action, PieceDownload, ProtocolError, SessionAction, SessionEvent, SessionState,
};
use bittorrent_core::torrent::{Content, Info, Pieces, Torrent};

// The digest of the forty bytes 0, 1, .. 39.
const DIGEST_OF_FORTY: [u8; 20] = [
    204, 154, 217, 158, 145, 112, 66, 56, 27, 15, 153, 88, 136, 150, 203, 242, 54, 170, 142, 211,
];

// The digest of `hello world`.
const DIGEST_OF_HELLO: [u8; 20] = [
    42, 174, 108, 53, 201, 79, 207, 180, 21, 219, 233, 95, 64, 139, 156, 233, 30, 232, 70, 237,
];

fn torrent(piece_length: usize, total: usize, pieces: Vec<[u8; 20]>) -> Torrent {
    Torrent {
        announce: "http://tracker.example/announce".to_string(),
        info: Info {
            name: "data".to_string(),
            piece_length,
            pieces: Pieces(pieces),
            content: Content::SingleFile { length: total },
        },
    }
}

fn forty() -> Vec<u8> {
    (0u8..40).collect()
}

#[test]
fn block_layout_of_a_whole_piece() {
    let t = torrent(32768, 92063, vec![[0; 20]; 3]);
    assert!(t.is_consistent());
    assert_eq!(calculate_block_length(&t, 0, 16384), (32768, 2, 16384));
    assert_eq!(calculate_block_length(&t, 1, 16384), (32768, 2, 16384));
    assert_eq!(calculate_block_length(&t, 0, 32768), (32768, 1, 32768));
    assert_eq!(calculate_block_length(&t, 0, 40000), (32768, 1, 32768));
    assert_eq!(calculate_block_length(&t, 0, 10000), (32768, 4, 2768));
}

#[test]
fn block_layout_of_the_final_piece() {
    let t = torrent(32768, 92063, vec![[0; 20]; 3]);
    assert_eq!(calculate_block_length(&t, 2, 16384), (26527, 2, 10143));
    let t = torrent(32768, 2 * 32768 + 27871, vec![[0; 20]; 3]);
    assert!(t.is_consistent());
    let (piece_length, block_count, last_block_length) = calculate_block_length(&t, 2, 16384);
    assert_eq!(piece_length, 27871);
    assert_eq!(block_count, 2);
    assert_eq!(last_block_length, 11487);
    assert_eq!((block_count - 1) * 16384 + last_block_length, 27871);
}

#[test]
fn block_layout_at_the_edges() {
    let t = torrent(16, 17, vec![[0; 20]; 2]);
    assert_eq!(calculate_block_length(&t, 1, 16), (1, 1, 1));
    assert_eq!(calculate_block_length(&t, 0, 1), (16, 16, 1));
    let t = torrent(16, 32, vec![[0; 20]; 2]);
    assert_eq!(calculate_block_length(&t, 1, 16), (16, 1, 16));
    let t = torrent(16, 5, vec![[0; 20]; 1]);
    assert_eq!(calculate_block_length(&t, 0, 2), (5, 3, 1));
}

#[test]
fn consistency_of_the_layout() {
    assert!(torrent(16, 32, vec![[0; 20]; 2]).is_consistent());
    assert!(torrent(16, 33, vec![[0; 20]; 3]).is_consistent());
    assert!(torrent(16, 0, vec![]).is_consistent());
    assert!(!torrent(16, 33, vec![[0; 20]; 2]).is_consistent());
    assert!(!torrent(16, 32, vec![[0; 20]; 3]).is_consistent());
    assert!(!torrent(0, 32, vec![[0; 20]; 2]).is_consistent());
    assert!(!torrent(16, 0, vec![[0; 20]; 1]).is_consistent());
    assert!(!torrent(16, 1, vec![]).is_consistent());
}

#[test]
fn validate_piece_accepts_the_expected_digest() {
    let t = torrent(40, 51, vec![DIGEST_OF_FORTY, DIGEST_OF_HELLO]);
    assert_eq!(validate_piece(&t, 0, &forty()), Ok(()));
    assert_eq!(validate_piece(&t, 1, b"hello world"), Ok(()));
}

#[test]
fn validate_piece_rejects_another_digest() {
    let t = torrent(40, 51, vec![DIGEST_OF_FORTY, DIGEST_OF_HELLO]);
    assert_eq!(
        validate_piece(&t, 1, &forty()),
        Err(PieceHashMismatch { expected: DIGEST_OF_HELLO, found: DIGEST_OF_FORTY })
    );
    assert_eq!(
        validate_piece(&t, 0, b"hello world"),
        Err(PieceHashMismatch { expected: DIGEST_OF_FORTY, found: DIGEST_OF_HELLO })
    );
    let mut damaged = forty();
    damaged[39] ^= 1;
    assert!(validate_piece(&t, 0, &damaged).is_err());
    assert!(validate_piece(&t, 0, &DIGEST_OF_FORTY).is_err());
}

#[test]
fn check_digest_compares_byte_for_byte() {
    assert_eq!(check_digest(&[1; 20], [1; 20]), Ok(()));
    let mut other = [1u8; 20];
    other[19] = 2;
    assert_eq!(
        check_digest(&[1; 20], other),
        Err(PieceHashMismatch { expected: [1; 20], found: other })
    );
}

fn peer_handshake() -> [u8; 68] {
    HandShake::new([5; 20]).peer_id([6; 20]).to_bytes()
}

#[test]
fn session_runs_from_connected_to_unchoked() {
    let mut state = SessionState::Connected;
    assert_eq!(next_action(state), SessionAction::SendHandshake);
    state = advance(state, &SessionEvent::Sent).unwrap();
    assert_eq!(state, SessionState::HandshakeSent);
    assert_eq!(next_action(state), SessionAction::ReceiveHandshake);
    state = advance(state, &SessionEvent::Handshake(peer_handshake())).unwrap();
    assert_eq!(state, SessionState::HandshakeVerified);
    assert_eq!(next_action(state), SessionAction::ReceiveMessage);
    let bitfield = PeerMessage::Bitfield { fields: vec![0xe0] };
    state = advance(state, &SessionEvent::Message(bitfield)).unwrap();
    assert_eq!(state, SessionState::BitfieldReceived);
    assert_eq!(next_action(state), SessionAction::SendInterested);
    state = advance(state, &SessionEvent::Sent).unwrap();
    assert_eq!(state, SessionState::InterestedSent);
    assert_eq!(next_action(state), SessionAction::ReceiveMessage);
    state = advance(state, &SessionEvent::Message(PeerMessage::UnChoke)).unwrap();
    assert_eq!(state, SessionState::Unchoked);
    assert_eq!(next_action(state), SessionAction::RequestBlocks);
    assert_eq!(next_action(SessionState::Closed), SessionAction::Close);
}

#[test]
fn session_rejects_a_bad_handshake() {
    let mut bytes = peer_handshake();
    bytes[0] = 20;
    assert_eq!(
        advance(SessionState::HandshakeSent, &SessionEvent::Handshake(bytes)),
        Err(ProtocolError::HandshakeRejected)
    );
    let mut bytes = peer_handshake();
    bytes[19] = b'L';
    assert_eq!(
        advance(SessionState::HandshakeSent, &SessionEvent::Handshake(bytes)),
        Err(ProtocolError::HandshakeRejected)
    );
}

#[test]
fn session_rejects_unexpected_messages() {
    let message = |m: PeerMessage| SessionEvent::Message(m);
    assert_eq!(
        advance(SessionState::HandshakeVerified, &message(PeerMessage::UnChoke)),
        Err(ProtocolError::UnexpectedMessage)
    );
    assert_eq!(
        advance(SessionState::HandshakeVerified, &message(PeerMessage::Have { piece_index: 0 })),
        Err(ProtocolError::UnexpectedMessage)
    );
    assert_eq!(
        advance(SessionState::InterestedSent, &message(PeerMessage::Bitfield { fields: vec![] })),
        Err(ProtocolError::UnexpectedMessage)
    );
    assert_eq!(
        advance(SessionState::InterestedSent, &message(PeerMessage::Choke)),
        Err(ProtocolError::UnexpectedMessage)
    );
}

#[test]
fn session_rejects_events_out_of_turn() {
    let unchoke = SessionEvent::Message(PeerMessage::UnChoke);
    let handshake = SessionEvent::Handshake(peer_handshake());
    assert_eq!(advance(SessionState::Connected, &unchoke), Err(ProtocolError::OutOfTurn));
    assert_eq!(advance(SessionState::Connected, &handshake), Err(ProtocolError::OutOfTurn));
    assert_eq!(advance(SessionState::HandshakeSent, &SessionEvent::Sent), Err(ProtocolError::OutOfTurn));
    assert_eq!(advance(SessionState::HandshakeSent, &unchoke), Err(ProtocolError::OutOfTurn));
    assert_eq!(advance(SessionState::HandshakeVerified, &SessionEvent::Sent), Err(ProtocolError::OutOfTurn));
    assert_eq!(advance(SessionState::BitfieldReceived, &unchoke), Err(ProtocolError::OutOfTurn));
    assert_eq!(advance(SessionState::InterestedSent, &handshake), Err(ProtocolError::OutOfTurn));
    assert_eq!(advance(SessionState::Unchoked, &unchoke), Err(ProtocolError::OutOfTurn));
    assert_eq!(advance(SessionState::Closed, &SessionEvent::Sent), Err(ProtocolError::OutOfTurn));
}

#[test]
fn piece_download_requests_each_block_in_turn() {
    let t = torrent(40, 51, vec![DIGEST_OF_FORTY, DIGEST_OF_HELLO]);
    let data = forty();
    let mut download = PieceDownload::start(&t, 0, 16);
    assert_eq!(download.buffer, vec![0u8; 40]);
    assert_eq!(download.block_count, 3);
    assert_eq!(download.last_block_length, 8);
    assert!(!download.is_complete());

    assert_eq!(
        download.next_request(),
        Some(PeerMessage::Request { piece_index: 0, offset: 0, length: 16 })
    );
    let block = PeerMessage::Piece { piece_index: 0, offset: 0, piece: data[0..16].to_vec() };
    assert_eq!(download.accept(&block), Ok(()));

    assert_eq!(
        download.next_request(),
        Some(PeerMessage::Request { piece_index: 0, offset: 16, length: 16 })
    );
    let block = PeerMessage::Piece { piece_index: 0, offset: 16, piece: data[16..32].to_vec() };
    assert_eq!(download.accept(&block), Ok(()));

    assert_eq!(
        download.next_request(),
        Some(PeerMessage::Request { piece_index: 0, offset: 32, length: 8 })
    );
    let block = PeerMessage::Piece { piece_index: 0, offset: 32, piece: data[32..40].to_vec() };
    assert_eq!(download.accept(&block), Ok(()));

    assert!(download.is_complete());
    assert_eq!(download.next_request(), None);
    let piece = download.into_bytes().unwrap();
    assert_eq!(piece, data);
    assert_eq!(validate_piece(&t, 0, &piece), Ok(()));
}

#[test]
fn piece_download_of_the_final_piece() {
    let t = torrent(40, 51, vec![DIGEST_OF_FORTY, DIGEST_OF_HELLO]);
    let mut download = PieceDownload::start(&t, 1, 16);
    assert_eq!(download.buffer.len(), 11);
    assert_eq!(
        download.next_request(),
        Some(PeerMessage::Request { piece_index: 1, offset: 0, length: 11 })
    );
    let block = PeerMessage::Piece { piece_index: 1, offset: 0, piece: b"hello world".to_vec() };
    assert_eq!(download.accept(&block), Ok(()));
    assert!(download.is_complete());
    let piece = download.into_bytes().unwrap();
    assert_eq!(validate_piece(&t, 1, &piece), Ok(()));
}

#[test]
fn piece_download_with_damaged_blocks_fails_the_gate() {
    let t = torrent(40, 51, vec![DIGEST_OF_FORTY, DIGEST_OF_HELLO]);
    let mut data = forty();
    data[20] = 0xff;
    let mut download = PieceDownload::start(&t, 0, 32);
    let block = PeerMessage::Piece { piece_index: 0, offset: 0, piece: data[0..32].to_vec() };
    assert_eq!(download.accept(&block), Ok(()));
    let block = PeerMessage::Piece { piece_index: 0, offset: 32, piece: data[32..40].to_vec() };
    assert_eq!(download.accept(&block), Ok(()));
    let piece = download.into_bytes().unwrap();
    assert_eq!(piece, data);
    match validate_piece(&t, 0, &piece) {
        Err(mismatch) => assert_eq!(mismatch.expected, DIGEST_OF_FORTY),
        Ok(()) => panic!("a damaged piece passed"),
    }
}

#[test]
fn piece_download_detects_desync() {
    let t = torrent(40, 51, vec![DIGEST_OF_FORTY, DIGEST_OF_HELLO]);
    let mut download = PieceDownload::start(&t, 0, 16);
    let wrong_index = PeerMessage::Piece { piece_index: 1, offset: 0, piece: vec![1; 16] };
    assert_eq!(download.accept(&wrong_index), Err(ProtocolError::ProtocolDesync));
    let wrong_offset = PeerMessage::Piece { piece_index: 0, offset: 16, piece: vec![1; 16] };
    assert_eq!(download.accept(&wrong_offset), Err(ProtocolError::ProtocolDesync));
    let wrong_length = PeerMessage::Piece { piece_index: 0, offset: 0, piece: vec![1; 15] };
    assert_eq!(download.accept(&wrong_length), Err(ProtocolError::ProtocolDesync));
    assert_eq!(download.buffer, vec![0u8; 40]);
    assert_eq!(download.next_block, 0);
}

#[test]
fn piece_download_is_closed_once_complete() {
    let t = torrent(40, 51, vec![DIGEST_OF_FORTY, DIGEST_OF_HELLO]);
    let mut download = PieceDownload::start(&t, 1, 16);
    let block = PeerMessage::Piece { piece_index: 1, offset: 0, piece: b"hello world".to_vec() };
    assert_eq!(download.accept(&block), Ok(()));
    assert_eq!(download.accept(&block), Err(ProtocolError::OutOfTurn));
    assert_eq!(download.accept(&PeerMessage::Choke), Err(ProtocolError::OutOfTurn));
    assert_eq!(download.into_bytes(), Some(b"hello world".to_vec()));
    let unfinished = PieceDownload::start(&t, 0, 16);
    assert_eq!(unfinished.into_bytes(), None);
}

#[test]
fn piece_download_rejects_other_messages() {
    let t = torrent(40, 51, vec![DIGEST_OF_FORTY, DIGEST_OF_HELLO]);
    let mut download = PieceDownload::start(&t, 0, 16);
    assert_eq!(download.accept(&PeerMessage::Choke), Err(ProtocolError::UnexpectedMessage));
    assert_eq!(
        download.accept(&PeerMessage::Have { piece_index: 0 }),
        Err(ProtocolError::UnexpectedMessage)
    );
    assert_eq!(download.next_block, 0);
}
