use bittorrent_core::peer::{
    declared_length, ConversionError, HandShake, PeerMessage, PeerMessageError,
};

const PROTOCOL: &[u8; 19] = b"BitTorrent protocol";

fn sample_handshake_bytes() -> [u8; 68] {
    let mut bytes = [0u8; 68];
    bytes[0] = 19;
    bytes[1..20].copy_from_slice(PROTOCOL);
    for i in 0..8 {
        bytes[20 + i] = i as u8;
    }
    for i in 0..20 {
        bytes[28 + i] = 100 + i as u8;
        bytes[48 + i] = 200 + i as u8;
    }
    bytes
}

#[test]
fn handshake_new_has_the_fixed_fields() {
    let h = HandShake::new([7; 20]);
    assert_eq!(h.length, 19);
    assert_eq!(&h.protocol, PROTOCOL);
    assert_eq!(h.reserved, [0; 8]);
    assert_eq!(h.info_hash, [7; 20]);
    assert_eq!(&h.peer_id, b"00112233445566778899");
}

#[test]
fn handshake_peer_id_replaces_only_the_identifier() {
    let h = HandShake::new([7; 20]).peer_id([9; 20]);
    assert_eq!(h.peer_id, [9; 20]);
    assert_eq!(h.info_hash, [7; 20]);
    assert_eq!(h.length, 19);
    assert_eq!(&h.protocol, PROTOCOL);
}

#[test]
fn handshake_to_bytes_layout() {
    let bytes = HandShake::new([0xab; 20]).peer_id([0xcd; 20]).to_bytes();
    assert_eq!(bytes.len(), 68);
    assert_eq!(bytes[0], 19);
    assert_eq!(&bytes[1..20], PROTOCOL);
    assert_eq!(&bytes[20..28], &[0u8; 8]);
    assert_eq!(&bytes[28..48], &[0xabu8; 20]);
    assert_eq!(&bytes[48..68], &[0xcdu8; 20]);
}

#[test]
fn handshake_from_bytes_reads_the_fields() {
    let bytes = sample_handshake_bytes();
    let h = HandShake::from_bytes(bytes).unwrap();
    assert_eq!(h.length, 19);
    assert_eq!(&h.protocol, PROTOCOL);
    assert_eq!(h.reserved, [0, 1, 2, 3, 4, 5, 6, 7]);
    assert_eq!(h.info_hash[0], 100);
    assert_eq!(h.info_hash[19], 119);
    assert_eq!(h.peer_id[0], 200);
    assert_eq!(h.peer_id[19], 219);
    assert_eq!(h.to_bytes(), bytes);
}

#[test]
fn handshake_rejects_wrong_length_byte() {
    let mut bytes = sample_handshake_bytes();
    bytes[0] = 18;
    match HandShake::from_bytes(bytes) {
        Err(ConversionError::InvalidLength { length }) => assert_eq!(length, 18),
        other => panic!("unexpected {:?}", other),
    }
}

#[test]
fn handshake_rejects_wrong_protocol() {
    let mut bytes = sample_handshake_bytes();
    bytes[1] = b'b';
    match HandShake::from_bytes(bytes) {
        Err(ConversionError::InvalidProtocol { protocol }) => {
            assert_eq!(protocol, b"bitTorrent protocol".to_vec())
        }
        other => panic!("unexpected {:?}", other),
    }
}

#[test]
fn message_payloads() {
    assert_eq!(PeerMessage::Choke.to_bytes(), vec![0]);
    assert_eq!(PeerMessage::UnChoke.to_bytes(), vec![1]);
    assert_eq!(PeerMessage::Interested.to_bytes(), vec![2]);
    assert_eq!(PeerMessage::NotInterested.to_bytes(), vec![3]);
    assert_eq!(PeerMessage::Have { piece_index: 0x01020304 }.to_bytes(), vec![4, 1, 2, 3, 4]);
    assert_eq!(PeerMessage::Bitfield { fields: vec![0xf0, 0x01] }.to_bytes(), vec![5, 0xf0, 0x01]);
    assert_eq!(
        PeerMessage::Request { piece_index: 1, offset: 16384, length: 0xffffffff }.to_bytes(),
        vec![6, 0, 0, 0, 1, 0, 0, 0x40, 0, 255, 255, 255, 255]
    );
    assert_eq!(
        PeerMessage::Piece { piece_index: 2, offset: 256, piece: vec![9, 8, 7] }.to_bytes(),
        vec![7, 0, 0, 0, 2, 0, 0, 1, 0, 9, 8, 7]
    );
    assert_eq!(
        PeerMessage::Cancel { piece_index: 3, offset: 1, length: 2 }.to_bytes(),
        vec![8, 0, 0, 0, 3, 0, 0, 0, 1, 0, 0, 0, 2]
    );
}

#[test]
fn message_from_bytes_inverts_to_bytes() {
    let messages = vec![
        PeerMessage::Choke,
        PeerMessage::UnChoke,
        PeerMessage::Interested,
        PeerMessage::NotInterested,
        PeerMessage::Have { piece_index: 0xdeadbeef },
        PeerMessage::Bitfield { fields: vec![] },
        PeerMessage::Bitfield { fields: vec![1, 2, 3] },
        PeerMessage::Request { piece_index: 5, offset: 32768, length: 16384 },
        PeerMessage::Piece { piece_index: 5, offset: 32768, piece: vec![0; 100] },
        PeerMessage::Piece { piece_index: 0, offset: 0, piece: vec![] },
        PeerMessage::Cancel { piece_index: u32::MAX, offset: u32::MAX, length: u32::MAX },
    ];
    for message in messages {
        let payload = message.to_bytes();
        assert_eq!(PeerMessage::from_bytes(&payload), Ok(message.clone()));
        let frame = message.encode_frame();
        assert_eq!(frame.len(), payload.len() + 4);
        assert_eq!(PeerMessage::decode_frame(&frame), Ok((message, frame.len())));
    }
}

#[test]
fn message_rejects_unknown_code() {
    assert_eq!(PeerMessage::from_bytes(&[9]), Err(PeerMessageError::UnknownCode(9)));
    assert_eq!(PeerMessage::from_bytes(&[255, 1, 2]), Err(PeerMessageError::UnknownCode(255)));
}

#[test]
fn message_rejects_truncated_payload() {
    assert_eq!(PeerMessage::from_bytes(&[]), Err(PeerMessageError::Truncated));
    assert_eq!(PeerMessage::from_bytes(&[4, 0, 0, 1]), Err(PeerMessageError::Truncated));
    assert_eq!(PeerMessage::from_bytes(&[6, 0, 0, 0, 1, 0, 0, 0, 0]), Err(PeerMessageError::Truncated));
    assert_eq!(PeerMessage::from_bytes(&[7, 0, 0, 0, 1, 0, 0, 0]), Err(PeerMessageError::Truncated));
    assert_eq!(PeerMessage::from_bytes(&[8]), Err(PeerMessageError::Truncated));
}

#[test]
fn message_passes_over_bytes_after_fixed_fields() {
    assert_eq!(PeerMessage::from_bytes(&[0, 1, 2]), Ok(PeerMessage::Choke));
    assert_eq!(
        PeerMessage::from_bytes(&[4, 0, 0, 0, 7, 99]),
        Ok(PeerMessage::Have { piece_index: 7 })
    );
}

#[test]
fn frame_is_length_prefixed() {
    let frame = PeerMessage::Request { piece_index: 1, offset: 2, length: 3 }.encode_frame();
    assert_eq!(frame, vec![0, 0, 0, 13, 6, 0, 0, 0, 1, 0, 0, 0, 2, 0, 0, 0, 3]);
    assert_eq!(PeerMessage::Interested.encode_frame(), vec![0, 0, 0, 1, 2]);
    assert_eq!(declared_length(&frame, 0), 13);
    assert_eq!(declared_length(&[0xff, 0, 1, 2, 3, 4], 1), 0x00010203);
}

#[test]
fn decode_frame_reads_the_first_message() {
    let mut stream = PeerMessage::Have { piece_index: 3 }.encode_frame();
    stream.extend(PeerMessage::Choke.encode_frame());
    assert_eq!(
        PeerMessage::decode_frame(&stream),
        Ok((PeerMessage::Have { piece_index: 3 }, 9))
    );
    assert_eq!(PeerMessage::decode_frame(&stream[9..]), Ok((PeerMessage::Choke, 5)));
}

#[test]
fn decode_frame_rejects_short_reads() {
    assert_eq!(PeerMessage::decode_frame(&[]), Err(PeerMessageError::Truncated));
    assert_eq!(PeerMessage::decode_frame(&[0, 0, 0]), Err(PeerMessageError::Truncated));
    assert_eq!(PeerMessage::decode_frame(&[0, 0, 0, 5, 4, 0, 0, 0]), Err(PeerMessageError::Truncated));
    assert_eq!(PeerMessage::decode_frame(&[0, 0, 0, 0]), Err(PeerMessageError::Truncated));
    assert_eq!(PeerMessage::decode_frame(&[0, 0, 0, 1, 42]), Err(PeerMessageError::UnknownCode(42)));
}

#[test]
fn std_conversions_agree_with_the_methods() {
    let handshake = HandShake::new([3; 20]).peer_id([4; 20]);
    let expected = handshake.to_bytes();
    let array: [u8; 68] = handshake.clone().into();
    assert_eq!(array, expected);
    let vector: Vec<u8> = handshake.into();
    assert_eq!(vector, expected.to_vec());
    let back: HandShake = array.try_into().unwrap();
    assert_eq!(back.info_hash, [3; 20]);
    assert_eq!(back.peer_id, [4; 20]);

    let message = PeerMessage::Request { piece_index: 1, offset: 2, length: 3 };
    let payload: Vec<u8> = message.clone().into();
    assert_eq!(payload, message.to_bytes());
    assert_eq!(PeerMessage::try_from(payload.as_slice()), Ok(message));
    assert_eq!(PeerMessage::try_from(&[77u8][..]), Err(PeerMessageError::UnknownCode(77)));
}
