use bittorrent_core::torrent::{Content, Info, Pieces, Torrent};
use bittorrent_core::tracker::{
    urlencode, PeerAddress, Peers, TrackerError, TrackerRequest, TrackerResponse,
};

const IDENTIFIER: [u8; 20] = [
    0xd6, 0x9f, 0x91, 0xe6, 0xb2, 0xae, 0x4c, 0x54, 0x24, 0x68, 0xd1, 0x07, 0x3a, 0x71, 0xd4, 0xea,
    0x13, 0x87, 0x9a, 0x7f,
];

#[test]
fn request_defaults() {
    let request = TrackerRequest::new(92063);
    assert_eq!(request.left, 92063);
    assert_eq!(request.peer_id, "00112233445566778899");
    assert_eq!(request.port, 6881);
    assert_eq!(request.uploaded, 0);
    assert_eq!(request.downloaded, 0);
    assert_eq!(request.compact, 1);
}

#[test]
fn request_builders_replace_one_field() {
    let request = TrackerRequest::new(10).left(7).downloaded(3).uploaded(2);
    assert_eq!(request.left, 7);
    assert_eq!(request.downloaded, 3);
    assert_eq!(request.uploaded, 2);
    assert_eq!(request.port, 6881);
    assert_eq!(request.compact, 1);
    assert_eq!(request.peer_id, "00112233445566778899");
}

#[test]
fn request_for_content_leaves_the_difference() {
    let request = TrackerRequest::for_content(92063, 32768);
    assert_eq!(request.left, 59295);
    assert_eq!(request.downloaded, 32768);
    assert_eq!(request.uploaded, 0);
    assert_eq!(TrackerRequest::for_content(5, 5).left, 0);
}

#[test]
fn urlencode_spares_the_unreserved_bytes() {
    assert_eq!(urlencode(b""), Vec::<u8>::new());
    assert_eq!(
        urlencode(b"AZaz09-_.~"),
        b"AZaz09-_.~".to_vec()
    );
    assert_eq!(urlencode(b" /@[`{"), b"%20%2f%40%5b%60%7b".to_vec());
    assert_eq!(urlencode(&[0x00, 0xff, 0x7f, 0x2c]), b"%00%ff%7f%2c".to_vec());
    assert_eq!(
        urlencode(&IDENTIFIER),
        b"%d6%9f%91%e6%b2%aeLT%24h%d1%07%3aq%d4%ea%13%87%9a%7f".to_vec()
    );
}

#[test]
fn query_holds_the_fields_in_order() {
    let query = TrackerRequest::new(92063).build_query(&IDENTIFIER);
    assert_eq!(
        String::from_utf8(query).unwrap(),
        "peer_id=00112233445566778899&port=6881&uploaded=0&downloaded=0&left=92063&compact=1\
         &info_hash=%d6%9f%91%e6%b2%aeLT%24h%d1%07%3aq%d4%ea%13%87%9a%7f"
    );
}

#[test]
fn query_escapes_the_peer_identifier() {
    let mut request = TrackerRequest::new(1).uploaded(20).downloaded(300);
    request.peer_id = "a b&c".to_string();
    request.port = 65535;
    request.compact = 0;
    let query = request.build_query(&[b'x'; 20]);
    assert_eq!(
        String::from_utf8(query).unwrap(),
        "peer_id=a%20b%26c&port=65535&uploaded=20&downloaded=300&left=1&compact=0\
         &info_hash=xxxxxxxxxxxxxxxxxxxx"
    );
}

#[test]
fn announce_url_joins_endpoint_and_query() {
    let torrent = Torrent {
        announce: "http://tracker.example/announce".to_string(),
        info: Info {
            name: "n".to_string(),
            piece_length: 4,
            pieces: Pieces(vec![[0; 20]]),
            content: Content::SingleFile { length: 4 },
        },
    };
    let url = TrackerRequest::new(4).announce_url(&torrent, &[b'y'; 20]);
    assert_eq!(
        String::from_utf8(url).unwrap(),
        "http://tracker.example/announce?peer_id=00112233445566778899&port=6881&uploaded=0\
         &downloaded=0&left=4&compact=1&info_hash=yyyyyyyyyyyyyyyyyyyy"
    );
}

#[test]
fn compact_peer_list_expands() {
    let peers = Peers::from_compact(&[192, 168, 1, 10, 0x1A, 0xE1]).unwrap();
    assert_eq!(peers, Peers(vec![PeerAddress { ip: [192, 168, 1, 10], port: 6881 }]));
    let two = Peers::from_compact(&[10, 0, 0, 1, 0, 80, 255, 254, 253, 252, 0xff, 0xff]).unwrap();
    assert_eq!(
        two,
        Peers(vec![
            PeerAddress { ip: [10, 0, 0, 1], port: 80 },
            PeerAddress { ip: [255, 254, 253, 252], port: 65535 },
        ])
    );
    assert_eq!(Peers::from_compact(&[]), Ok(Peers(vec![])));
}

#[test]
fn compact_peer_list_rejects_padding() {
    assert_eq!(
        Peers::from_compact(&[192, 168, 1, 10, 0x1A, 0xE1, 0]),
        Err(TrackerError::MalformedPeerList)
    );
    assert_eq!(Peers::from_compact(&[1, 2, 3, 4, 5]), Err(TrackerError::MalformedPeerList));
}

#[test]
fn compact_peer_list_round_trip() {
    let bytes = vec![192, 168, 1, 10, 0x1A, 0xE1, 127, 0, 0, 1, 0x00, 0x50];
    let peers = Peers::from_compact(&bytes).unwrap();
    assert_eq!(peers.to_compact(), bytes);
    assert_eq!(Peers(vec![]).to_compact(), Vec::<u8>::new());
}

#[test]
fn response_parses() {
    let mut bytes = b"d8:intervali60e5:peers12:".to_vec();
    bytes.extend_from_slice(&[165, 232, 33, 77, 0xc8, 0xd5, 178, 62, 85, 20, 0xc9, 0x0a]);
    bytes.push(b'e');
    let response = TrackerResponse::parse(&bytes).unwrap();
    assert_eq!(response.interval, 60);
    assert_eq!(
        response.peers,
        Peers(vec![
            PeerAddress { ip: [165, 232, 33, 77], port: 51413 },
            PeerAddress { ip: [178, 62, 85, 20], port: 51466 },
        ])
    );
}

#[test]
fn response_errors() {
    assert_eq!(TrackerResponse::parse(b"d8:interval").err(), Some(TrackerError::MalformedEncoding));
    assert_eq!(TrackerResponse::parse(b"i1e").err(), Some(TrackerError::InvalidResponse));
    assert_eq!(TrackerResponse::parse(b"d5:peers0:e").err(), Some(TrackerError::InvalidResponse));
    assert_eq!(
        TrackerResponse::parse(b"d8:intervali60ee").err(),
        Some(TrackerError::InvalidResponse)
    );
    assert_eq!(
        TrackerResponse::parse(b"d8:intervali-1e5:peers0:e").err(),
        Some(TrackerError::InvalidResponse)
    );
    assert_eq!(
        TrackerResponse::parse(b"d8:interval2:605:peers0:e").err(),
        Some(TrackerError::InvalidResponse)
    );
    assert_eq!(
        TrackerResponse::parse(b"d8:intervali60e5:peers7:abcdefge").err(),
        Some(TrackerError::MalformedPeerList)
    );
}
