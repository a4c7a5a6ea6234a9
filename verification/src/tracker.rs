//! The tracker exchange: the announce query and the compact peer list of
//! the response.

use crate::decode::{decode, decoded};
use crate::digest::{hex_encode, hex_text};
use crate::encode::{nat_digits, push_digits};
use crate::torrent::Torrent;
use crate::value::{dict_get, lookup, CanonicalValue, Value};
use crate::wire::{be16, from_be16, lemma_be16_round_trip, put_slice, read_u16_be, take_array};
use vstd::prelude::*;
use vstd::slice::slice_to_vec;
use vstd::utf8::encode_utf8;

verus! {

/// What a client tells the tracker of itself.
#[derive(Debug, Clone)]
pub struct TrackerRequest {
    /// The identifier that this client goes by.
    pub peer_id: String,
    /// The port that this client listens on.
    pub port: u16,
    /// The number of bytes uploaded so far.
    pub uploaded: usize,
    /// The number of bytes downloaded so far.
    pub downloaded: usize,
    /// The number of bytes still to download.
    pub left: usize,
    /// Whether the peer list is wanted in its compact form.
    pub compact: u8,
}

/// The address of a peer.
#[derive(Debug, Clone, Copy, PartialEq, Eq)]
pub struct PeerAddress {
    /// The four bytes of the IPv4 address, first byte first.
    pub ip: [u8; 4],
    /// The port.
    pub port: u16,
}

/// The peers that a tracker names.
#[derive(Debug, Clone, PartialEq, Eq)]
pub struct Peers(pub Vec<PeerAddress>);

/// What a tracker answers.
#[derive(Debug, Clone)]
pub struct TrackerResponse {
    /// The number of seconds to wait between requests.
    pub interval: usize,
    /// The peers to connect to.
    pub peers: Peers,
}

/// Why the answer of a tracker cannot be used.
#[derive(Debug, Clone, Copy, PartialEq, Eq)]
pub enum TrackerError {
    /// The answer is no canonical value.
    MalformedEncoding,
    /// The answer is no dictionary with an interval and a peer list.
    InvalidResponse,
    /// The length of the peer list is no multiple of six.
    MalformedPeerList,
}

/// A peer address as a mathematical value.
pub struct PeerView {
    pub ip: Seq<u8>,
    pub port: u16,
}

impl View for PeerAddress {
    type V = PeerView;

    open spec fn view(&self) -> PeerView {
        PeerView { ip: self.ip@, port: self.port }
    }
}

impl View for Peers {
    type V = Seq<PeerView>;

    open spec fn view(&self) -> Seq<PeerView> {
        Seq::new(self.0.len() as nat, |i: int| self.0[i]@)
    }
}

/// The identifier that a request carries until another is chosen:
/// `00112233445566778899`.
pub open spec fn default_peer_id_text() -> Seq<char> {
    "00112233445566778899"@
}

/// The text `peer_id=`.
pub open spec fn label_peer_id() -> Seq<u8> {
    seq![112u8, 101, 101, 114, 95, 105, 100, 61]
}

/// The text `&port=`.
pub open spec fn label_port() -> Seq<u8> {
    seq![38u8, 112, 111, 114, 116, 61]
}

/// The text `&uploaded=`.
pub open spec fn label_uploaded() -> Seq<u8> {
    seq![38u8, 117, 112, 108, 111, 97, 100, 101, 100, 61]
}

/// The text `&downloaded=`.
pub open spec fn label_downloaded() -> Seq<u8> {
    seq![38u8, 100, 111, 119, 110, 108, 111, 97, 100, 101, 100, 61]
}

/// The text `&left=`.
pub open spec fn label_left() -> Seq<u8> {
    seq![38u8, 108, 101, 102, 116, 61]
}

/// The text `&compact=`.
pub open spec fn label_compact() -> Seq<u8> {
    seq![38u8, 99, 111, 109, 112, 97, 99, 116, 61]
}

/// The text `&info_hash=`.
pub open spec fn label_info_hash() -> Seq<u8> {
    seq![38u8, 105, 110, 102, 111, 95, 104, 97, 115, 104, 61]
}

/// The key `interval`.
pub open spec fn key_interval() -> Seq<u8> {
    seq![105u8, 110, 116, 101, 114, 118, 97, 108]
}

/// The key `peers`.
pub open spec fn key_peers() -> Seq<u8> {
    seq![112u8, 101, 101, 114, 115]
}

/// Whether a byte goes into a query as it is: a digit, a letter, or one of
/// `-`, `_`, `.` and `~`.
pub open spec fn is_unreserved(b: u8) -> bool {
    (48 <= b <= 57) || (65 <= b <= 90) || (97 <= b <= 122) || b == 45 || b == 95 || b == 46 || b
        == 126
}

/// A byte as it goes into a query: itself where it is unreserved, else a
/// percent sign and its two lowercase hexadecimal digits.
pub open spec fn percent_byte(b: u8) -> Seq<u8> {
    if is_unreserved(b) {
        seq![b]
    } else {
        seq![37u8] + hex_text(seq![b])
    }
}

/// The first `upto` bytes as they go into a query.
pub open spec fn percent_encoded(bytes: Seq<u8>, upto: int) -> Seq<u8>
    decreases upto,
{
    if upto <= 0 {
        Seq::empty()
    } else {
        percent_encoded(bytes, upto - 1) + percent_byte(bytes[upto - 1])
    }
}

/// The query of an announce: the fields of the request in their order,
/// numbers in decimal, then the content identifier; the peer identifier and
/// the content identifier percent-encoded byte by byte.
pub open spec fn query_text(
    peer_id: Seq<u8>,
    port: nat,
    uploaded: nat,
    downloaded: nat,
    left: nat,
    compact: nat,
    info_hash: Seq<u8>,
) -> Seq<u8> {
    label_peer_id() + percent_encoded(peer_id, peer_id.len() as int) + label_port() + nat_digits(
        port,
    ) + label_uploaded() + nat_digits(uploaded) + label_downloaded() + nat_digits(downloaded)
        + label_left() + nat_digits(left) + label_compact() + nat_digits(compact)
        + label_info_hash() + percent_encoded(info_hash, info_hash.len() as int)
}

/// The peers that a compact list names: six bytes each, four of address and
/// two of port, most significant byte first.
pub open spec fn compact_peers(bytes: Seq<u8>) -> Seq<PeerView> {
    Seq::new(
        bytes.len() / 6,
        |i: int|
            PeerView {
                ip: bytes.subrange(6 * i, 6 * i + 4),
                port: from_be16(bytes.subrange(6 * i + 4, 6 * i + 6)),
            },
    )
}

/// The compact list of the first `upto` peers.
pub open spec fn peers_compact(peers: Seq<PeerView>, upto: int) -> Seq<u8>
    decreases upto,
{
    if upto <= 0 {
        Seq::empty()
    } else {
        peers_compact(peers, upto - 1) + peers[upto - 1].ip + be16(peers[upto - 1].port)
    }
}

/// What a decoded answer holds: the interval and the peers, or why not. The
/// answer must be a dictionary whose `interval` is an integer that is not
/// negative and fits the machine, and whose `peers` is a byte string; the
/// byte string must be a whole number of six-byte records.
pub open spec fn response_of(v: Value) -> Result<(nat, Seq<PeerView>), TrackerError> {
    if let Value::Dict(d) = v {
        match (lookup(d, key_interval()), lookup(d, key_peers())) {
            (Some(Value::Int(interval)), Some(Value::Bytes(peers))) => {
                if interval < 0 || interval > usize::MAX {
                    Err(TrackerError::InvalidResponse)
                } else if peers.len() % 6 != 0 {
                    Err(TrackerError::MalformedPeerList)
                } else {
                    Ok((interval as nat, compact_peers(peers)))
                }
            },
            _ => Err(TrackerError::InvalidResponse),
        }
    } else {
        Err(TrackerError::InvalidResponse)
    }
}

/// What the bytes of an answer hold.
pub open spec fn response_reading(bytes: Seq<u8>) -> Result<(nat, Seq<PeerView>), TrackerError> {
    match decoded(bytes) {
        Some(v) => response_of(v),
        None => Err(TrackerError::MalformedEncoding),
    }
}

/// Appends a label of the query.
fn push_label<const N: usize>(out: &mut Vec<u8>, label: &[u8; N], Ghost(text): Ghost<Seq<u8>>)
    requires
        label@ =~= text,
    ensures
        final(out)@ == old(out)@ + text,
{
    put_slice(out, label.as_slice());
}

/// Percent-encodes `bytes` for a query: unreserved bytes pass, every other
/// byte becomes a percent sign and two lowercase hexadecimal digits.
pub fn urlencode(bytes: &[u8]) -> (out: Vec<u8>)
    ensures
        out@ == percent_encoded(bytes@, bytes@.len() as int),
{
    let mut out: Vec<u8> = Vec::new();
    let mut i: usize = 0;
    while i < bytes.len()
        invariant
            i <= bytes.len(),
            out@ == percent_encoded(bytes@, i as int),
        decreases bytes.len() - i,
    {
        let b: u8 = bytes[i];
        if (48 <= b && b <= 57) || (65 <= b && b <= 90) || (97 <= b && b <= 122) || b == 45 || b
            == 95 || b == 46 || b == 126 {
            out.push(b);
            assert(out@ =~= percent_encoded(bytes@, i as int) + percent_byte(b));
        } else {
            out.push(37);
            let one: [u8; 1] = [b];
            assert(one@ =~= seq![b]);
            let digits = hex_encode(one.as_slice());
            put_slice(&mut out, digits.as_slice());
            assert(out@ =~= percent_encoded(bytes@, i as int) + percent_byte(b));
        }
        i += 1;
    }
    out
}

impl TrackerRequest {
    /// A request with `left` bytes to go, nothing moved yet, the default
    /// identifier and port, and the compact peer list asked for.
    pub fn new(left: usize) -> (r: Self)
        ensures
            r.left == left,
            r.peer_id@ == default_peer_id_text(),
            r.port == 6881,
            r.uploaded == 0,
            r.downloaded == 0,
            r.compact == 1,
    {
        Self {
            left,
            peer_id: "00112233445566778899".to_owned(),
            port: 6881,
            uploaded: 0,
            downloaded: 0,
            compact: 1,
        }
    }

    /// A request for content of `content_length` bytes of which `downloaded`
    /// are there: what is left is the difference.
    pub fn for_content(content_length: usize, downloaded: usize) -> (r: Self)
        requires
            downloaded <= content_length,
        ensures
            r.left == content_length - downloaded,
            r.downloaded == downloaded,
            r.peer_id@ == default_peer_id_text(),
            r.port == 6881,
            r.uploaded == 0,
            r.compact == 1,
    {
        Self::new(content_length - downloaded).downloaded(downloaded)
    }

    /// The same request with another number of bytes to go.
    pub fn left(self, left: usize) -> (r: Self)
        ensures
            r.left == left,
            r.peer_id == self.peer_id,
            r.port == self.port,
            r.uploaded == self.uploaded,
            r.downloaded == self.downloaded,
            r.compact == self.compact,
    {
        Self { left, ..self }
    }

    /// The same request with another number of bytes downloaded.
    pub fn downloaded(self, downloaded: usize) -> (r: Self)
        ensures
            r.downloaded == downloaded,
            r.peer_id == self.peer_id,
            r.port == self.port,
            r.uploaded == self.uploaded,
            r.left == self.left,
            r.compact == self.compact,
    {
        Self { downloaded, ..self }
    }

    /// The same request with another number of bytes uploaded.
    pub fn uploaded(self, uploaded: usize) -> (r: Self)
        ensures
            r.uploaded == uploaded,
            r.peer_id == self.peer_id,
            r.port == self.port,
            r.downloaded == self.downloaded,
            r.left == self.left,
            r.compact == self.compact,
    {
        Self { uploaded, ..self }
    }

    /// The query of the announce for the content that `info_hash` names.
    pub open spec fn query(&self, info_hash: Seq<u8>) -> Seq<u8> {
        query_text(
            encode_utf8(self.peer_id@),
            self.port as nat,
            self.uploaded as nat,
            self.downloaded as nat,
            self.left as nat,
            self.compact as nat,
            info_hash,
        )
    }

    /// Builds the query of the announce.
    pub fn build_query(&self, info_hash: &[u8; 20]) -> (out: Vec<u8>)
        ensures
            out@ == self.query(info_hash@),
    {
        let mut out: Vec<u8> = Vec::new();
        // `peer_id=`
        push_label(
            &mut out,
            &[112, 101, 101, 114, 95, 105, 100, 61],
            Ghost(label_peer_id()),
        );
        let peer_id = urlencode(self.peer_id.as_str().as_bytes());
        put_slice(&mut out, peer_id.as_slice());
        // `&port=`
        push_label(
            &mut out,
            &[38, 112, 111, 114, 116, 61],
            Ghost(label_port()),
        );
        push_digits(&mut out, self.port as u64);
        // `&uploaded=`
        push_label(
            &mut out,
            &[38, 117, 112, 108, 111, 97, 100, 101, 100, 61],
            Ghost(label_uploaded()),
        );
        push_digits(&mut out, self.uploaded as u64);
        // `&downloaded=`
        push_label(
            &mut out,
            &[38, 100, 111, 119, 110, 108, 111, 97, 100, 101, 100, 61],
            Ghost(label_downloaded()),
        );
        push_digits(&mut out, self.downloaded as u64);
        // `&left=`
        push_label(
            &mut out,
            &[38, 108, 101, 102, 116, 61],
            Ghost(label_left()),
        );
        push_digits(&mut out, self.left as u64);
        // `&compact=`
        push_label(
            &mut out,
            &[38, 99, 111, 109, 112, 97, 99, 116, 61],
            Ghost(label_compact()),
        );
        push_digits(&mut out, self.compact as u64);
        // `&info_hash=`
        push_label(
            &mut out,
            &[38, 105, 110, 102, 111, 95, 104, 97, 115, 104, 61],
            Ghost(label_info_hash()),
        );
        let identifier = urlencode(info_hash.as_slice());
        put_slice(&mut out, identifier.as_slice());
        assert(out@ =~= self.query(info_hash@));
        out
    }

    /// The URL of the announce: the tracker endpoint, a question mark and
    /// the query.
    pub fn announce_url(&self, torrent: &Torrent, info_hash: &[u8; 20]) -> (out: Vec<u8>)
        ensures
            out@ == encode_utf8(torrent.announce@) + seq![63u8] + self.query(info_hash@),
    {
        let mut out: Vec<u8> = slice_to_vec(torrent.announce.as_str().as_bytes());
        out.push(63);
        let query = self.build_query(info_hash);
        put_slice(&mut out, query.as_slice());
        out
    }
}

impl Peers {
    /// Expands a compact peer list. The list is refused exactly when its
    /// length is no multiple of six.
    pub fn from_compact(bytes: &[u8]) -> (r: Result<Self, TrackerError>)
        ensures
            match r {
                Ok(peers) => bytes@.len() % 6 == 0 && peers@ == compact_peers(bytes@),
                Err(e) => bytes@.len() % 6 != 0 && e == TrackerError::MalformedPeerList,
            },
    {
        if bytes.len() % 6 != 0 {
            return Err(TrackerError::MalformedPeerList);
        }
        let count: usize = bytes.len() / 6;
        let mut peers: Vec<PeerAddress> = Vec::new();
        let mut i: usize = 0;
        while i < count
            invariant
                i <= count,
                count == bytes@.len() / 6,
                bytes@.len() % 6 == 0,
                6 * count == bytes@.len(),
                bytes@.len() == bytes.len(),
                peers@.len() == i,
                forall|k: int| 0 <= k < i ==> (#[trigger] peers@[k])@ == compact_peers(bytes@)[k],
            decreases count - i,
        {
            let ip: [u8; 4] = take_array(bytes, 6 * i);
            let port: u16 = read_u16_be(bytes, 6 * i + 4);
            peers.push(PeerAddress { ip, port });
            i += 1;
        }
        let peers = Peers(peers);
        assert(peers@ =~= compact_peers(bytes@));
        Ok(peers)
    }

    /// The compact list of the peers: six bytes each.
    pub fn to_compact(&self) -> (out: Vec<u8>)
        ensures
            out@ == peers_compact(self@, self@.len() as int),
    {
        let mut out: Vec<u8> = Vec::new();
        let mut i: usize = 0;
        while i < self.0.len()
            invariant
                i <= self.0.len(),
                out@ == peers_compact(self@, i as int),
            decreases self.0.len() - i,
        {
            let peer = &self.0[i];
            put_slice(&mut out, peer.ip.as_slice());
            out.push((peer.port / 0x100) as u8);
            out.push((peer.port % 0x100) as u8);
            assert(out@ =~= peers_compact(self@, i as int) + self@[i as int].ip + be16(
                self@[i as int].port,
            ));
            i += 1;
        }
        out
    }
}

impl TrackerResponse {
    /// Reads the answer of a tracker.
    pub fn parse(bytes: &[u8]) -> (r: Result<Self, TrackerError>)
        ensures
            match r {
                Ok(response) => response_reading(bytes@) == Ok::<_, TrackerError>(
                    (response.interval as nat, response.peers@),
                ),
                Err(e) => response_reading(bytes@) == Err::<(nat, Seq<PeerView>), _>(e),
            },
    {
        let value = match decode(bytes) {
            Ok(v) => v,
            Err(_) => {
                return Err(TrackerError::MalformedEncoding);
            },
        };
        Self::from_value(&value)
    }

    /// Reads a decoded answer.
    pub fn from_value(value: &CanonicalValue) -> (r: Result<Self, TrackerError>)
        ensures
            match r {
                Ok(response) => response_of(value@) == Ok::<_, TrackerError>(
                    (response.interval as nat, response.peers@),
                ),
                Err(e) => response_of(value@) == Err::<(nat, Seq<PeerView>), _>(e),
            },
    {
        let key_interval: [u8; 8] = [105, 110, 116, 101, 114, 118, 97, 108];
        let key_peers: [u8; 5] = [112, 101, 101, 114, 115];
        assert(key_interval@ =~= self::key_interval() && key_peers@ =~= self::key_peers());
        match value {
            CanonicalValue::Dict(d) => {
                let interval = dict_get(d, key_interval.as_slice());
                let peers = dict_get(d, key_peers.as_slice());
                match (interval, peers) {
                    (Some(CanonicalValue::Integer(i)), Some(CanonicalValue::ByteString(b))) => {
                        if *i < 0 || *i as u64 > usize::MAX as u64 {
                            return Err(TrackerError::InvalidResponse);
                        }
                        match Peers::from_compact(b.as_slice()) {
                            Ok(peers) => Ok(TrackerResponse { interval: *i as usize, peers }),
                            Err(e) => Err(e),
                        }
                    },
                    _ => Err(TrackerError::InvalidResponse),
                }
            },
            _ => Err(TrackerError::InvalidResponse),
        }
    }
}

/// A compact list is six bytes for each peer, and expands to the peers it
/// was written from.
pub proof fn lemma_peers_round_trip(peers: Seq<PeerView>, upto: int)
    requires
        0 <= upto <= peers.len(),
        forall|i: int| 0 <= i < peers.len() ==> (#[trigger] peers[i]).ip.len() == 4,
    ensures
        peers_compact(peers, upto).len() == 6 * upto,
        compact_peers(peers_compact(peers, upto)) == peers.take(upto),
    decreases upto,
{
    if upto > 0 {
        lemma_peers_round_trip(peers, upto - 1);
        let front = peers_compact(peers, upto - 1);
        let whole = peers_compact(peers, upto);
        let last = peers[upto - 1];
        lemma_be16_round_trip(last.port, be16(last.port));
        assert(whole.len() == 6 * upto);
        assert forall|k: int| 0 <= k < upto implies compact_peers(whole)[k] == peers.take(upto)[k] by {
            if k < upto - 1 {
                assert(whole.subrange(6 * k, 6 * k + 4) =~= front.subrange(6 * k, 6 * k + 4));
                assert(whole.subrange(6 * k + 4, 6 * k + 6) =~= front.subrange(
                    6 * k + 4,
                    6 * k + 6,
                ));
                assert(compact_peers(front)[k] == peers.take(upto - 1)[k]);
            } else {
                assert(whole.subrange(6 * k, 6 * k + 4) =~= last.ip);
                assert(whole.subrange(6 * k + 4, 6 * k + 6) =~= be16(last.port));
            }
        }
        assert(compact_peers(whole) =~= peers.take(upto));
    } else {
        assert(compact_peers(peers_compact(peers, upto)) =~= peers.take(upto));
    }
}

} // verus!
