//! Reading a metainfo file: from bytes, through the canonical codec, to the
//! typed model.

use crate::decode::{decode, decoded};
use crate::torrent::{
    announce_key, files_key, info_key, key_announce, key_files, key_info, key_length, key_name,
    key_path, key_piece_length, key_pieces, length_key, name_key, path_key, piece_length_key,
    pieces_key, Content, ContentView, FileView, Info, InfoView, Pieces, Torrent, TorrentFile,
    TorrentView,
};
use crate::dictionary::lemma_insertion_order_is_immaterial;
use crate::torrent::{identifier_of, joined};
use crate::value::{
    dict_get, entries_view, inserted, items_view, keys_sorted, lookup, CanonicalValue, Value,
};
use crate::wire::take_array;
use vstd::prelude::*;
use vstd::utf8::{decode_utf8, valid_utf8};

verus! {

/// Why bytes are no metainfo file.
#[derive(Debug, Clone, Copy, PartialEq, Eq)]
pub enum MetainfoError {
    /// The bytes are no canonical value.
    MalformedEncoding,
    /// The value lacks a field, holds one of the wrong kind, or holds
    /// fields that contradict each other.
    InvalidMetainfo,
}

/// The text that a value holds: a byte string that is UTF-8.
pub open spec fn text_of(v: Option<Value>) -> Option<Seq<char>> {
    match v {
        Some(Value::Bytes(b)) => if valid_utf8(b) {
            Some(decode_utf8(b))
        } else {
            None
        },
        _ => None,
    }
}

/// The size that a value holds: an integer that is not negative and fits
/// the machine.
pub open spec fn size_of(v: Option<Value>) -> Option<nat> {
    match v {
        Some(Value::Int(i)) => if 0 <= i <= usize::MAX {
            Some(i as nat)
        } else {
            None
        },
        _ => None,
    }
}

/// The digests that a byte string of whole digests holds, twenty bytes
/// each.
pub open spec fn split_digests(b: Seq<u8>) -> Seq<Seq<u8>> {
    Seq::new(b.len() / 20, |i: int| b.subrange(20 * i, 20 * i + 20))
}

/// The digests that a value holds: a byte string of twenty bytes for each.
pub open spec fn digests_of(v: Option<Value>) -> Option<Seq<Seq<u8>>> {
    match v {
        Some(Value::Bytes(b)) => if b.len() % 20 == 0 {
            Some(split_digests(b))
        } else {
            None
        },
        _ => None,
    }
}

/// The path that a value holds: a list of texts, and not an empty one.
pub open spec fn path_of(v: Option<Value>) -> Option<Seq<Seq<char>>> {
    match v {
        Some(Value::List(l)) => if l.len() > 0 && forall|i: int|
            0 <= i < l.len() ==> text_of(Some(#[trigger] l[i])) is Some {
            Some(Seq::new(l.len(), |i: int| text_of(Some(l[i])).unwrap()))
        } else {
            None
        },
        _ => None,
    }
}

/// The file that a value holds: a dictionary with a length and a path.
pub open spec fn file_of(v: Value) -> Option<FileView> {
    match v {
        Value::Dict(d) => match (size_of(lookup(d, key_length())), path_of(lookup(d, key_path()))) {
            (Some(length), Some(path)) => Some(FileView { length, path }),
            _ => None,
        },
        _ => None,
    }
}

/// The files that a value holds: a list of files.
pub open spec fn files_of(v: Value) -> Option<Seq<FileView>> {
    match v {
        Value::List(l) => if forall|i: int| 0 <= i < l.len() ==> file_of(#[trigger] l[i]) is Some {
            Some(Seq::new(l.len(), |i: int| file_of(l[i]).unwrap()))
        } else {
            None
        },
        _ => None,
    }
}

/// The file layout that an info dictionary holds: a length or a list of
/// files, and not both.
pub open spec fn content_of(d: Seq<(Seq<u8>, Value)>) -> Option<ContentView> {
    match (lookup(d, key_length()), lookup(d, key_files())) {
        (Some(length), None) => match size_of(Some(length)) {
            Some(length) => Some(ContentView::SingleFile { length }),
            None => None,
        },
        (None, Some(files)) => match files_of(files) {
            Some(files) => Some(ContentView::MultiFile { files }),
            None => None,
        },
        _ => None,
    }
}

/// The info section that a value holds: a dictionary with a name, a piece
/// length, the digests and a file layout.
pub open spec fn info_of(v: Option<Value>) -> Option<InfoView> {
    match v {
        Some(Value::Dict(d)) => match (
            text_of(lookup(d, key_name())),
            size_of(lookup(d, key_piece_length())),
            digests_of(lookup(d, key_pieces())),
            content_of(d),
        ) {
            (Some(name), Some(piece_length), Some(pieces), Some(content)) => Some(
                InfoView { name, piece_length, pieces, content },
            ),
            _ => None,
        },
        _ => None,
    }
}

/// The metainfo that a value holds: a dictionary with the tracker endpoint
/// and the info section. Other keys are passed over.
pub open spec fn metainfo_of(v: Value) -> Option<TorrentView> {
    match v {
        Value::Dict(d) => match (text_of(lookup(d, key_announce())), info_of(lookup(d, key_info()))) {
            (Some(announce), Some(info)) => Some(TorrentView { announce, info }),
            _ => None,
        },
        _ => None,
    }
}

/// The value that the bytes of a metainfo file bind `info` to.
pub open spec fn info_entry(bytes: Seq<u8>) -> Option<Value> {
    match decoded(bytes) {
        Some(Value::Dict(d)) => lookup(d, key_info()),
        _ => None,
    }
}

/// What the bytes of a metainfo file hold, or why they hold none.
pub open spec fn metainfo_reading(bytes: Seq<u8>) -> Result<TorrentView, MetainfoError> {
    match decoded(bytes) {
        None => Err(MetainfoError::MalformedEncoding),
        Some(v) => match metainfo_of(v) {
            Some(t) => Ok(t),
            None => Err(MetainfoError::InvalidMetainfo),
        },
    }
}

/// `core::str::from_utf8`: the text that `bytes` spell, exactly when they
/// are valid UTF-8.
#[verifier::external_body]
fn utf8_text(bytes: &[u8]) -> (r: Option<&str>)
    ensures
        r is Some <==> valid_utf8(bytes@),
        r is Some ==> r.unwrap()@ == decode_utf8(bytes@),
{
    match core::str::from_utf8(bytes) {
        Ok(text) => Some(text),
        Err(_) => None,
    }
}

fn read_text(v: Option<&CanonicalValue>) -> (r: Option<String>)
    ensures
        match r {
            Some(text) => text_of(view_of(v)) == Some(text@),
            None => text_of(view_of(v)) is None,
        },
{
    match v {
        Some(CanonicalValue::ByteString(b)) => match utf8_text(b.as_slice()) {
            Some(text) => Some(text.to_owned()),
            None => None,
        },
        _ => None,
    }
}

/// The tree that a value stands for, if there is a value.
pub open spec fn view_of(v: Option<&CanonicalValue>) -> Option<Value> {
    match v {
        Some(v) => Some(v@),
        None => None,
    }
}

fn read_size(v: Option<&CanonicalValue>) -> (r: Option<usize>)
    ensures
        match r {
            Some(n) => size_of(view_of(v)) == Some(n as nat) && n <= i64::MAX,
            None => size_of(view_of(v)) is None,
        },
{
    match v {
        Some(CanonicalValue::Integer(i)) => {
            if *i < 0 || *i as u64 > usize::MAX as u64 {
                None
            } else {
                Some(*i as usize)
            }
        },
        _ => None,
    }
}

impl Pieces {
    /// Splits a byte string into digests of twenty bytes. There are none
    /// exactly when the length is no multiple of twenty.
    pub fn from_bytes(bytes: &[u8]) -> (r: Option<Self>)
        ensures
            match r {
                Some(pieces) => bytes@.len() % 20 == 0 && pieces@ == split_digests(bytes@),
                None => bytes@.len() % 20 != 0,
            },
    {
        if bytes.len() % 20 != 0 {
            return None;
        }
        let count: usize = bytes.len() / 20;
        let mut digests: Vec<[u8; 20]> = Vec::new();
        let mut i: usize = 0;
        while i < count
            invariant
                i <= count,
                20 * count == bytes@.len(),
                bytes@.len() == bytes.len(),
                digests@.len() == i,
                forall|k: int|
                    0 <= k < i ==> (#[trigger] digests@[k])@ == bytes@.subrange(20 * k, 20 * k + 20),
            decreases count - i,
        {
            let digest: [u8; 20] = take_array(bytes, 20 * i);
            digests.push(digest);
            i += 1;
        }
        let pieces = Pieces(digests);
        assert(pieces@ =~= split_digests(bytes@));
        Some(pieces)
    }
}

fn read_digests(v: Option<&CanonicalValue>) -> (r: Option<Pieces>)
    ensures
        match r {
            Some(pieces) => digests_of(view_of(v)) == Some(pieces@),
            None => digests_of(view_of(v)) is None,
        },
{
    match v {
        Some(CanonicalValue::ByteString(b)) => Pieces::from_bytes(b.as_slice()),
        _ => None,
    }
}

fn read_path(v: Option<&CanonicalValue>) -> (r: Option<Vec<String>>)
    ensures
        match r {
            Some(path) => path_of(view_of(v)) == Some(
                Seq::new(path.len() as nat, |i: int| path[i]@),
            ),
            None => path_of(view_of(v)) is None,
        },
{
    match v {
        Some(CanonicalValue::List(l)) => {
            if l.len() == 0 {
                return None;
            }
            let ghost items = items_view(*l);
            let mut path: Vec<String> = Vec::new();
            let mut i: usize = 0;
            while i < l.len()
                invariant
                    i <= l.len(),
                    items == items_view(*l),
                    view_of(v) == Some(Value::List(items)),
                    path@.len() == i,
                    forall|k: int|
                        0 <= k < i ==> text_of(Some(#[trigger] items[k])) == Some(path@[k]@),
                decreases l.len() - i,
            {
                match read_text(Some(&l[i])) {
                    Some(text) => {
                        path.push(text);
                    },
                    None => {
                        assert(text_of(Some(items[i as int])) is None);
                        return None;
                    },
                }
                i += 1;
            }
            assert(Seq::new(path.len() as nat, |i: int| path[i]@) =~= path_of(view_of(v)).unwrap());
            Some(path)
        },
        _ => None,
    }
}

fn read_file(v: &CanonicalValue) -> (r: Option<TorrentFile>)
    ensures
        match r {
            Some(file) => file_of(v@) == Some(file@) && file.encodable(),
            None => file_of(v@) is None,
        },
{
    match v {
        CanonicalValue::Dict(d) => {
            let length = read_size(dict_get(d, length_key().as_slice()));
            let path = read_path(dict_get(d, path_key().as_slice()));
            match (length, path) {
                (Some(length), Some(path)) => Some(TorrentFile { length, path }),
                _ => None,
            }
        },
        _ => None,
    }
}

fn read_files(v: &CanonicalValue) -> (r: Option<Vec<TorrentFile>>)
    ensures
        match r {
            Some(files) => files_of(v@) == Some(Seq::new(files.len() as nat, |i: int| files[i]@))
                && forall|i: int| 0 <= i < files.len() ==> (#[trigger] files[i]).encodable(),
            None => files_of(v@) is None,
        },
{
    match v {
        CanonicalValue::List(l) => {
            let ghost items = items_view(*l);
            let mut files: Vec<TorrentFile> = Vec::new();
            let mut i: usize = 0;
            while i < l.len()
                invariant
                    i <= l.len(),
                    items == items_view(*l),
                    v@ == Value::List(items),
                    files@.len() == i,
                    forall|k: int| 0 <= k < i ==> file_of(#[trigger] items[k]) == Some(files@[k]@),
                    forall|k: int| 0 <= k < i ==> (#[trigger] files[k]).encodable(),
                decreases l.len() - i,
            {
                match read_file(&l[i]) {
                    Some(file) => {
                        files.push(file);
                    },
                    None => {
                        assert(file_of(items[i as int]) is None);
                        return None;
                    },
                }
                i += 1;
            }
            assert(Seq::new(files.len() as nat, |i: int| files[i]@) =~= files_of(v@).unwrap());
            Some(files)
        },
        _ => None,
    }
}

fn read_content(d: &Vec<(Vec<u8>, CanonicalValue)>) -> (r: Option<Content>)
    ensures
        match r {
            Some(content) => content_of(entries_view(*d)) == Some(content@) && (
            match content {
                Content::SingleFile { length } => length <= i64::MAX,
                Content::MultiFile { files } => forall|i: int|
                    0 <= i < files.len() ==> (#[trigger] files[i]).encodable(),
            }),
            None => content_of(entries_view(*d)) is None,
        },
{
    let length = dict_get(d, length_key().as_slice());
    let files = dict_get(d, files_key().as_slice());
    match (length, files) {
        (Some(length), None) => match read_size(Some(length)) {
            Some(length) => Some(Content::SingleFile { length }),
            None => None,
        },
        (None, Some(files)) => match read_files(files) {
            Some(files) => Some(Content::MultiFile { files }),
            None => None,
        },
        _ => None,
    }
}

fn read_info(v: Option<&CanonicalValue>) -> (r: Option<Info>)
    ensures
        match r {
            Some(info) => info_of(view_of(v)) == Some(info@) && info.encodable(),
            None => info_of(view_of(v)) is None,
        },
{
    match v {
        Some(CanonicalValue::Dict(d)) => {
            let name = read_text(dict_get(d, name_key().as_slice()));
            let piece_length = read_size(dict_get(d, piece_length_key().as_slice()));
            let pieces = read_digests(dict_get(d, pieces_key().as_slice()));
            let content = read_content(d);
            match (name, piece_length, pieces, content) {
                (Some(name), Some(piece_length), Some(pieces), Some(content)) => Some(
                    Info { name, piece_length, pieces, content },
                ),
                _ => None,
            }
        },
        _ => None,
    }
}

impl Torrent {
    /// Projects a decoded value into the typed model.
    pub fn from_value(value: &CanonicalValue) -> (r: Result<Self, MetainfoError>)
        ensures
            match r {
                Ok(t) => metainfo_of(value@) == Some(t@) && t.info.encodable(),
                Err(e) => metainfo_of(value@) is None && e == MetainfoError::InvalidMetainfo,
            },
    {
        match value {
            CanonicalValue::Dict(d) => {
                let announce = read_text(dict_get(d, announce_key().as_slice()));
                let info = read_info(dict_get(d, info_key().as_slice()));
                match (announce, info) {
                    (Some(announce), Some(info)) => Ok(Torrent { announce, info }),
                    _ => Err(MetainfoError::InvalidMetainfo),
                }
            },
            _ => Err(MetainfoError::InvalidMetainfo),
        }
    }

    /// Parses a metainfo file. The bytes are refused as malformed where
    /// they are no canonical value, and as invalid where the value lacks
    /// the tracker endpoint, the info section, the name, the piece length
    /// or the digests, holds one of them in the wrong kind, holds both or
    /// neither of a length and a list of files, holds digests whose length
    /// is no multiple of twenty, or a file without a path.
    pub fn parse(bytes: &[u8]) -> (r: Result<Self, MetainfoError>)
        ensures
            match r {
                Ok(t) => metainfo_reading(bytes@) == Ok::<_, MetainfoError>(t@)
                    && t.info.encodable(),
                Err(e) => metainfo_reading(bytes@) == Err::<TorrentView, _>(e),
            },
    {
        match decode(bytes) {
            Ok(value) => Torrent::from_value(&value),
            Err(_) => Err(MetainfoError::MalformedEncoding),
        }
    }
}

/// The digests written one after the other split back into themselves.
pub proof fn lemma_pieces_round_trip(pieces: Seq<Seq<u8>>, upto: int)
    requires
        0 <= upto <= pieces.len(),
        forall|i: int| 0 <= i < pieces.len() ==> (#[trigger] pieces[i]).len() == 20,
    ensures
        joined(pieces, upto).len() == 20 * upto,
        split_digests(joined(pieces, upto)) == pieces.take(upto),
    decreases upto,
{
    if upto > 0 {
        lemma_pieces_round_trip(pieces, upto - 1);
        let front = joined(pieces, upto - 1);
        let whole = joined(pieces, upto);
        assert forall|k: int| 0 <= k < upto implies split_digests(whole)[k] == pieces.take(upto)[k] by {
            if k < upto - 1 {
                assert(whole.subrange(20 * k, 20 * k + 20) =~= front.subrange(20 * k, 20 * k + 20));
                assert(split_digests(front)[k] == pieces.take(upto - 1)[k]);
            } else {
                assert(whole.subrange(20 * k, 20 * k + 20) =~= pieces[upto - 1]);
            }
        }
        assert(split_digests(whole) =~= pieces.take(upto));
    } else {
        assert(split_digests(joined(pieces, upto)) =~= pieces.take(upto));
    }
}

/// The content identifier depends on the info section alone: two metainfo
/// dictionaries that bind `info` to the same value have the same content
/// identifier, whatever else they hold.
pub proof fn lemma_identifier_depends_on_info_alone(
    a: Seq<(Seq<u8>, Value)>,
    b: Seq<(Seq<u8>, Value)>,
)
    requires
        lookup(a, key_info()) == lookup(b, key_info()),
        metainfo_of(Value::Dict(a)) is Some,
        metainfo_of(Value::Dict(b)) is Some,
    ensures
        identifier_of(metainfo_of(Value::Dict(a)).unwrap().info) == identifier_of(
            metainfo_of(Value::Dict(b)).unwrap().info,
        ),
{
}

/// The content identifier is stable: two metainfo files that hold the same
/// info section, and so a file read twice, give the same identifier.
pub proof fn lemma_identifier_is_stable(a: Seq<u8>, b: Seq<u8>)
    requires
        metainfo_reading(a) is Ok,
        metainfo_reading(b) is Ok,
        info_entry(a) == info_entry(b),
    ensures
        identifier_of(metainfo_reading(a)->Ok_0.info) == identifier_of(
            metainfo_reading(b)->Ok_0.info,
        ),
{
}

/// The order in which two keys of a metainfo dictionary were written leaves
/// no trace in what is read: the same metainfo, or none, either way.
pub proof fn lemma_metainfo_ignores_key_order(
    d: Seq<(Seq<u8>, Value)>,
    key1: Seq<u8>,
    value1: Value,
    key2: Seq<u8>,
    value2: Value,
)
    requires
        keys_sorted(d),
        key1 != key2,
    ensures
        metainfo_of(Value::Dict(inserted(inserted(d, key1, value1), key2, value2)))
            == metainfo_of(Value::Dict(inserted(inserted(d, key2, value2), key1, value1))),
{
    lemma_insertion_order_is_immaterial(d, key1, value1, key2, value2);
}

} // verus!
