//! The metainfo model: the tracker endpoint, the file layout, the piece
//! size and the per-piece digests, with the content identifier derived from
//! the canonical encoding of the info section.

use crate::digest::{sha1, sha1_digest};
use crate::encode::{encode, encode_value};
use crate::value::{
    entries_view, items_view, keys_sorted, lemma_lex_first_difference, well_formed,
    CanonicalValue, Value,
};
use vstd::prelude::*;
use vstd::slice::slice_to_vec;
use vstd::utf8::encode_utf8;

verus! {

/// The digests of the pieces, twenty bytes each, in piece order.
#[derive(Debug, PartialEq, Eq)]
pub struct Pieces(pub Vec<[u8; 20]>);

/// One file of a multi-file layout.
#[derive(Debug, PartialEq, Eq)]
pub struct TorrentFile {
    /// The length of the file, in bytes.
    pub length: usize,
    /// The directory names that lead to the file, and last its own name.
    pub path: Vec<String>,
}

/// The file layout: one file, or several that count as one by joining them
/// in the order of the list.
#[derive(Debug, PartialEq, Eq)]
pub enum Content {
    SingleFile { length: usize },
    MultiFile { files: Vec<TorrentFile> },
}

/// The info section: what the content identifier is the digest of.
#[derive(Debug, PartialEq, Eq)]
pub struct Info {
    /// The advisory name of the file, or of the directory.
    pub name: String,
    /// The number of bytes in each piece but possibly the last.
    pub piece_length: usize,
    /// The digest of each piece.
    pub pieces: Pieces,
    /// The file layout.
    pub content: Content,
}

/// A parsed metainfo file.
#[derive(Debug, PartialEq, Eq)]
pub struct Torrent {
    /// The URL of the tracker.
    pub announce: String,
    /// The info section.
    pub info: Info,
}

/// A file as a mathematical value.
pub struct FileView {
    pub length: nat,
    pub path: Seq<Seq<char>>,
}

/// A file layout as a mathematical value.
pub enum ContentView {
    SingleFile { length: nat },
    MultiFile { files: Seq<FileView> },
}

/// An info section as a mathematical value.
pub struct InfoView {
    pub name: Seq<char>,
    pub piece_length: nat,
    pub pieces: Seq<Seq<u8>>,
    pub content: ContentView,
}

/// A metainfo file as a mathematical value.
pub struct TorrentView {
    pub announce: Seq<char>,
    pub info: InfoView,
}

impl View for Pieces {
    type V = Seq<Seq<u8>>;

    open spec fn view(&self) -> Seq<Seq<u8>> {
        Seq::new(self.0.len() as nat, |i: int| self.0[i]@)
    }
}

impl View for TorrentFile {
    type V = FileView;

    open spec fn view(&self) -> FileView {
        FileView {
            length: self.length as nat,
            path: Seq::new(self.path.len() as nat, |i: int| self.path[i]@),
        }
    }
}

impl View for Content {
    type V = ContentView;

    open spec fn view(&self) -> ContentView {
        match *self {
            Content::SingleFile { length } => ContentView::SingleFile { length: length as nat },
            Content::MultiFile { files } => ContentView::MultiFile {
                files: Seq::new(files.len() as nat, |i: int| files[i]@),
            },
        }
    }
}

impl View for Info {
    type V = InfoView;

    open spec fn view(&self) -> InfoView {
        InfoView {
            name: self.name@,
            piece_length: self.piece_length as nat,
            pieces: self.pieces@,
            content: self.content@,
        }
    }
}

impl View for Torrent {
    type V = TorrentView;

    open spec fn view(&self) -> TorrentView {
        TorrentView { announce: self.announce@, info: self.info@ }
    }
}

/// The key `announce`.
pub open spec fn key_announce() -> Seq<u8> {
    seq![97u8, 110, 110, 111, 117, 110, 99, 101]
}

/// The key `info`.
pub open spec fn key_info() -> Seq<u8> {
    seq![105u8, 110, 102, 111]
}

/// The key `name`.
pub open spec fn key_name() -> Seq<u8> {
    seq![110u8, 97, 109, 101]
}

/// The key `piece length`.
pub open spec fn key_piece_length() -> Seq<u8> {
    seq![112u8, 105, 101, 99, 101, 32, 108, 101, 110, 103, 116, 104]
}

/// The key `pieces`.
pub open spec fn key_pieces() -> Seq<u8> {
    seq![112u8, 105, 101, 99, 101, 115]
}

/// The key `length`.
pub open spec fn key_length() -> Seq<u8> {
    seq![108u8, 101, 110, 103, 116, 104]
}

/// The key `files`.
pub open spec fn key_files() -> Seq<u8> {
    seq![102u8, 105, 108, 101, 115]
}

/// The key `path`.
pub open spec fn key_path() -> Seq<u8> {
    seq![112u8, 97, 116, 104]
}

/// The key `announce`, as bytes to look up or to write.
pub(crate) fn announce_key() -> (key: [u8; 8])
    ensures
        key@ == key_announce(),
{
    let key: [u8; 8] = [97, 110, 110, 111, 117, 110, 99, 101];
    assert(key@ =~= key_announce());
    key
}

/// The key `info`, as bytes to look up or to write.
pub(crate) fn info_key() -> (key: [u8; 4])
    ensures
        key@ == key_info(),
{
    let key: [u8; 4] = [105, 110, 102, 111];
    assert(key@ =~= key_info());
    key
}

/// The key `name`, as bytes to look up or to write.
pub(crate) fn name_key() -> (key: [u8; 4])
    ensures
        key@ == key_name(),
{
    let key: [u8; 4] = [110, 97, 109, 101];
    assert(key@ =~= key_name());
    key
}

/// The key `piece length`, as bytes to look up or to write.
pub(crate) fn piece_length_key() -> (key: [u8; 12])
    ensures
        key@ == key_piece_length(),
{
    let key: [u8; 12] = [112, 105, 101, 99, 101, 32, 108, 101, 110, 103, 116, 104];
    assert(key@ =~= key_piece_length());
    key
}

/// The key `pieces`, as bytes to look up or to write.
pub(crate) fn pieces_key() -> (key: [u8; 6])
    ensures
        key@ == key_pieces(),
{
    let key: [u8; 6] = [112, 105, 101, 99, 101, 115];
    assert(key@ =~= key_pieces());
    key
}

/// The key `length`, as bytes to look up or to write.
pub(crate) fn length_key() -> (key: [u8; 6])
    ensures
        key@ == key_length(),
{
    let key: [u8; 6] = [108, 101, 110, 103, 116, 104];
    assert(key@ =~= key_length());
    key
}

/// The key `files`, as bytes to look up or to write.
pub(crate) fn files_key() -> (key: [u8; 5])
    ensures
        key@ == key_files(),
{
    let key: [u8; 5] = [102, 105, 108, 101, 115];
    assert(key@ =~= key_files());
    key
}

/// The key `path`, as bytes to look up or to write.
pub(crate) fn path_key() -> (key: [u8; 4])
    ensures
        key@ == key_path(),
{
    let key: [u8; 4] = [112, 97, 116, 104];
    assert(key@ =~= key_path());
    key
}

/// The sum of the lengths of the first `upto` files.
pub open spec fn files_length(files: Seq<FileView>, upto: int) -> nat
    decreases upto,
{
    if upto <= 0 {
        0
    } else {
        files_length(files, upto - 1) + files[upto - 1].length
    }
}

/// The total number of bytes of the content: the sum of the file lengths.
pub open spec fn total_length(content: ContentView) -> nat {
    match content {
        ContentView::SingleFile { length } => length,
        ContentView::MultiFile { files } => files_length(files, files.len() as int),
    }
}

/// The first `upto` digests, one after the other.
pub open spec fn joined(pieces: Seq<Seq<u8>>, upto: int) -> Seq<u8>
    decreases upto,
{
    if upto <= 0 {
        Seq::empty()
    } else {
        joined(pieces, upto - 1) + pieces[upto - 1]
    }
}

/// A file as a canonical value: a dictionary of its length and its path.
pub open spec fn file_value(f: FileView) -> Value {
    Value::Dict(
        seq![
            (key_length(), Value::Int(f.length as int)),
            (
                key_path(),
                Value::List(Seq::new(f.path.len(), |i: int| Value::Bytes(encode_utf8(f.path[i])))),
            ),
        ],
    )
}

/// The entry of the info section that holds the file layout: `length` for
/// one file, `files` for several.
pub open spec fn content_entry(c: ContentView) -> (Seq<u8>, Value) {
    match c {
        ContentView::SingleFile { length } => (key_length(), Value::Int(length as int)),
        ContentView::MultiFile { files } => (
            key_files(),
            Value::List(Seq::new(files.len(), |i: int| file_value(files[i]))),
        ),
    }
}

/// The info section as a canonical value: a dictionary with its keys in
/// byte order, whatever order the fields of the record have.
pub open spec fn info_value(info: InfoView) -> Value {
    Value::Dict(
        seq![
            content_entry(info.content),
            (key_name(), Value::Bytes(encode_utf8(info.name))),
            (key_piece_length(), Value::Int(info.piece_length as int)),
            (key_pieces(), Value::Bytes(joined(info.pieces, info.pieces.len() as int))),
        ],
    )
}

/// The content identifier of an info section: the digest of its canonical
/// encoding.
pub open spec fn identifier_of(info: InfoView) -> Seq<u8> {
    sha1_digest(encode_value(info_value(info)))
}

/// The info section is written canonically: the value that stands for it
/// is well formed, with the keys of each dictionary in byte order.
pub proof fn lemma_info_value_well_formed(info: InfoView)
    requires
        info.piece_length <= i64::MAX,
        match info.content {
            ContentView::SingleFile { length } => length <= i64::MAX,
            ContentView::MultiFile { files } => forall|i: int|
                0 <= i < files.len() ==> (#[trigger] files[i]).length <= i64::MAX,
        },
    ensures
        well_formed(info_value(info)),
{
    lemma_lex_first_difference(key_files(), key_name(), 0);
    lemma_lex_first_difference(key_files(), key_piece_length(), 0);
    lemma_lex_first_difference(key_files(), key_pieces(), 0);
    lemma_lex_first_difference(key_length(), key_name(), 0);
    lemma_lex_first_difference(key_length(), key_piece_length(), 0);
    lemma_lex_first_difference(key_length(), key_pieces(), 0);
    lemma_lex_first_difference(key_length(), key_path(), 0);
    lemma_lex_first_difference(key_name(), key_piece_length(), 0);
    lemma_lex_first_difference(key_name(), key_pieces(), 0);
    lemma_lex_first_difference(key_piece_length(), key_pieces(), 5);
    let d = info_value(info)->Dict_0;
    assert(keys_sorted(d));
    match info.content {
        ContentView::SingleFile { length } => {
            assert(well_formed(d[0].1));
        },
        ContentView::MultiFile { files } => {
            let list = content_entry(info.content).1->List_0;
            assert forall|i: int| 0 <= i < list.len() implies well_formed(#[trigger] list[i]) by {
                let f = file_value(files[i])->Dict_0;
                assert(keys_sorted(f));
                assert(well_formed(f[0].1));
                let path = f[1].1->List_0;
                assert forall|j: int| 0 <= j < path.len() implies well_formed(#[trigger] path[j]) by {
                }
                assert(well_formed(f[1].1));
            }
            assert(well_formed(d[0].1));
        },
    }
    assert(well_formed(d[1].1));
    assert(well_formed(d[2].1));
    assert(well_formed(d[3].1));
    assert forall|i: int| 0 <= i < d.len() implies well_formed((#[trigger] d[i]).1) by {
        assert(i == 0 || i == 1 || i == 2 || i == 3);
    }
}

/// The sums of file lengths grow with the number of files.
pub proof fn lemma_files_length_grows(files: Seq<FileView>, a: int, b: int)
    requires
        a <= b,
    ensures
        files_length(files, a) <= files_length(files, b),
    decreases b - a,
{
    if a < b {
        lemma_files_length_grows(files, a, b - 1);
    }
}

/// The bytes of a text.
fn text_bytes(text: &String) -> (b: Vec<u8>)
    ensures
        b@ == encode_utf8(text@),
{
    slice_to_vec(text.as_str().as_bytes())
}

impl Pieces {
    /// All digests, one after the other.
    pub fn to_bytes(&self) -> (out: Vec<u8>)
        ensures
            out@ == joined(self@, self@.len() as int),
    {
        let mut out: Vec<u8> = Vec::new();
        let mut i: usize = 0;
        while i < self.0.len()
            invariant
                i <= self.0.len(),
                out@ == joined(self@, i as int),
            decreases self.0.len() - i,
        {
            let mut j: usize = 0;
            while j < 20
                invariant
                    j <= 20,
                    i < self.0.len(),
                    out@ == joined(self@, i as int) + self.0[i as int]@.take(j as int),
                decreases 20 - j,
            {
                out.push(self.0[i][j]);
                assert(self.0[i as int]@.take(j + 1) =~= self.0[i as int]@.take(j as int).push(
                    self.0[i as int]@[j as int],
                ));
                j += 1;
            }
            assert(self.0[i as int]@.take(20) =~= self.0[i as int]@);
            i += 1;
        }
        out
    }
}

impl TorrentFile {
    /// The length can be written as a canonical integer.
    pub open spec fn encodable(&self) -> bool {
        self.length <= i64::MAX
    }

    /// The file as a canonical value.
    pub fn to_value(&self) -> (v: CanonicalValue)
        requires
            self.encodable(),
        ensures
            v@ == file_value(self@),
    {
        let mut path: Vec<CanonicalValue> = Vec::new();
        let mut i: usize = 0;
        while i < self.path.len()
            invariant
                i <= self.path.len(),
                items_view(path) == Seq::new(
                    i as nat,
                    |k: int| Value::Bytes(encode_utf8(self@.path[k])),
                ),
            decreases self.path.len() - i,
        {
            let ghost before = items_view(path);
            path.push(CanonicalValue::ByteString(text_bytes(&self.path[i])));
            assert(items_view(path) =~= before.push(Value::Bytes(encode_utf8(self@.path[i as int]))));
            assert(items_view(path) =~= Seq::new(
                (i + 1) as nat,
                |k: int| Value::Bytes(encode_utf8(self@.path[k])),
            ));
            i += 1;
        }
        let mut entries: Vec<(Vec<u8>, CanonicalValue)> = Vec::new();
        entries.push(
            (slice_to_vec(length_key().as_slice()), CanonicalValue::Integer(self.length as i64)),
        );
        entries.push((slice_to_vec(path_key().as_slice()), CanonicalValue::List(path)));
        assert(self@.path.len() == self.path.len());
        assert(entries_view(entries) =~= file_value(self@)->Dict_0);
        CanonicalValue::Dict(entries)
    }
}

impl Info {
    /// Every length can be written as a canonical integer.
    pub open spec fn encodable(&self) -> bool {
        &&& self.piece_length <= i64::MAX
        &&& match self.content {
            Content::SingleFile { length } => length <= i64::MAX,
            Content::MultiFile { files } => forall|i: int|
                0 <= i < files.len() ==> (#[trigger] files[i]).encodable(),
        }
    }

    /// The info section as a canonical value, its keys in byte order.
    pub fn to_value(&self) -> (v: CanonicalValue)
        requires
            self.encodable(),
        ensures
            v@ == info_value(self@),
            well_formed(v@),
    {
        proof {
            lemma_info_value_well_formed(self@);
        }
        let mut entries: Vec<(Vec<u8>, CanonicalValue)> = Vec::new();
        match &self.content {
            Content::SingleFile { length } => {
                entries.push(
                    (slice_to_vec(length_key().as_slice()), CanonicalValue::Integer(*length as i64)),
                );
            },
            Content::MultiFile { files } => {
                let mut list: Vec<CanonicalValue> = Vec::new();
                let mut i: usize = 0;
                while i < files.len()
                    invariant
                        i <= files.len(),
                        forall|k: int| 0 <= k < files.len() ==> (#[trigger] files[k]).encodable(),
                        items_view(list) == Seq::new(i as nat, |k: int| file_value(files[k]@)),
                    decreases files.len() - i,
                {
                    let ghost before = items_view(list);
                    list.push(files[i].to_value());
                    assert(items_view(list) =~= before.push(file_value(files[i as int]@)));
                    assert(items_view(list) =~= Seq::new(
                        (i + 1) as nat,
                        |k: int| file_value(files[k]@),
                    ));
                    i += 1;
                }
                assert(items_view(list) =~= content_entry(self.content@).1->List_0);
                entries.push((slice_to_vec(files_key().as_slice()), CanonicalValue::List(list)));
            },
        }
        assert(entries_view(entries) =~= seq![content_entry(self.content@)]);
        entries.push(
            (slice_to_vec(name_key().as_slice()), CanonicalValue::ByteString(text_bytes(&self.name))),
        );
        entries.push(
            (
                slice_to_vec(piece_length_key().as_slice()),
                CanonicalValue::Integer(self.piece_length as i64),
            ),
        );
        entries.push(
            (slice_to_vec(pieces_key().as_slice()), CanonicalValue::ByteString(self.pieces.to_bytes())),
        );
        assert(entries_view(entries) =~= info_value(self@)->Dict_0);
        CanonicalValue::Dict(entries)
    }

    /// The content identifier: the digest of the canonical encoding of the
    /// info section alone.
    pub fn content_identifier(&self) -> (id: [u8; 20])
        requires
            self.encodable(),
        ensures
            id@ == identifier_of(self@),
    {
        let value = self.to_value();
        let bytes = encode(&value);
        sha1(bytes.as_slice())
    }
}

impl Torrent {
    /// The total number of bytes of the content.
    pub fn content_length(&self) -> (total: usize)
        requires
            total_length(self@.info.content) <= usize::MAX,
        ensures
            total == total_length(self@.info.content),
    {
        match &self.info.content {
            Content::SingleFile { length } => *length,
            Content::MultiFile { files } => {
                let ghost views = self@.info.content->files;
                let mut total: usize = 0;
                let mut i: usize = 0;
                while i < files.len()
                    invariant
                        i <= files.len(),
                        views == Seq::new(files.len() as nat, |k: int| files[k]@),
                        files_length(views, files.len() as int) <= usize::MAX,
                        total == files_length(views, i as int),
                    decreases files.len() - i,
                {
                    proof {
                        lemma_files_length_grows(views, i + 1, files.len() as int);
                    }
                    total = total + files[i].length;
                    i += 1;
                }
                total
            },
        }
    }

    /// The content identifier of the torrent: that of its info section.
    pub fn content_identifier(&self) -> (id: [u8; 20])
        requires
            self.info.encodable(),
        ensures
            id@ == identifier_of(self@.info),
    {
        self.info.content_identifier()
    }
}

} // verus!
