//! The metainfo document: a tracker and the description of what is shared.

use crate::decode::{decode, index_of_key, parse_value, MAX_DEPTH};
use crate::digest::{sha1_digest, sha1_of};
use crate::encode::{encode, encode_tree};
use crate::error::{Field, MetainfoError};
pub use crate::hashes::Hashes;
use crate::text::{bytes_eq, copy_range};
use crate::value::{entries_view, list_view, Tree, Value};
use vstd::prelude::*;
use vstd::string::StringSliceAdditionalSpecFns;
use vstd::utf8::{decode_utf8, encode_utf8, valid_utf8};

verus! {

/// A metainfo document.
#[derive(Debug, Clone, PartialEq, Eq)]
pub struct Torrent {
    /// URL of the tracker.
    pub announce: String,
    /// What is shared.
    pub info: Info,
}

/// The description of what is shared.
#[derive(Debug, Clone, PartialEq, Eq)]
pub struct Info {
    /// Suggested name of the file or directory.
    pub name: String,
    /// Number of bytes in each piece; more than 0 in a document that was
    /// decoded.
    pub piece_length: usize,
    /// The digest of each piece.
    pub pieces: Hashes,
    /// One file, or several.
    pub keys: Keys,
}

/// Whether one file is shared or several.
#[derive(Debug, Clone, PartialEq, Eq)]
pub enum Keys {
    SingleFile {
        /// Size of the file in bytes.
        length: usize,
    },
    MultiFile { files: Vec<File> },
}

/// One file of several.
#[derive(Debug, Clone, PartialEq, Eq)]
pub struct File {
    /// Size of the file in bytes.
    pub length: usize,
    /// The directories that lead to the file, and its name last.
    pub path: Vec<String>,
}

/// Model of a `File`.
pub struct FileModel {
    pub length: int,
    pub path: Seq<Seq<char>>,
}

/// Model of `Keys`.
pub enum LayoutModel {
    SingleFile { length: int },
    MultiFile { files: Seq<FileModel> },
}

/// Model of `Info`; `pieces` is the byte string that backs the digests.
pub struct InfoModel {
    pub name: Seq<char>,
    pub piece_length: int,
    pub pieces: Seq<u8>,
    pub layout: LayoutModel,
}

/// Model of a `Torrent`.
pub struct TorrentModel {
    pub announce: Seq<char>,
    pub info: InfoModel,
}

/// The texts of path segments, in order.
pub open spec fn path_view(path: Seq<String>) -> Seq<Seq<char>> {
    Seq::new(path.len(), |i: int| path[i]@)
}

/// The models of files, in order.
pub open spec fn files_view(files: Seq<File>) -> Seq<FileModel> {
    Seq::new(files.len(), |i: int| files[i]@)
}

impl View for File {
    type V = FileModel;

    open spec fn view(&self) -> FileModel {
        FileModel { length: self.length as int, path: path_view(self.path@) }
    }
}

impl View for Keys {
    type V = LayoutModel;

    open spec fn view(&self) -> LayoutModel {
        match self {
            Keys::SingleFile { length } => LayoutModel::SingleFile { length: *length as int },
            Keys::MultiFile { files } => LayoutModel::MultiFile { files: files_view(files@) },
        }
    }
}

impl View for Info {
    type V = InfoModel;

    open spec fn view(&self) -> InfoModel {
        InfoModel {
            name: self.name@,
            piece_length: self.piece_length as int,
            pieces: self.pieces@,
            layout: self.keys@,
        }
    }
}

impl View for Torrent {
    type V = TorrentModel;

    open spec fn view(&self) -> TorrentModel {
        TorrentModel { announce: self.announce@, info: self.info@ }
    }
}

/// The bytes of a dictionary key.
pub open spec fn key(name: &str) -> Seq<u8> {
    name.spec_bytes()
}

/// The value that the first entry with this key holds.
pub open spec fn lookup(entries: Seq<(Seq<u8>, Tree)>, name: Seq<u8>) -> Option<Tree> {
    match index_of_key(entries, name) {
        Some(i) => Some(entries[i].1),
        None => None,
    }
}

/// A field that must hold UTF-8 text.
pub open spec fn text_of(found: Option<Tree>, field: Field) -> Result<Seq<char>, MetainfoError> {
    match found {
        None => Err(MetainfoError::MissingField(field)),
        Some(Tree::ByteString(b)) => if valid_utf8(b) {
            Ok(decode_utf8(b))
        } else {
            Err(MetainfoError::InvalidUtf8(field))
        },
        Some(_) => Err(MetainfoError::WrongType(field)),
    }
}

/// A field that must hold a size: an integer from 0 to what a `usize` can
/// hold.
pub open spec fn size_of(found: Option<Tree>, field: Field) -> Result<int, MetainfoError> {
    match found {
        None => Err(MetainfoError::MissingField(field)),
        Some(Tree::Integer(n)) => if 0 <= n <= usize::MAX {
            Ok(n)
        } else {
            Err(MetainfoError::OutOfRange(field))
        },
        Some(_) => Err(MetainfoError::WrongType(field)),
    }
}

/// The piece length: an integer above 0 that a `usize` can hold.
pub open spec fn piece_length_of(found: Option<Tree>) -> Result<int, MetainfoError> {
    match found {
        None => Err(MetainfoError::MissingField(Field::PieceLength)),
        Some(Tree::Integer(n)) => if n <= 0 {
            Err(MetainfoError::InvalidPieceLength)
        } else if n > usize::MAX {
            Err(MetainfoError::OutOfRange(Field::PieceLength))
        } else {
            Ok(n)
        },
        Some(_) => Err(MetainfoError::WrongType(Field::PieceLength)),
    }
}

/// The digests: a byte string whose length is a multiple of 20.
pub open spec fn pieces_of(found: Option<Tree>) -> Result<Seq<u8>, MetainfoError> {
    match found {
        None => Err(MetainfoError::MissingField(Field::Pieces)),
        Some(Tree::ByteString(b)) => if b.len() % 20 == 0 {
            Ok(b)
        } else {
            Err(MetainfoError::InvalidDigestSequenceLength)
        },
        Some(_) => Err(MetainfoError::WrongType(Field::Pieces)),
    }
}

/// Each item read with `read`, in order; the first item that fails decides
/// the error.
pub open spec fn collect<T>(
    items: Seq<Tree>,
    read: spec_fn(Tree) -> Result<T, MetainfoError>,
) -> Result<Seq<T>, MetainfoError>
    decreases items.len(),
{
    if items.len() == 0 {
        Ok(Seq::empty())
    } else {
        match collect(items.drop_last(), read) {
            Err(e) => Err(e),
            Ok(front) => match read(items.last()) {
                Err(e) => Err(e),
                Ok(x) => Ok(front.push(x)),
            },
        }
    }
}

/// One segment of a path.
pub open spec fn segment_of(t: Tree) -> Result<Seq<char>, MetainfoError> {
    text_of(Some(t), Field::Path)
}

/// One entry of `files`: a dictionary with a `length` and a `path`, read in
/// that order.
pub open spec fn file_of(t: Tree) -> Result<FileModel, MetainfoError> {
    match t {
        Tree::Dictionary(entries) => match size_of(lookup(entries, key("length")), Field::Length) {
            Err(e) => Err(e),
            Ok(length) => match lookup(entries, key("path")) {
                None => Err(MetainfoError::MissingField(Field::Path)),
                Some(Tree::List(items)) => match collect(items, |s: Tree| segment_of(s)) {
                    Err(e) => Err(e),
                    Ok(path) => Ok(FileModel { length, path }),
                },
                Some(_) => Err(MetainfoError::WrongType(Field::Path)),
            },
        },
        _ => Err(MetainfoError::WrongType(Field::Files)),
    }
}

/// One file or several: exactly one of `length` and `files` must be there.
pub open spec fn layout_of(entries: Seq<(Seq<u8>, Tree)>) -> Result<LayoutModel, MetainfoError> {
    match (lookup(entries, key("length")), lookup(entries, key("files"))) {
        (Some(_), Some(_)) => Err(MetainfoError::ConflictingFileLayout),
        (None, None) => Err(MetainfoError::ConflictingFileLayout),
        (Some(l), None) => match size_of(Some(l), Field::Length) {
            Err(e) => Err(e),
            Ok(length) => Ok(LayoutModel::SingleFile { length }),
        },
        (None, Some(Tree::List(items))) => match collect(items, |f: Tree| file_of(f)) {
            Err(e) => Err(e),
            Ok(files) => Ok(LayoutModel::MultiFile { files }),
        },
        (None, Some(_)) => Err(MetainfoError::WrongType(Field::Files)),
    }
}

/// The info dictionary: `name`, `piece length`, `pieces` and the layout,
/// read in that order; the first that fails decides the error. Other keys
/// are passed over.
pub open spec fn info_of(t: Tree) -> Result<InfoModel, MetainfoError> {
    match t {
        Tree::Dictionary(entries) => match text_of(lookup(entries, key("name")), Field::Name) {
            Err(e) => Err(e),
            Ok(name) => match piece_length_of(lookup(entries, key("piece length"))) {
                Err(e) => Err(e),
                Ok(piece_length) => match pieces_of(lookup(entries, key("pieces"))) {
                    Err(e) => Err(e),
                    Ok(pieces) => match layout_of(entries) {
                        Err(e) => Err(e),
                        Ok(layout) => Ok(InfoModel { name, piece_length, pieces, layout }),
                    },
                },
            },
        },
        _ => Err(MetainfoError::WrongType(Field::Info)),
    }
}

/// The document: a dictionary with `announce` and `info`, read in that
/// order. Other keys are passed over.
pub open spec fn torrent_of(t: Tree) -> Result<TorrentModel, MetainfoError> {
    match t {
        Tree::Dictionary(entries) => match text_of(lookup(entries, key("announce")), Field::Announce) {
            Err(e) => Err(e),
            Ok(announce) => match lookup(entries, key("info")) {
                None => Err(MetainfoError::MissingField(Field::Info)),
                Some(i) => match info_of(i) {
                    Err(e) => Err(e),
                    Ok(info) => Ok(TorrentModel { announce, info }),
                },
            },
        },
        _ => Err(MetainfoError::WrongType(Field::Root)),
    }
}

/// Whether `r` is the outcome `m` that the rules above give.
pub open spec fn yields<T: View>(r: Result<T, MetainfoError>, m: Result<T::V, MetainfoError>) -> bool {
    match m {
        Ok(x) => r matches Ok(y) && y@ == x,
        Err(e) => r matches Err(f) && f == e,
    }
}

/// The model of what was found, if anything.
pub open spec fn found_view(found: Option<&Value>) -> Option<Tree> {
    match found {
        Some(v) => Some(v@),
        None => None,
    }
}

/// An error among the first `k` items is the error of all.
proof fn lemma_collect_prefix<T>(
    items: Seq<Tree>,
    read: spec_fn(Tree) -> Result<T, MetainfoError>,
    k: int,
)
    requires
        0 <= k <= items.len(),
        collect(items.take(k), read) is Err,
    ensures
        collect(items, read) == collect(items.take(k), read),
    decreases items.len() - k,
{
    if k == items.len() {
        assert(items.take(k) =~= items);
    } else {
        assert(items.take(k + 1).drop_last() =~= items.take(k));
        lemma_collect_prefix(items, read, k + 1);
    }
}

/// The first `k + 1` items are the first `k` and item `k`.
proof fn lemma_collect_step<T>(
    items: Seq<Tree>,
    read: spec_fn(Tree) -> Result<T, MetainfoError>,
    k: int,
)
    requires
        0 <= k < items.len(),
    ensures
        collect(items.take(k + 1), read) == match collect(items.take(k), read) {
            Err(e) => Err(e),
            Ok(front) => match read(items[k]) {
                Err(e) => Err(e),
                Ok(x) => Ok(front.push(x)),
            },
        },
{
    assert(items.take(k + 1).drop_last() =~= items.take(k));
    assert(items.take(k + 1).last() == items[k]);
}

/// Calls `String::from_utf8`, which gives the text where the bytes are
/// valid UTF-8 and an error where they are not. Validity and the text are
/// stated with the definitions of `vstd::utf8`.
#[verifier::external_body]
fn string_from_utf8(bytes: Vec<u8>) -> (r: Option<String>)
    ensures
        r is Some <==> valid_utf8(bytes@),
        r matches Some(s) ==> s@ == decode_utf8(bytes@),
{
    String::from_utf8(bytes).ok()
}

/// The value under `name` in the first entry that holds this key.
fn find_value<'a>(entries: &'a Vec<(Vec<u8>, Value)>, name: &[u8]) -> (r: Option<&'a Value>)
    ensures
        found_view(r) == lookup(entries_view(entries@), name@),
{
    let ghost model = entries_view(entries@);
    let mut i: usize = 0;
    while i < entries.len()
        invariant
            i <= entries.len(),
            model == entries_view(entries@),
            forall|j: int| 0 <= j < i ==> model[j].0 != name@,
        decreases entries.len() - i,
    {
        if bytes_eq(entries[i].0.as_slice(), name) {
            proof {
                crate::decode::lemma_index_of_key_first(model, name@, i as int);
            }
            return Some(&entries[i].1);
        }
        i += 1;
    }
    proof {
        crate::decode::lemma_index_of_key_none(model, name@);
    }
    None
}

/// Reads a field that must hold UTF-8 text.
fn read_text(found: Option<&Value>, field: Field) -> (r: Result<String, MetainfoError>)
    ensures
        yields(r, text_of(found_view(found), field)),
{
    match found {
        None => Err(MetainfoError::MissingField(field)),
        Some(Value::ByteString(b)) => {
            let bytes = copy_range(b.as_slice(), 0, b.len());
            assert(bytes@ =~= b@);
            match string_from_utf8(bytes) {
                Some(s) => Ok(s),
                None => Err(MetainfoError::InvalidUtf8(field)),
            }
        },
        Some(_) => Err(MetainfoError::WrongType(field)),
    }
}

/// Reads a field that must hold a size.
fn read_size(found: Option<&Value>, field: Field) -> (r: Result<usize, MetainfoError>)
    ensures
        match size_of(found_view(found), field) {
            Ok(n) => r matches Ok(x) && x == n,
            Err(e) => r matches Err(f) && f == e,
        },
{
    match found {
        None => Err(MetainfoError::MissingField(field)),
        Some(Value::Integer(n)) => {
            if *n < 0 || (*n as u64) > (usize::MAX as u64) {
                Err(MetainfoError::OutOfRange(field))
            } else {
                Ok(*n as usize)
            }
        },
        Some(_) => Err(MetainfoError::WrongType(field)),
    }
}

/// Reads the piece length.
fn read_piece_length(found: Option<&Value>) -> (r: Result<usize, MetainfoError>)
    ensures
        match piece_length_of(found_view(found)) {
            Ok(n) => r matches Ok(x) && x == n,
            Err(e) => r matches Err(f) && f == e,
        },
{
    match found {
        None => Err(MetainfoError::MissingField(Field::PieceLength)),
        Some(Value::Integer(n)) => {
            if *n <= 0 {
                Err(MetainfoError::InvalidPieceLength)
            } else if (*n as u64) > (usize::MAX as u64) {
                Err(MetainfoError::OutOfRange(Field::PieceLength))
            } else {
                Ok(*n as usize)
            }
        },
        Some(_) => Err(MetainfoError::WrongType(Field::PieceLength)),
    }
}

/// Reads the digests.
fn read_pieces(found: Option<&Value>) -> (r: Result<Hashes, MetainfoError>)
    ensures
        yields(r, pieces_of(found_view(found))),
{
    match found {
        None => Err(MetainfoError::MissingField(Field::Pieces)),
        Some(Value::ByteString(b)) => Hashes::from_bytes(b.as_slice()),
        Some(_) => Err(MetainfoError::WrongType(Field::Pieces)),
    }
}

/// Reads the segments of a path.
fn read_path(items: &Vec<Value>) -> (r: Result<Vec<String>, MetainfoError>)
    ensures
        match collect(list_view(items@), |s: Tree| segment_of(s)) {
            Ok(p) => r matches Ok(x) && path_view(x@) == p,
            Err(e) => r matches Err(f) && f == e,
        },
{
    let ghost trees = list_view(items@);
    let ghost read = |s: Tree| segment_of(s);
    let mut path: Vec<String> = Vec::new();
    let mut i: usize = 0;
    assert(trees.take(0) =~= Seq::<Tree>::empty());
    assert(path_view(path@) =~= Seq::<Seq<char>>::empty());
    while i < items.len()
        invariant
            i <= items.len(),
            trees == list_view(items@),
            read == (|s: Tree| segment_of(s)),
            collect(trees.take(i as int), read) == Ok::<_, MetainfoError>(path_view(path@)),
        decreases items.len() - i,
    {
        proof {
            lemma_collect_step(trees, read, i as int);
        }
        match read_text(Some(&items[i]), Field::Path) {
            Err(e) => {
                proof {
                    lemma_collect_prefix(trees, read, i + 1);
                }
                return Err(e);
            },
            Ok(segment) => {
                assert(path_view(path@.push(segment)) =~= path_view(path@).push(segment@));
                path.push(segment);
            },
        }
        i += 1;
    }
    assert(trees.take(items.len() as int) =~= trees);
    Ok(path)
}

impl File {
    /// Reads one entry of `files`.
    pub fn from_value(v: &Value) -> (r: Result<File, MetainfoError>)
        ensures
            yields(r, file_of(v@)),
    {
        match v {
            Value::Dictionary(entries) => {
                let length = match read_size(find_value(entries, "length".as_bytes()), Field::Length) {
                    Ok(n) => n,
                    Err(e) => {
                        return Err(e);
                    },
                };
                match find_value(entries, "path".as_bytes()) {
                    None => Err(MetainfoError::MissingField(Field::Path)),
                    Some(Value::List(items)) => match read_path(items) {
                        Ok(path) => Ok(File { length, path }),
                        Err(e) => Err(e),
                    },
                    Some(_) => Err(MetainfoError::WrongType(Field::Path)),
                }
            },
            _ => Err(MetainfoError::WrongType(Field::Files)),
        }
    }
}

/// Reads the entries of `files`.
fn read_files(items: &Vec<Value>) -> (r: Result<Vec<File>, MetainfoError>)
    ensures
        match collect(list_view(items@), |f: Tree| file_of(f)) {
            Ok(p) => r matches Ok(x) && files_view(x@) == p,
            Err(e) => r matches Err(f) && f == e,
        },
{
    let ghost trees = list_view(items@);
    let ghost read = |f: Tree| file_of(f);
    let mut files: Vec<File> = Vec::new();
    let mut i: usize = 0;
    assert(trees.take(0) =~= Seq::<Tree>::empty());
    assert(files_view(files@) =~= Seq::<FileModel>::empty());
    while i < items.len()
        invariant
            i <= items.len(),
            trees == list_view(items@),
            read == (|f: Tree| file_of(f)),
            collect(trees.take(i as int), read) == Ok::<_, MetainfoError>(files_view(files@)),
        decreases items.len() - i,
    {
        proof {
            lemma_collect_step(trees, read, i as int);
        }
        match File::from_value(&items[i]) {
            Err(e) => {
                proof {
                    lemma_collect_prefix(trees, read, i + 1);
                }
                return Err(e);
            },
            Ok(file) => {
                assert(files_view(files@.push(file)) =~= files_view(files@).push(file@));
                files.push(file);
            },
        }
        i += 1;
    }
    assert(trees.take(items.len() as int) =~= trees);
    Ok(files)
}

/// Reads the layout from the entries of an info dictionary.
fn read_layout(entries: &Vec<(Vec<u8>, Value)>) -> (r: Result<Keys, MetainfoError>)
    ensures
        yields(r, layout_of(entries_view(entries@))),
{
    let length = find_value(entries, "length".as_bytes());
    let files = find_value(entries, "files".as_bytes());
    match (length, files) {
        (Some(_), Some(_)) => Err(MetainfoError::ConflictingFileLayout),
        (None, None) => Err(MetainfoError::ConflictingFileLayout),
        (Some(l), None) => match read_size(Some(l), Field::Length) {
            Ok(n) => Ok(Keys::SingleFile { length: n }),
            Err(e) => Err(e),
        },
        (None, Some(Value::List(items))) => match read_files(items) {
            Ok(list) => Ok(Keys::MultiFile { files: list }),
            Err(e) => Err(e),
        },
        (None, Some(_)) => Err(MetainfoError::WrongType(Field::Files)),
    }
}

impl Info {
    /// Reads an info dictionary.
    pub fn from_value(v: &Value) -> (r: Result<Info, MetainfoError>)
        ensures
            yields(r, info_of(v@)),
    {
        match v {
            Value::Dictionary(entries) => {
                let name = match read_text(find_value(entries, "name".as_bytes()), Field::Name) {
                    Ok(s) => s,
                    Err(e) => {
                        return Err(e);
                    },
                };
                let piece_length = match read_piece_length(
                    find_value(entries, "piece length".as_bytes()),
                ) {
                    Ok(n) => n,
                    Err(e) => {
                        return Err(e);
                    },
                };
                let pieces = match read_pieces(find_value(entries, "pieces".as_bytes())) {
                    Ok(h) => h,
                    Err(e) => {
                        return Err(e);
                    },
                };
                match read_layout(entries) {
                    Ok(keys) => Ok(Info { name, piece_length, pieces, keys }),
                    Err(e) => Err(e),
                }
            },
            _ => Err(MetainfoError::WrongType(Field::Info)),
        }
    }
}

impl Torrent {
    /// Reads a metainfo document from its value.
    pub fn from_value(v: &Value) -> (r: Result<Torrent, MetainfoError>)
        ensures
            yields(r, torrent_of(v@)),
    {
        match v {
            Value::Dictionary(entries) => {
                let announce = match read_text(
                    find_value(entries, "announce".as_bytes()),
                    Field::Announce,
                ) {
                    Ok(s) => s,
                    Err(e) => {
                        return Err(e);
                    },
                };
                match find_value(entries, "info".as_bytes()) {
                    None => Err(MetainfoError::MissingField(Field::Info)),
                    Some(i) => match Info::from_value(i) {
                        Ok(info) => Ok(Torrent { announce, info }),
                        Err(e) => Err(e),
                    },
                }
            },
            _ => Err(MetainfoError::WrongType(Field::Root)),
        }
    }

    /// Reads a metainfo document from its encoding. Bytes behind the
    /// document are passed over.
    pub fn from_bytes(input: &[u8]) -> (r: Result<Torrent, MetainfoError>)
        ensures
            match parse_value(input@, 0, MAX_DEPTH as nat) {
                Ok((t, end)) => yields(r, torrent_of(t)),
                Err((kind, offset)) => r matches Err(MetainfoError::Decode(e)) && e.kind == kind
                    && e.offset == offset,
            },
    {
        match decode(input) {
            Ok((v, _)) => Torrent::from_value(&v),
            Err(e) => Err(MetainfoError::Decode(e)),
        }
    }
}

/// Text as a byte string: its UTF-8 bytes.
pub open spec fn text_tree(s: Seq<char>) -> Tree {
    Tree::ByteString(encode_utf8(s))
}

/// A path as a list of its segments.
pub open spec fn path_tree(path: Seq<Seq<char>>) -> Tree {
    Tree::List(Seq::new(path.len(), |i: int| text_tree(path[i])))
}

/// A file as a dictionary of `length` and `path`.
pub open spec fn file_tree(f: FileModel) -> Tree {
    Tree::Dictionary(seq![(key("length"), Tree::Integer(f.length)), (key("path"), path_tree(f.path))])
}

/// The entry that tells the layout: `length`, or `files`.
pub open spec fn layout_entry(l: LayoutModel) -> (Seq<u8>, Tree) {
    match l {
        LayoutModel::SingleFile { length } => (key("length"), Tree::Integer(length)),
        LayoutModel::MultiFile { files } => (
            key("files"),
            Tree::List(Seq::new(files.len(), |i: int| file_tree(files[i]))),
        ),
    }
}

/// The info dictionary: the layout, `name`, `piece length` and `pieces`.
pub open spec fn info_tree(m: InfoModel) -> Tree {
    Tree::Dictionary(
        seq![
            layout_entry(m.layout),
            (key("name"), text_tree(m.name)),
            (key("piece length"), Tree::Integer(m.piece_length)),
            (key("pieces"), Tree::ByteString(m.pieces)),
        ],
    )
}

/// The document as a dictionary of `announce` and `info`.
pub open spec fn torrent_tree(m: TorrentModel) -> Tree {
    Tree::Dictionary(seq![(key("announce"), text_tree(m.announce)), (key("info"), info_tree(m.info))])
}

/// The bytes of a key.
fn key_bytes(name: &str) -> (k: Vec<u8>)
    ensures
        k@ == key(name),
{
    let b = name.as_bytes();
    let k = copy_range(b, 0, b.len());
    assert(k@ =~= b@);
    k
}

/// Text as a byte string.
fn text_value(s: &String) -> (v: Value)
    ensures
        v@ == text_tree(s@),
{
    let b = s.as_str().as_bytes();
    let bytes = copy_range(b, 0, b.len());
    assert(bytes@ =~= b@);
    Value::ByteString(bytes)
}

impl File {
    /// The length can be written as a 64-bit integer.
    pub open spec fn encodable(&self) -> bool {
        self.length <= i64::MAX
    }

    /// Whether the length can be written as a 64-bit integer.
    pub fn is_encodable(&self) -> (r: bool)
        ensures
            r == self.encodable(),
    {
        self.length as u64 <= 0x7fff_ffff_ffff_ffff
    }

    /// The file as a dictionary.
    pub fn to_value(&self) -> (v: Value)
        requires
            self.encodable(),
        ensures
            v@ == file_tree(self@),
    {
        let mut segments: Vec<Value> = Vec::new();
        let mut i: usize = 0;
        while i < self.path.len()
            invariant
                i <= self.path@.len(),
                segments@.len() == i,
                forall|j: int| 0 <= j < i ==> (#[trigger] segments@[j])@ == text_tree(self.path@[j]@),
            decreases self.path@.len() - i,
        {
            let segment = text_value(&self.path[i]);
            segments.push(segment);
            i += 1;
        }
        assert(list_view(segments@) =~= Seq::new(
            self@.path.len(),
            |j: int| text_tree(self@.path[j]),
        ));
        let mut entries: Vec<(Vec<u8>, Value)> = Vec::new();
        entries.push((key_bytes("length"), Value::Integer(self.length as i64)));
        entries.push((key_bytes("path"), Value::List(segments)));
        assert(entries_view(entries@) =~= seq![
            (key("length"), Tree::Integer(self@.length)),
            (key("path"), path_tree(self@.path)),
        ]);
        Value::Dictionary(entries)
    }
}

/// Whether the length of every file can be written as a 64-bit integer.
fn all_encodable(files: &Vec<File>) -> (r: bool)
    ensures
        r == forall|i: int| 0 <= i < files@.len() ==> (#[trigger] files@[i]).encodable(),
{
    let mut i: usize = 0;
    while i < files.len()
        invariant
            i <= files@.len(),
            forall|j: int| 0 <= j < i ==> (#[trigger] files@[j]).encodable(),
        decreases files@.len() - i,
    {
        if !files[i].is_encodable() {
            assert(!files@[i as int].encodable());
            return false;
        }
        i += 1;
    }
    true
}

impl Keys {
    /// Every length can be written as a 64-bit integer.
    pub open spec fn encodable(&self) -> bool {
        match self {
            Keys::SingleFile { length } => *length <= i64::MAX,
            Keys::MultiFile { files } => forall|i: int|
                0 <= i < files@.len() ==> (#[trigger] files@[i]).encodable(),
        }
    }

    /// Whether every length can be written as a 64-bit integer.
    pub fn is_encodable(&self) -> (r: bool)
        ensures
            r == self.encodable(),
    {
        match self {
            Keys::SingleFile { length } => *length as u64 <= 0x7fff_ffff_ffff_ffff,
            Keys::MultiFile { files } => all_encodable(files),
        }
    }

    /// The dictionary entry that tells the layout.
    pub fn to_entry(&self) -> (e: (Vec<u8>, Value))
        requires
            self.encodable(),
        ensures
            (e.0@, e.1@) == layout_entry(self@),
    {
        match self {
            Keys::SingleFile { length } => (key_bytes("length"), Value::Integer(*length as i64)),
            Keys::MultiFile { files } => {
                let mut items: Vec<Value> = Vec::new();
                let mut i: usize = 0;
                while i < files.len()
                    invariant
                        i <= files@.len(),
                        forall|j: int| 0 <= j < files@.len() ==> (#[trigger] files@[j]).encodable(),
                        items@.len() == i,
                        forall|j: int| 0 <= j < i ==> (#[trigger] items@[j])@ == file_tree(files@[j]@),
                    decreases files@.len() - i,
                {
                    let item = files[i].to_value();
                    items.push(item);
                    i += 1;
                }
                assert(list_view(items@) =~= Seq::new(
                    files_view(files@).len(),
                    |j: int| file_tree(files_view(files@)[j]),
                ));
                (key_bytes("files"), Value::List(items))
            },
        }
    }
}

impl Info {
    /// The piece length and every file length can be written as a 64-bit
    /// integer.
    pub open spec fn encodable(&self) -> bool {
        self.piece_length <= i64::MAX && self.keys.encodable()
    }

    /// Whether the piece length and every file length can be written as a
    /// 64-bit integer.
    pub fn is_encodable(&self) -> (r: bool)
        ensures
            r == self.encodable(),
    {
        self.piece_length as u64 <= 0x7fff_ffff_ffff_ffff && self.keys.is_encodable()
    }

    /// The info dictionary.
    pub fn to_value(&self) -> (v: Value)
        requires
            self.encodable(),
        ensures
            v@ == info_tree(self@),
    {
        let mut entries: Vec<(Vec<u8>, Value)> = Vec::new();
        entries.push(self.keys.to_entry());
        entries.push((key_bytes("name"), text_value(&self.name)));
        entries.push((key_bytes("piece length"), Value::Integer(self.piece_length as i64)));
        entries.push((key_bytes("pieces"), Value::ByteString(self.pieces.to_bytes())));
        assert(entries_view(entries@) =~= seq![
            layout_entry(self@.layout),
            (key("name"), text_tree(self@.name)),
            (key("piece length"), Tree::Integer(self@.piece_length)),
            (key("pieces"), Tree::ByteString(self@.pieces)),
        ]);
        Value::Dictionary(entries)
    }
}

impl Torrent {
    /// The document as a value.
    pub fn to_value(&self) -> (v: Value)
        requires
            self.info.encodable(),
        ensures
            v@ == torrent_tree(self@),
    {
        let mut entries: Vec<(Vec<u8>, Value)> = Vec::new();
        entries.push((key_bytes("announce"), text_value(&self.announce)));
        entries.push((key_bytes("info"), self.info.to_value()));
        assert(entries_view(entries@) =~= seq![
            (key("announce"), text_tree(self@.announce)),
            (key("info"), info_tree(self@.info)),
        ]);
        Value::Dictionary(entries)
    }

    /// The canonical encoding of the document.
    pub fn to_bytes(&self) -> (out: Vec<u8>)
        requires
            self.info.encodable(),
        ensures
            out@ == encode_tree(torrent_tree(self@)),
    {
        encode(&self.to_value())
    }

    /// The fingerprint of what is shared: the SHA-1 digest of the canonical
    /// encoding of the info dictionary.
    pub fn info_hash(&self) -> (out: [u8; 20])
        requires
            self.info.encodable(),
        ensures
            out@ == sha1_digest(encode_tree(info_tree(self.info@))),
    {
        let encoded = encode(&self.info.to_value());
        sha1_of(encoded.as_slice())
    }
}

} // verus!
