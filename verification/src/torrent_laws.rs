//! What holds between a metainfo document and its encoding.

use crate::decode::{
    lemma_index_of_key_first, lemma_index_of_key_none, parse_value, parsed, MAX_DEPTH,
};
use crate::encode::encode_tree;
use crate::error::{Field, MetainfoError};
use crate::hashes::lemma_join_len;
use crate::laws::lemma_parse_encoded;
use crate::text::lemma_lex_decided_at;
use crate::torrent::{
    collect, file_of, file_tree, info_of, info_tree, key, layout_entry, layout_of, lookup, path_tree,
    segment_of, text_of, text_tree, torrent_of, torrent_tree, FileModel, InfoModel, Keys,
    LayoutModel, Torrent, TorrentModel,
};
use crate::value::{ascending, entry_keys, fits_depth, ints_fit, sorted_keys, Tree};
use vstd::prelude::*;
use vstd::string::{is_ascii, is_ascii_spec_bytes};
use vstd::utf8::{encode_utf8_decode_utf8, encode_utf8_valid_utf8};

verus! {

/// A length that can be read back: from 0 to what both a `usize` and a
/// 64-bit integer can hold.
pub open spec fn valid_size(n: int) -> bool {
    0 <= n <= usize::MAX && n <= i64::MAX
}

/// An info dictionary that can be read back: a piece length above 0, whole
/// digests, and sizes within range.
pub open spec fn valid_info(m: InfoModel) -> bool {
    &&& 0 < m.piece_length
    &&& valid_size(m.piece_length)
    &&& m.pieces.len() % 20 == 0
    &&& match m.layout {
        LayoutModel::SingleFile { length } => valid_size(length),
        LayoutModel::MultiFile { files } => forall|i: int|
            0 <= i < files.len() ==> valid_size((#[trigger] files[i]).length),
    }
}

/// The bytes of the keys.
pub proof fn lemma_key_bytes()
    ensures
        key("announce") == seq![0x61u8, 0x6e, 0x6e, 0x6f, 0x75, 0x6e, 0x63, 0x65],
        key("info") == seq![0x69u8, 0x6e, 0x66, 0x6f],
        key("name") == seq![0x6eu8, 0x61, 0x6d, 0x65],
        key("piece length") == seq![
            0x70u8,
            0x69,
            0x65,
            0x63,
            0x65,
            0x20,
            0x6c,
            0x65,
            0x6e,
            0x67,
            0x74,
            0x68,
        ],
        key("pieces") == seq![0x70u8, 0x69, 0x65, 0x63, 0x65, 0x73],
        key("length") == seq![0x6cu8, 0x65, 0x6e, 0x67, 0x74, 0x68],
        key("files") == seq![0x66u8, 0x69, 0x6c, 0x65, 0x73],
        key("path") == seq![0x70u8, 0x61, 0x74, 0x68],
{
    reveal_strlit("announce");
    reveal_strlit("info");
    reveal_strlit("name");
    reveal_strlit("piece length");
    reveal_strlit("pieces");
    reveal_strlit("length");
    reveal_strlit("files");
    reveal_strlit("path");
    is_ascii_spec_bytes("announce");
    is_ascii_spec_bytes("info");
    is_ascii_spec_bytes("name");
    is_ascii_spec_bytes("piece length");
    is_ascii_spec_bytes("pieces");
    is_ascii_spec_bytes("length");
    is_ascii_spec_bytes("files");
    is_ascii_spec_bytes("path");
    assert(is_ascii("announce"));
    assert(is_ascii("info"));
    assert(is_ascii("name"));
    assert(is_ascii("piece length"));
    assert(is_ascii("pieces"));
    assert(is_ascii("length"));
    assert(is_ascii("files"));
    assert(is_ascii("path"));
    assert(key("announce") =~= seq![0x61u8, 0x6e, 0x6e, 0x6f, 0x75, 0x6e, 0x63, 0x65]);
    assert(key("info") =~= seq![0x69u8, 0x6e, 0x66, 0x6f]);
    assert(key("name") =~= seq![0x6eu8, 0x61, 0x6d, 0x65]);
    assert(key("piece length") =~= seq![
        0x70u8,
        0x69,
        0x65,
        0x63,
        0x65,
        0x20,
        0x6c,
        0x65,
        0x6e,
        0x67,
        0x74,
        0x68,
    ]);
    assert(key("pieces") =~= seq![0x70u8, 0x69, 0x65, 0x63, 0x65, 0x73]);
    assert(key("length") =~= seq![0x6cu8, 0x65, 0x6e, 0x67, 0x74, 0x68]);
    assert(key("files") =~= seq![0x66u8, 0x69, 0x6c, 0x65, 0x73]);
    assert(key("path") =~= seq![0x70u8, 0x61, 0x74, 0x68]);
}

/// Where no key stands twice, each key leads to the value beside it.
pub proof fn lemma_lookup_at(entries: Seq<(Seq<u8>, Tree)>, i: int)
    requires
        0 <= i < entries.len(),
        forall|j: int| 0 <= j < i ==> entries[j].0 != entries[i].0,
    ensures
        lookup(entries, entries[i].0) == Some(entries[i].1),
{
    lemma_index_of_key_first(entries, entries[i].0, i);
}

/// Text that was written as a byte string is read back as the same text.
pub proof fn lemma_text_read_back(s: Seq<char>, field: Field)
    ensures
        text_of(Some(text_tree(s)), field) == Ok::<Seq<char>, MetainfoError>(s),
{
    encode_utf8_valid_utf8(s);
    encode_utf8_decode_utf8(s);
}

/// Where each item reads as the element at its place, the items read as the
/// whole.
pub proof fn lemma_collect_all<T>(
    items: Seq<Tree>,
    read: spec_fn(Tree) -> Result<T, MetainfoError>,
    out: Seq<T>,
)
    requires
        items.len() == out.len(),
        forall|i: int| 0 <= i < items.len() ==> read(#[trigger] items[i]) == Ok::<T, MetainfoError>(out[i]),
    ensures
        collect(items, read) == Ok::<Seq<T>, MetainfoError>(out),
    decreases items.len(),
{
    if items.len() == 0 {
        assert(out =~= Seq::<T>::empty());
    } else {
        let front = items.drop_last();
        assert forall|i: int| 0 <= i < front.len() implies read(#[trigger] front[i]) == Ok::<
            T,
            MetainfoError,
        >(out.drop_last()[i]) by {
            assert(front[i] == items[i]);
        }
        lemma_collect_all(front, read, out.drop_last());
        assert(read(items[items.len() - 1]) == Ok::<T, MetainfoError>(out[items.len() - 1]));
        assert(out.drop_last().push(out.last()) =~= out);
    }
}

/// A file that was written as a dictionary is read back as the same file.
pub proof fn lemma_file_read_back(f: FileModel)
    requires
        valid_size(f.length),
    ensures
        file_of(file_tree(f)) == Ok::<FileModel, MetainfoError>(f),
{
    lemma_key_bytes();
    let entries = seq![(key("length"), Tree::Integer(f.length)), (key("path"), path_tree(f.path))];
    assert(key("length").len() != key("path").len());
    lemma_lookup_at(entries, 0);
    lemma_lookup_at(entries, 1);
    let items = Seq::new(f.path.len(), |i: int| text_tree(f.path[i]));
    assert forall|i: int| 0 <= i < items.len() implies (|s: Tree| segment_of(s))(#[trigger] items[i])
        == Ok::<Seq<char>, MetainfoError>(f.path[i]) by {
        lemma_text_read_back(f.path[i], Field::Path);
    }
    lemma_collect_all(items, |s: Tree| segment_of(s), f.path);
}

/// A layout that was written as a dictionary entry is read back as the same
/// layout, whatever other entries of an info dictionary stand behind it.
proof fn lemma_layout_read_back(m: InfoModel)
    requires
        valid_info(m),
    ensures
        info_tree(m) matches Tree::Dictionary(entries) && layout_of(entries) == Ok::<
            LayoutModel,
            MetainfoError,
        >(m.layout),
{
    lemma_key_bytes();
    let entries = info_tree(m)->Dictionary_0;
    assert(entries.len() == 4);
    assert(entries[1].0 == key("name"));
    assert(entries[2].0 == key("piece length"));
    assert(entries[3].0 == key("pieces"));
    assert(key("pieces")[0] != key("length")[0]);
    assert(key("name").len() != key("length").len());
    assert(key("name").len() != key("files").len());
    match m.layout {
        LayoutModel::SingleFile { length } => {
            assert(entries[0].0 == key("length"));
            lemma_lookup_at(entries, 0);
            assert forall|j: int| 0 <= j < entries.len() implies entries[j].0 != key("files") by {}
            lemma_index_of_key_none(entries, key("files"));
        },
        LayoutModel::MultiFile { files } => {
            assert(entries[0].0 == key("files"));
            lemma_lookup_at(entries, 0);
            assert forall|j: int| 0 <= j < entries.len() implies entries[j].0 != key("length") by {}
            lemma_index_of_key_none(entries, key("length"));
            let items = Seq::new(files.len(), |i: int| file_tree(files[i]));
            assert forall|i: int| 0 <= i < items.len() implies (|f: Tree| file_of(f))(
                #[trigger] items[i],
            ) == Ok::<FileModel, MetainfoError>(files[i]) by {
                lemma_file_read_back(files[i]);
            }
            lemma_collect_all(items, |f: Tree| file_of(f), files);
        },
    }
}

/// An info dictionary that was written from its fields is read back as the
/// same fields.
pub proof fn lemma_info_read_back(m: InfoModel)
    requires
        valid_info(m),
    ensures
        info_of(info_tree(m)) == Ok::<InfoModel, MetainfoError>(m),
{
    lemma_key_bytes();
    lemma_layout_read_back(m);
    let entries = info_tree(m)->Dictionary_0;
    assert(entries[0].0 == key("length") || entries[0].0 == key("files"));
    assert(entries[1].0 == key("name"));
    assert(entries[2].0 == key("piece length"));
    assert(entries[3].0 == key("pieces"));
    assert(key("pieces")[0] != key("length")[0]);
    assert(key("pieces")[5] != key("piece length")[5]);
    assert(key("name")[0] != key("pieces")[0]);
    lemma_lookup_at(entries, 1);
    lemma_lookup_at(entries, 2);
    lemma_lookup_at(entries, 3);
    lemma_text_read_back(m.name, Field::Name);
}

/// A document that was written from its fields is read back as the same
/// fields.
pub proof fn law_document_read_back(m: TorrentModel)
    requires
        valid_info(m.info),
    ensures
        torrent_of(torrent_tree(m)) == Ok::<TorrentModel, MetainfoError>(m),
{
    lemma_key_bytes();
    let entries = torrent_tree(m)->Dictionary_0;
    assert(entries[0].0 == key("announce"));
    assert(entries[1].0 == key("info"));
    assert(key("announce").len() != key("info").len());
    lemma_lookup_at(entries, 0);
    lemma_lookup_at(entries, 1);
    lemma_text_read_back(m.announce, Field::Announce);
    lemma_info_read_back(m.info);
}

/// The dictionary of a file is in canonical form.
proof fn lemma_file_tree_canonical(f: FileModel, depth: nat)
    requires
        valid_size(f.length),
        depth >= 2,
    ensures
        sorted_keys(file_tree(f)),
        ints_fit(file_tree(f)),
        fits_depth(file_tree(f), depth),
{
    lemma_key_bytes();
    let entries = file_tree(f)->Dictionary_0;
    let path = path_tree(f.path);
    let items = path->List_0;
    assert forall|i: int| 0 <= i < items.len() implies sorted_keys(#[trigger] items[i]) && ints_fit(
        items[i],
    ) && fits_depth(items[i], (depth - 2) as nat) by {}
    assert(sorted_keys(path) && ints_fit(path) && fits_depth(path, (depth - 1) as nat));
    lemma_lex_decided_at(key("length"), key("path"), 0);
    assert(ascending(entry_keys(entries)));
    assert forall|i: int| 0 <= i < entries.len() implies sorted_keys((#[trigger] entries[i]).1)
        && ints_fit(entries[i].1) && fits_depth(entries[i].1, (depth - 1) as nat) by {
        if i == 0 {
            assert(entries[i].1 == Tree::Integer(f.length));
        } else {
            assert(entries[i].1 == path);
        }
    }
}

/// The info dictionary is in canonical form.
proof fn lemma_info_tree_canonical(m: InfoModel, depth: nat)
    requires
        valid_info(m),
        depth >= 4,
    ensures
        sorted_keys(info_tree(m)),
        ints_fit(info_tree(m)),
        fits_depth(info_tree(m), depth),
{
    lemma_key_bytes();
    let entries = info_tree(m)->Dictionary_0;
    let first = layout_entry(m.layout);
    assert(entries[0] == first);
    assert(entries[1] == (key("name"), text_tree(m.name)));
    assert(entries[2] == (key("piece length"), Tree::Integer(m.piece_length)));
    assert(entries[3] == (key("pieces"), Tree::ByteString(m.pieces)));
    match m.layout {
        LayoutModel::SingleFile { length } => {
            assert(first.1 == Tree::Integer(length));
        },
        LayoutModel::MultiFile { files } => {
            let items = first.1->List_0;
            assert forall|i: int| 0 <= i < items.len() implies sorted_keys(#[trigger] items[i])
                && ints_fit(items[i]) && fits_depth(items[i], (depth - 2) as nat) by {
                lemma_file_tree_canonical(files[i], (depth - 2) as nat);
            }
        },
    }
    assert(sorted_keys(first.1) && ints_fit(first.1) && fits_depth(first.1, (depth - 1) as nat));
    lemma_lex_decided_at(first.0, key("name"), 0);
    lemma_lex_decided_at(first.0, key("piece length"), 0);
    lemma_lex_decided_at(first.0, key("pieces"), 0);
    lemma_lex_decided_at(key("name"), key("piece length"), 0);
    lemma_lex_decided_at(key("name"), key("pieces"), 0);
    lemma_lex_decided_at(key("piece length"), key("pieces"), 5);
    let keys = entry_keys(entries);
    assert(keys[0] == first.0 && keys[1] == key("name") && keys[2] == key("piece length") && keys[3]
        == key("pieces"));
    assert(ascending(keys));
    assert forall|i: int| 0 <= i < entries.len() implies sorted_keys((#[trigger] entries[i]).1)
        && ints_fit(entries[i].1) && fits_depth(entries[i].1, (depth - 1) as nat) by {}
}

/// The dictionary of a document is in canonical form.
pub proof fn lemma_torrent_tree_canonical(m: TorrentModel)
    requires
        valid_info(m.info),
    ensures
        sorted_keys(torrent_tree(m)),
        ints_fit(torrent_tree(m)),
        fits_depth(torrent_tree(m), MAX_DEPTH as nat),
{
    lemma_key_bytes();
    let entries = torrent_tree(m)->Dictionary_0;
    assert(entries[0] == (key("announce"), text_tree(m.announce)));
    assert(entries[1] == (key("info"), info_tree(m.info)));
    lemma_info_tree_canonical(m.info, (MAX_DEPTH - 1) as nat);
    lemma_lex_decided_at(key("announce"), key("info"), 0);
    let keys = entry_keys(entries);
    assert(keys[0] == key("announce") && keys[1] == key("info"));
    assert(ascending(keys));
    assert forall|i: int| 0 <= i < entries.len() implies sorted_keys((#[trigger] entries[i]).1)
        && ints_fit(entries[i].1) && fits_depth(entries[i].1, (MAX_DEPTH - 1) as nat) by {}
}

/// The fields of a document in memory can be read back, given a piece
/// length above 0 and sizes that can be written as 64-bit integers.
pub proof fn lemma_torrent_valid(t: Torrent)
    requires
        t.info.piece_length > 0,
        t.info.encodable(),
    ensures
        valid_info(t@.info),
{
    lemma_join_len(t.info.pieces.0@);
    match t.info.keys {
        Keys::SingleFile { length } => {},
        Keys::MultiFile { files } => {
            let models = t@.info.layout->files;
            assert forall|i: int| 0 <= i < models.len() implies valid_size(
                (#[trigger] models[i]).length,
            ) by {
                assert(files@[i].encodable());
            }
        },
    }
}

/// Decoding the canonical encoding of a document, then reading the document
/// from what was decoded, gives the document back: the whole encoding is
/// consumed, and every field is as it was.
pub proof fn law_document_round_trip(t: Torrent)
    requires
        t.info.piece_length > 0,
        t.info.encodable(),
    ensures
        parse_value(encode_tree(torrent_tree(t@)), 0, MAX_DEPTH as nat) == parsed(
            torrent_tree(t@),
            encode_tree(torrent_tree(t@)).len() as int,
        ),
        torrent_of(torrent_tree(t@)) == Ok::<TorrentModel, MetainfoError>(t@),
{
    lemma_torrent_valid(t);
    lemma_torrent_tree_canonical(t@);
    law_document_read_back(t@);
    let e = encode_tree(torrent_tree(t@));
    assert(e.subrange(0, e.len() as int) =~= e);
    lemma_parse_encoded(e, 0, torrent_tree(t@), MAX_DEPTH as nat);
}

} // verus!
