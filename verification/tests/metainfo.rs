use bittorrent::decode::{DecodeError, ErrorKind};
use bittorrent::encode::encode;
use bittorrent::error::{Field, MetainfoError};
use bittorrent::hashes::{Hashes, DIGEST_LEN};
use bittorrent::torrent::{File, Info, Keys, Torrent};
use bittorrent::value::Value;
use sha1::Digest;

fn single_file_info() -> Vec<u8> {
    let mut info = b"d6:lengthi100e4:name1:x12:piece lengthi4e6:pieces20:".to_vec();
    info.extend_from_slice(&[0u8; 20]);
    info.push(b'e');
    info
}

fn document(info: &[u8]) -> Vec<u8> {
    let mut doc = b"d8:announce18:http://tracker/ann4:info".to_vec();
    doc.extend_from_slice(info);
    doc.push(b'e');
    doc
}

fn info_with(entries: &str) -> Result<Torrent, MetainfoError> {
    let mut info = b"d".to_vec();
    info.extend_from_slice(entries.as_bytes());
    info.push(b'e');
    Torrent::from_bytes(&document(&info))
}

fn sha1(data: &[u8]) -> [u8; 20] {
    sha1::Sha1::digest(data).into()
}

#[test]
fn digest_sequence_takes_multiples_of_twenty() {
    assert_eq!(DIGEST_LEN, 20);
    assert_eq!(Hashes::from_bytes(&[]), Ok(Hashes(vec![])));
    let bytes: Vec<u8> = (0..40u8).collect();
    let hashes = Hashes::from_bytes(&bytes).unwrap();
    assert_eq!(hashes.len(), 2);
    let mut first = [0u8; 20];
    let mut second = [0u8; 20];
    for i in 0..20 {
        first[i] = i as u8;
        second[i] = 20 + i as u8;
    }
    assert_eq!(hashes, Hashes(vec![first, second]));
    assert_eq!(hashes.to_bytes(), bytes);
}

#[test]
fn digest_sequence_refuses_other_lengths() {
    for len in [1usize, 19, 21, 25, 39, 41] {
        assert_eq!(
            Hashes::from_bytes(&vec![7u8; len]),
            Err(MetainfoError::InvalidDigestSequenceLength)
        );
    }
}

#[test]
fn single_file_document() {
    let info = single_file_info();
    let torrent = Torrent::from_bytes(&document(&info)).unwrap();
    assert_eq!(torrent.announce, "http://tracker/ann");
    assert_eq!(torrent.info.name, "x");
    assert_eq!(torrent.info.piece_length, 4);
    assert_eq!(torrent.info.pieces, Hashes(vec![[0u8; 20]]));
    assert_eq!(torrent.info.keys, Keys::SingleFile { length: 100 });
    assert!(torrent.info.is_encodable());
    assert_eq!(
        torrent.info_hash(),
        [
            119, 236, 21, 152, 210, 66, 21, 251, 189, 236, 92, 246, 114, 6, 6, 26, 158, 213, 137,
            135
        ]
    );
    assert_eq!(torrent.info_hash(), sha1(&info));
    assert_eq!(encode(&torrent.info.to_value()), info);
    assert_eq!(torrent.to_bytes(), document(&info));
}

#[test]
fn fingerprint_does_not_depend_on_the_order_of_keys() {
    let mut shuffled = b"d6:pieces20:".to_vec();
    shuffled.extend_from_slice(&[0u8; 20]);
    shuffled.extend_from_slice(b"4:name1:x6:lengthi100e5:extra3:yes12:piece lengthi4ee");
    let mut doc = b"d4:info".to_vec();
    doc.extend_from_slice(&shuffled);
    doc.extend_from_slice(b"8:announce18:http://tracker/anne");
    let torrent = Torrent::from_bytes(&doc).unwrap();
    assert_eq!(torrent, Torrent::from_bytes(&document(&single_file_info())).unwrap());
    assert_eq!(torrent.info_hash(), sha1(&single_file_info()));
}

#[test]
fn multi_file_document() {
    let mut info = b"d5:filesld6:lengthi3e4:pathl1:a1:beed6:lengthi4e4:pathl1:ceee4:name3:dir12:piece lengthi16e6:pieces20:".to_vec();
    let pieces: Vec<u8> = (0..20u8).collect();
    info.extend_from_slice(&pieces);
    info.push(b'e');
    let torrent = Torrent::from_bytes(&document(&info)).unwrap();
    assert_eq!(torrent.info.name, "dir");
    assert_eq!(torrent.info.piece_length, 16);
    assert_eq!(
        torrent.info.keys,
        Keys::MultiFile {
            files: vec![
                File { length: 3, path: vec!["a".to_string(), "b".to_string()] },
                File { length: 4, path: vec!["c".to_string()] },
            ]
        }
    );
    assert_eq!(
        torrent.info_hash(),
        [
            143, 146, 19, 117, 170, 226, 24, 234, 22, 60, 183, 251, 249, 120, 92, 170, 22, 98, 248,
            69
        ]
    );
    assert_eq!(torrent.to_bytes(), document(&info));
    assert_eq!(Torrent::from_bytes(&torrent.to_bytes()), Ok(torrent));
}

#[test]
fn built_document_round_trip() {
    let torrent = Torrent {
        announce: "udp://t.example:6969".to_string(),
        info: Info {
            name: "caf\u{e9}".to_string(),
            piece_length: 262144,
            pieces: Hashes(vec![[1u8; 20], [2u8; 20]]),
            keys: Keys::MultiFile {
                files: vec![File { length: 0, path: vec!["\u{4e2d}".to_string()] }],
            },
        },
    };
    assert!(torrent.info.is_encodable());
    let bytes = torrent.to_bytes();
    assert_eq!(Torrent::from_bytes(&bytes), Ok(torrent.clone()));
    assert_eq!(Torrent::from_value(&torrent.to_value()), Ok(torrent.clone()));
    assert_eq!(torrent.info_hash(), sha1(&encode(&torrent.info.to_value())));
    assert_eq!(Info::from_value(&torrent.info.to_value()), Ok(torrent.info.clone()));
}

#[test]
fn pieces_of_wrong_length_are_refused() {
    let mut info = b"d6:lengthi100e4:name1:x12:piece lengthi4e6:pieces25:".to_vec();
    info.extend_from_slice(&[0u8; 25]);
    info.push(b'e');
    assert_eq!(
        Torrent::from_bytes(&document(&info)),
        Err(MetainfoError::InvalidDigestSequenceLength)
    );
}

#[test]
fn grammar_errors_come_out() {
    assert_eq!(
        Torrent::from_bytes(b"d8:announce3:abc4:infoi03ee"),
        Err(MetainfoError::Decode(DecodeError { kind: ErrorKind::MalformedInteger, offset: 22 }))
    );
    assert_eq!(
        Torrent::from_bytes(b""),
        Err(MetainfoError::Decode(DecodeError { kind: ErrorKind::UnrecognizedTag, offset: 0 }))
    );
}

#[test]
fn root_and_info_must_be_dictionaries() {
    assert_eq!(Torrent::from_bytes(b"i1e"), Err(MetainfoError::WrongType(Field::Root)));
    assert_eq!(Torrent::from_bytes(b"le"), Err(MetainfoError::WrongType(Field::Root)));
    assert_eq!(
        Torrent::from_bytes(b"d8:announce1:a4:infoi1ee"),
        Err(MetainfoError::WrongType(Field::Info))
    );
}

#[test]
fn missing_fields_are_named() {
    assert_eq!(Torrent::from_bytes(b"de"), Err(MetainfoError::MissingField(Field::Announce)));
    assert_eq!(
        Torrent::from_bytes(b"d8:announce1:ae"),
        Err(MetainfoError::MissingField(Field::Info))
    );
    assert_eq!(info_with(""), Err(MetainfoError::MissingField(Field::Name)));
    assert_eq!(info_with("4:name1:x"), Err(MetainfoError::MissingField(Field::PieceLength)));
    assert_eq!(
        info_with("4:name1:x12:piece lengthi4e"),
        Err(MetainfoError::MissingField(Field::Pieces))
    );
    assert_eq!(
        info_with("5:filesld4:pathleee4:name1:x12:piece lengthi4e6:pieces0:"),
        Err(MetainfoError::MissingField(Field::Length))
    );
    assert_eq!(
        info_with("5:filesld6:lengthi1eee4:name1:x12:piece lengthi4e6:pieces0:"),
        Err(MetainfoError::MissingField(Field::Path))
    );
}

#[test]
fn wrong_types_are_named() {
    assert_eq!(
        Torrent::from_bytes(b"d8:announcei1e4:infodee"),
        Err(MetainfoError::WrongType(Field::Announce))
    );
    assert_eq!(info_with("4:namei1e"), Err(MetainfoError::WrongType(Field::Name)));
    assert_eq!(
        info_with("4:name1:x12:piece length1:4"),
        Err(MetainfoError::WrongType(Field::PieceLength))
    );
    assert_eq!(
        info_with("4:name1:x12:piece lengthi4e6:piecesle"),
        Err(MetainfoError::WrongType(Field::Pieces))
    );
    assert_eq!(
        info_with("6:length1:54:name1:x12:piece lengthi4e6:pieces0:"),
        Err(MetainfoError::WrongType(Field::Length))
    );
    assert_eq!(
        info_with("5:filesi1e4:name1:x12:piece lengthi4e6:pieces0:"),
        Err(MetainfoError::WrongType(Field::Files))
    );
    assert_eq!(
        info_with("5:filesli1ee4:name1:x12:piece lengthi4e6:pieces0:"),
        Err(MetainfoError::WrongType(Field::Files))
    );
    assert_eq!(
        info_with("5:filesld6:lengthi1e4:path1:aee4:name1:x12:piece lengthi4e6:pieces0:"),
        Err(MetainfoError::WrongType(Field::Path))
    );
    assert_eq!(
        info_with("5:filesld6:lengthi1e4:pathli1eeee4:name1:x12:piece lengthi4e6:pieces0:"),
        Err(MetainfoError::WrongType(Field::Path))
    );
}

#[test]
fn text_must_be_utf8() {
    let mut doc = b"d8:announce2:".to_vec();
    doc.extend_from_slice(&[0xc3, 0x28]);
    doc.extend_from_slice(b"4:infodee");
    assert_eq!(Torrent::from_bytes(&doc), Err(MetainfoError::InvalidUtf8(Field::Announce)));

    let mut info = b"d6:lengthi1e4:name1:".to_vec();
    info.push(0xff);
    info.extend_from_slice(b"12:piece lengthi4e6:pieces0:e");
    assert_eq!(
        Torrent::from_bytes(&document(&info)),
        Err(MetainfoError::InvalidUtf8(Field::Name))
    );

    let mut info = b"d5:filesld6:lengthi1e4:pathl1:a1:".to_vec();
    info.push(0x80);
    info.extend_from_slice(b"eee4:name1:x12:piece lengthi4e6:pieces0:e");
    assert_eq!(
        Torrent::from_bytes(&document(&info)),
        Err(MetainfoError::InvalidUtf8(Field::Path))
    );
}

#[test]
fn utf8_text_is_read_as_text() {
    let mut doc = b"d8:announce3:".to_vec();
    doc.extend_from_slice("\u{20ac}".as_bytes());
    doc.extend_from_slice(b"4:infod6:lengthi1e4:name2:");
    doc.extend_from_slice("\u{e9}".as_bytes());
    doc.extend_from_slice(b"12:piece lengthi4e6:pieces0:ee");
    let torrent = Torrent::from_bytes(&doc).unwrap();
    assert_eq!(torrent.announce, "\u{20ac}");
    assert_eq!(torrent.info.name, "\u{e9}");
    assert_eq!(torrent.to_bytes(), doc);
}

#[test]
fn piece_length_must_be_positive() {
    assert_eq!(
        info_with("6:lengthi1e4:name1:x12:piece lengthi0e6:pieces0:"),
        Err(MetainfoError::InvalidPieceLength)
    );
    assert_eq!(
        info_with("6:lengthi1e4:name1:x12:piece lengthi-4e6:pieces0:"),
        Err(MetainfoError::InvalidPieceLength)
    );
}

#[test]
fn lengths_must_not_be_negative() {
    assert_eq!(
        info_with("6:lengthi-1e4:name1:x12:piece lengthi4e6:pieces0:"),
        Err(MetainfoError::OutOfRange(Field::Length))
    );
    assert_eq!(
        info_with("5:filesld6:lengthi-7e4:pathleee4:name1:x12:piece lengthi4e6:pieces0:"),
        Err(MetainfoError::OutOfRange(Field::Length))
    );
    assert_eq!(
        info_with("6:lengthi0e4:name1:x12:piece lengthi4e6:pieces0:").unwrap().info.keys,
        Keys::SingleFile { length: 0 }
    );
}

#[test]
fn layout_must_be_one_of_two() {
    assert_eq!(
        info_with("4:name1:x12:piece lengthi4e6:pieces0:"),
        Err(MetainfoError::ConflictingFileLayout)
    );
    assert_eq!(
        info_with("5:filesle6:lengthi1e4:name1:x12:piece lengthi4e6:pieces0:"),
        Err(MetainfoError::ConflictingFileLayout)
    );
    assert_eq!(
        info_with("5:filesle4:name1:x12:piece lengthi4e6:pieces0:").unwrap().info.keys,
        Keys::MultiFile { files: vec![] }
    );
}

#[test]
fn first_failing_field_decides() {
    assert_eq!(
        info_with("4:namei1e12:piece lengthi0e6:pieces3:abc"),
        Err(MetainfoError::WrongType(Field::Name))
    );
    assert_eq!(
        info_with("4:name1:x12:piece lengthi0e6:pieces3:abc"),
        Err(MetainfoError::InvalidPieceLength)
    );
    assert_eq!(
        info_with("4:name1:x12:piece lengthi1e6:pieces3:abc"),
        Err(MetainfoError::InvalidDigestSequenceLength)
    );
    assert_eq!(
        info_with("5:filesld6:lengthi1e4:pathleed6:lengthi-1e4:pathleei3ee4:name1:x12:piece lengthi4e6:pieces0:"),
        Err(MetainfoError::OutOfRange(Field::Length))
    );
}

#[test]
fn values_read_directly() {
    let file = Value::Dictionary(vec![
        (b"path".to_vec(), Value::List(vec![Value::ByteString(b"f".to_vec())])),
        (b"length".to_vec(), Value::Integer(12)),
    ]);
    let read = File::from_value(&file).unwrap();
    assert_eq!(read, File { length: 12, path: vec!["f".to_string()] });
    assert!(read.is_encodable());
    assert_eq!(encode(&read.to_value()), b"d6:lengthi12e4:pathl1:fee".to_vec());
    assert_eq!(File::from_value(&Value::Integer(1)), Err(MetainfoError::WrongType(Field::Files)));
    let keys = Keys::SingleFile { length: 5 };
    assert!(keys.is_encodable());
    assert_eq!(keys.to_entry(), (b"length".to_vec(), Value::Integer(5)));
}

#[test]
fn sizes_beyond_sixty_three_bits_are_not_encodable() {
    if usize::BITS == 64 {
        let big = usize::MAX;
        assert!(!File { length: big, path: vec![] }.is_encodable());
        assert!(!Keys::SingleFile { length: big }.is_encodable());
        assert!(!Keys::MultiFile {
            files: vec![File { length: 1, path: vec![] }, File { length: big, path: vec![] }]
        }
        .is_encodable());
        let info = Info {
            name: String::new(),
            piece_length: big,
            pieces: Hashes(vec![]),
            keys: Keys::SingleFile { length: 1 },
        };
        assert!(!info.is_encodable());
    }
}
