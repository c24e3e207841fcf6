use bittorrent::decode::{decode, decode_at, DecodeError, ErrorKind, MAX_DEPTH};
use bittorrent::encode::{encode, encode_into};
use bittorrent::text::{bytes_eq, bytes_lt, copy_range, find, push_decimal, push_integer};
use bittorrent::value::Value;

fn bytes(s: &str) -> Value {
    Value::ByteString(s.as_bytes().to_vec())
}

fn entry(k: &str, v: Value) -> (Vec<u8>, Value) {
    (k.as_bytes().to_vec(), v)
}

fn fails(input: &[u8], kind: ErrorKind, offset: usize) {
    assert_eq!(decode(input), Err(DecodeError { kind, offset }));
}

#[test]
fn decodes_byte_string() {
    let (v, rest) = decode(b"4:spam").unwrap();
    assert_eq!(v, bytes("spam"));
    assert!(rest.is_empty());
}

#[test]
fn decodes_empty_byte_string() {
    assert_eq!(decode(b"0:").unwrap().0, bytes(""));
}

#[test]
fn decodes_byte_string_with_any_bytes() {
    let input = [b'3', b':', 0xff, 0x00, b'e'];
    assert_eq!(decode(&input).unwrap().0, Value::ByteString(vec![0xff, 0x00, b'e']));
}

#[test]
fn length_prefix_may_have_leading_zeros() {
    assert_eq!(decode(b"04:spam").unwrap().0, bytes("spam"));
}

#[test]
fn decodes_integers() {
    assert_eq!(decode(b"i3e").unwrap().0, Value::Integer(3));
    assert_eq!(decode(b"i-3e").unwrap().0, Value::Integer(-3));
    assert_eq!(decode(b"i0e").unwrap().0, Value::Integer(0));
}

#[test]
fn integer_with_leading_zero_is_refused() {
    fails(b"i03e", ErrorKind::MalformedInteger, 0);
    fails(b"i-03e", ErrorKind::MalformedInteger, 0);
    fails(b"i00e", ErrorKind::MalformedInteger, 0);
}

#[test]
fn negative_zero_is_refused() {
    fails(b"i-0e", ErrorKind::MalformedInteger, 0);
}

#[test]
fn malformed_integers_are_refused() {
    fails(b"ie", ErrorKind::MalformedInteger, 0);
    fails(b"i-e", ErrorKind::MalformedInteger, 0);
    fails(b"i12", ErrorKind::MalformedInteger, 0);
    fails(b"i", ErrorKind::MalformedInteger, 0);
    fails(b"i1x2e", ErrorKind::MalformedInteger, 0);
    fails(b"i+3e", ErrorKind::MalformedInteger, 0);
    fails(b"i 3e", ErrorKind::MalformedInteger, 0);
    fails(b"i3-e", ErrorKind::MalformedInteger, 0);
}

#[test]
fn integer_limits() {
    assert_eq!(decode(b"i9223372036854775807e").unwrap().0, Value::Integer(i64::MAX));
    assert_eq!(decode(b"i-9223372036854775808e").unwrap().0, Value::Integer(i64::MIN));
    fails(b"i9223372036854775808e", ErrorKind::MalformedInteger, 0);
    fails(b"i-9223372036854775809e", ErrorKind::MalformedInteger, 0);
    fails(b"i99999999999999999999999999999999999999999e", ErrorKind::MalformedInteger, 0);
}

#[test]
fn decodes_list() {
    let (v, rest) = decode(b"l4:spam4:eggse").unwrap();
    assert_eq!(v, Value::List(vec![bytes("spam"), bytes("eggs")]));
    assert!(rest.is_empty());
}

#[test]
fn decodes_empty_containers() {
    assert_eq!(decode(b"le").unwrap().0, Value::List(vec![]));
    assert_eq!(decode(b"de").unwrap().0, Value::Dictionary(vec![]));
}

#[test]
fn decodes_dictionary_and_encodes_it_back() {
    let input = b"d3:cow3:moo4:spam4:eggse";
    assert_eq!(input.len(), 24);
    let (v, rest) = decode(input).unwrap();
    assert_eq!(
        v,
        Value::Dictionary(vec![entry("cow", bytes("moo")), entry("spam", bytes("eggs"))])
    );
    assert!(rest.is_empty());
    assert_eq!(encode(&v), input.to_vec());
}

#[test]
fn decodes_nested_values() {
    let input = b"d4:listli1ei-2el3:abcee3:mapd1:ai0eee";
    let (v, rest) = decode(input).unwrap();
    assert_eq!(
        v,
        Value::Dictionary(vec![
            entry(
                "list",
                Value::List(vec![
                    Value::Integer(1),
                    Value::Integer(-2),
                    Value::List(vec![bytes("abc")]),
                ])
            ),
            entry("map", Value::Dictionary(vec![entry("a", Value::Integer(0))])),
        ])
    );
    assert!(rest.is_empty());
    assert_eq!(encode(&v), input.to_vec());
}

#[test]
fn hands_back_what_follows() {
    let (v, rest) = decode(b"i42e4:rest").unwrap();
    assert_eq!(v, Value::Integer(42));
    assert_eq!(rest, b"4:rest");
}

#[test]
fn decode_at_starts_in_the_middle() {
    assert_eq!(decode_at(b"xxi7eyy", 2, 0), Ok((Value::Integer(7), 5)));
    assert_eq!(
        decode_at(b"xx", 2, 4),
        Err(DecodeError { kind: ErrorKind::UnrecognizedTag, offset: 2 })
    );
}

#[test]
fn empty_input_and_unknown_tags_are_refused() {
    fails(b"", ErrorKind::UnrecognizedTag, 0);
    fails(b"x", ErrorKind::UnrecognizedTag, 0);
    fails(b"e", ErrorKind::UnrecognizedTag, 0);
    fails(b"-1", ErrorKind::UnrecognizedTag, 0);
    fails(b"li1exe", ErrorKind::UnrecognizedTag, 4);
}

#[test]
fn malformed_lengths_are_refused() {
    fails(b"4spam", ErrorKind::MalformedLength, 0);
    fails(b"4", ErrorKind::MalformedLength, 0);
    fails(b"4x:spam", ErrorKind::MalformedLength, 0);
    fails(b"l1:a2-:bbe", ErrorKind::MalformedLength, 4);
}

#[test]
fn truncated_byte_strings_are_refused() {
    fails(b"5:spam", ErrorKind::TruncatedByteString, 0);
    fails(b"1:", ErrorKind::TruncatedByteString, 0);
    fails(b"99999999999999999999999999999999:a", ErrorKind::TruncatedByteString, 0);
    fails(b"18446744073709551615:a", ErrorKind::TruncatedByteString, 0);
    fails(b"li1e3:ab", ErrorKind::TruncatedByteString, 4);
    fails(b"li1e3:abe", ErrorKind::UnterminatedList, 0);
}

#[test]
fn unterminated_list_is_refused() {
    fails(b"l", ErrorKind::UnterminatedList, 0);
    fails(b"l4:spam", ErrorKind::UnterminatedList, 0);
    fails(b"lli1ee", ErrorKind::UnterminatedList, 0);
    fails(b"lli1e", ErrorKind::UnterminatedList, 1);
}

#[test]
fn unterminated_dictionary_is_refused() {
    fails(b"d", ErrorKind::UnterminatedDictionary, 0);
    fails(b"d3:cow3:moo", ErrorKind::UnterminatedDictionary, 0);
    fails(b"d3:cow", ErrorKind::UnterminatedDictionary, 0);
    fails(b"ld1:ai1e", ErrorKind::UnterminatedDictionary, 1);
}

#[test]
fn dictionary_key_must_be_a_byte_string() {
    fails(b"di1e3:mooe", ErrorKind::NonStringDictKey, 1);
    fails(b"dle3:mooe", ErrorKind::NonStringDictKey, 1);
    fails(b"d1:ai1exe", ErrorKind::NonStringDictKey, 7);
}

#[test]
fn errors_inside_a_dictionary_come_out() {
    fails(b"d1:ai03ee", ErrorKind::MalformedInteger, 4);
    fails(b"d1:axe", ErrorKind::UnrecognizedTag, 4);
    fails(b"d9:ae", ErrorKind::TruncatedByteString, 1);
}

#[test]
fn nesting_up_to_the_limit() {
    assert_eq!(MAX_DEPTH, 512);
    let mut deep = vec![b'l'; MAX_DEPTH];
    deep.extend(vec![b'e'; MAX_DEPTH]);
    let (v, rest) = decode(&deep).unwrap();
    assert!(rest.is_empty());
    assert_eq!(encode(&v), deep);

    let mut deeper = vec![b'l'; MAX_DEPTH + 1];
    deeper.extend(vec![b'e'; MAX_DEPTH + 1]);
    fails(&deeper, ErrorKind::NestingTooDeep, MAX_DEPTH);

    let mut dicts = Vec::new();
    for _ in 0..MAX_DEPTH + 1 {
        dicts.extend_from_slice(b"d1:a");
    }
    fails(&dicts, ErrorKind::NestingTooDeep, 4 * MAX_DEPTH);
}

#[test]
fn scalars_need_no_depth() {
    assert_eq!(decode_at(b"i1e", 0, 0), Ok((Value::Integer(1), 3)));
    assert_eq!(decode_at(b"1:a", 0, 0), Ok((bytes("a"), 3)));
    assert_eq!(
        decode_at(b"le", 0, 0),
        Err(DecodeError { kind: ErrorKind::NestingTooDeep, offset: 0 })
    );
    assert_eq!(decode_at(b"le", 0, 1), Ok((Value::List(vec![]), 2)));
}

#[test]
fn repeated_key_keeps_the_last_value_at_the_first_place() {
    let (v, _) = decode(b"d1:bi1e1:ai2e1:bi3ee").unwrap();
    assert_eq!(
        v,
        Value::Dictionary(vec![entry("b", Value::Integer(3)), entry("a", Value::Integer(2))])
    );
    assert_eq!(encode(&v), b"d1:ai2e1:bi3ee".to_vec());
}

#[test]
fn unsorted_keys_are_kept_in_order_and_sorted_when_encoded() {
    let input = b"d4:spam4:eggs3:cow3:mooe";
    let (v, _) = decode(input).unwrap();
    assert_eq!(
        v,
        Value::Dictionary(vec![entry("spam", bytes("eggs")), entry("cow", bytes("moo"))])
    );
    let encoded = encode(&v);
    assert_eq!(encoded, b"d3:cow3:moo4:spam4:eggse".to_vec());
    let (again, _) = decode(&encoded).unwrap();
    assert_eq!(encode(&again), encoded);
}

#[test]
fn encodes_each_kind() {
    assert_eq!(encode(&Value::Integer(0)), b"i0e".to_vec());
    assert_eq!(encode(&Value::Integer(-17)), b"i-17e".to_vec());
    assert_eq!(encode(&Value::Integer(i64::MAX)), b"i9223372036854775807e".to_vec());
    assert_eq!(encode(&Value::Integer(i64::MIN)), b"i-9223372036854775808e".to_vec());
    assert_eq!(encode(&bytes("")), b"0:".to_vec());
    assert_eq!(encode(&bytes("hello world")), b"11:hello world".to_vec());
    assert_eq!(
        encode(&Value::List(vec![Value::Integer(1), bytes("a")])),
        b"li1e1:ae".to_vec()
    );
    assert_eq!(encode(&Value::List(vec![])), b"le".to_vec());
    assert_eq!(encode(&Value::Dictionary(vec![])), b"de".to_vec());
}

#[test]
fn encode_sorts_keys_by_bytes() {
    let v = Value::Dictionary(vec![
        entry("b", Value::Integer(1)),
        entry("ab", Value::Integer(2)),
        entry("a", Value::Integer(3)),
        entry("B", Value::Integer(4)),
        entry("", Value::Integer(5)),
        (vec![0xff], Value::Integer(6)),
    ]);
    let mut expected = b"d0:i5e1:Bi4e1:ai3e2:abi2e1:bi1e1:".to_vec();
    expected.push(0xff);
    expected.extend_from_slice(b"i6ee");
    assert_eq!(encode(&v), expected);
}

#[test]
fn encode_keeps_equal_keys_in_their_order() {
    let v = Value::Dictionary(vec![
        entry("k", Value::Integer(1)),
        entry("a", Value::Integer(2)),
        entry("k", Value::Integer(3)),
    ]);
    assert_eq!(encode(&v), b"d1:ai2e1:ki1e1:ki3ee".to_vec());
}

#[test]
fn encode_into_appends() {
    let mut out = b"xy".to_vec();
    encode_into(&Value::Integer(5), &mut out);
    assert_eq!(out, b"xyi5e".to_vec());
}

#[test]
fn integer_round_trip_reproduces_the_bytes() {
    for text in ["i0e", "i7e", "i-1e", "i10e", "i1234567890e", "i-9223372036854775808e"] {
        let (v, rest) = decode(text.as_bytes()).unwrap();
        assert!(rest.is_empty());
        assert_eq!(encode(&v), text.as_bytes().to_vec());
    }
}

#[test]
fn byte_string_round_trip() {
    for b in [vec![], vec![0u8], b"spam".to_vec(), vec![b':'; 11], (0..=255u8).collect::<Vec<u8>>()] {
        let encoded = encode(&Value::ByteString(b.clone()));
        let (v, rest) = decode(&encoded).unwrap();
        assert!(rest.is_empty());
        assert_eq!(v, Value::ByteString(b));
    }
}

#[test]
fn sorted_value_round_trip() {
    let v = Value::Dictionary(vec![
        entry("a", Value::List(vec![Value::Integer(-5), bytes("x")])),
        entry("b", Value::Dictionary(vec![entry("", bytes("")), entry("z", Value::Integer(9))])),
        entry("c", Value::Integer(0)),
    ]);
    let encoded = encode(&v);
    let (back, rest) = decode(&encoded).unwrap();
    assert!(rest.is_empty());
    assert_eq!(back, v);
    assert_eq!(encode(&back), encoded);
}

#[test]
fn agrees_with_serde_bencode() {
    let mut inner = std::collections::HashMap::new();
    inner.insert(b"zeta".to_vec(), serde_bencode::value::Value::Int(-12));
    inner.insert(b"alpha".to_vec(), serde_bencode::value::Value::Bytes(b"x y".to_vec()));
    inner.insert(
        b"list".to_vec(),
        serde_bencode::value::Value::List(vec![
            serde_bencode::value::Value::Int(0),
            serde_bencode::value::Value::Bytes(vec![]),
        ]),
    );
    let theirs = serde_bencode::to_bytes(&serde_bencode::value::Value::Dict(inner)).unwrap();
    let ours = Value::Dictionary(vec![
        entry("zeta", Value::Integer(-12)),
        entry("list", Value::List(vec![Value::Integer(0), bytes("")])),
        entry("alpha", bytes("x y")),
    ]);
    assert_eq!(encode(&ours), theirs);
    let (back, rest) = decode(&theirs).unwrap();
    assert!(rest.is_empty());
    assert_eq!(encode(&back), theirs);
}

#[test]
fn decimal_text() {
    let mut out = Vec::new();
    push_decimal(&mut out, 0);
    push_decimal(&mut out, 9);
    push_decimal(&mut out, 10);
    push_decimal(&mut out, u64::MAX);
    assert_eq!(out, b"091018446744073709551615".to_vec());
    let mut out = Vec::new();
    push_integer(&mut out, -40);
    push_integer(&mut out, 40);
    assert_eq!(out, b"-4040".to_vec());
}

#[test]
fn byte_order() {
    assert!(bytes_lt(b"", b"a"));
    assert!(!bytes_lt(b"", b""));
    assert!(bytes_lt(b"a", b"ab"));
    assert!(!bytes_lt(b"ab", b"a"));
    assert!(bytes_lt(b"ab", b"b"));
    assert!(bytes_lt(b"B", b"a"));
    assert!(bytes_lt(&[0x7f], &[0x80]));
    assert!(!bytes_lt(b"abc", b"abc"));
    assert!(bytes_eq(b"abc", b"abc"));
    assert!(!bytes_eq(b"abc", b"abd"));
    assert!(!bytes_eq(b"abc", b"ab"));
}

#[test]
fn finding_and_copying() {
    assert_eq!(find(b"abcabc", 0, b'c'), 2);
    assert_eq!(find(b"abcabc", 3, b'c'), 5);
    assert_eq!(find(b"abcabc", 0, b'x'), 6);
    assert_eq!(find(b"abc", 3, b'a'), 3);
    assert_eq!(copy_range(b"abcdef", 2, 4), b"cd".to_vec());
    assert_eq!(copy_range(b"abcdef", 3, 3), Vec::<u8>::new());
}

#[test]
fn a_copy_holds_the_same_value() {
    let v = Value::Dictionary(vec![
        entry("b", Value::List(vec![Value::Integer(1), bytes("x")])),
        entry("a", Value::Dictionary(vec![entry("k", bytes(""))])),
    ]);
    let copy = v.clone();
    assert_eq!(copy, v);
    assert_eq!(encode(&copy), encode(&v));
}
