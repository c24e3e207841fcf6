//! Reading a value from its encoding.

use crate::text::{
    all_digits, canonical_int_text, digits_value, find, find_byte, int_of_text, is_digit,
    lemma_digits_value_prefix, lemma_digits_value_step, lemma_find_byte,
};
use crate::text::{bytes_eq, copy_range};
use crate::value::{entries_view, list_view, Tree, Value};
use vstd::prelude::*;

verus! {

/// Deepest nesting of lists and dictionaries that `decode` accepts.
pub const MAX_DEPTH: usize = 512;

/// The ways in which bytes can fail to be an encoding.
#[derive(Debug, Clone, Copy, PartialEq, Eq)]
pub enum ErrorKind {
    /// After `i`: no closing `e`, or the text before it is not a decimal
    /// integer in canonical form that fits in 64 bits.
    MalformedInteger,
    /// A length prefix that holds a byte other than a digit, or has no `:`.
    MalformedLength,
    /// Fewer bytes follow the `:` than the length prefix announces.
    TruncatedByteString,
    /// The input ends inside a list.
    UnterminatedList,
    /// The input ends inside a dictionary.
    UnterminatedDictionary,
    /// A value starts with a byte that opens none, or the input is empty.
    UnrecognizedTag,
    /// Lists and dictionaries are nested deeper than the limit.
    NestingTooDeep,
    /// A dictionary key that is not a byte string.
    NonStringDictKey,
}

/// A grammar violation and where it was found: the offset of the first byte
/// of the innermost value that holds it. For a list or dictionary that the
/// input ends inside, and for one nested too deep, that is the offset of its
/// opening byte; for a key that is no byte string, the offset of the key.
#[derive(Debug, Clone, Copy, PartialEq, Eq)]
pub struct DecodeError {
    pub kind: ErrorKind,
    pub offset: usize,
}

/// Outcome of reading one item of the grammar: what was read and the offset
/// behind it, or the violation and the offset of the value that holds it.
pub type Parsed<T> = Result<(T, int), (ErrorKind, int)>;

/// The outcome of reading `value` and ending at `end`.
pub open spec fn parsed<T>(value: T, end: int) -> Parsed<T> {
    Ok((value, end))
}

/// Position of the first entry with this key.
pub open spec fn index_of_key<V>(entries: Seq<(Seq<u8>, V)>, key: Seq<u8>) -> Option<int>
    decreases entries.len(),
{
    if entries.len() == 0 {
        None
    } else {
        match index_of_key(entries.drop_last(), key) {
            Some(i) => Some(i),
            None => if entries.last().0 == key {
                Some(entries.len() - 1)
            } else {
                None
            },
        }
    }
}

/// The entries with `key` bound to `value`: in place of the entry that holds
/// the key, or behind the others where none does.
pub open spec fn dict_insert<V>(entries: Seq<(Seq<u8>, V)>, key: Seq<u8>, value: V) -> Seq<
    (Seq<u8>, V),
> {
    match index_of_key(entries, key) {
        Some(i) => entries.update(i, (key, value)),
        None => entries.push((key, value)),
    }
}

/// An integer: `i`, the text up to the next `e`, which must be canonical
/// and fit in 64 bits.
pub open spec fn parse_integer(s: Seq<u8>, pos: int) -> Parsed<int> {
    let end = find_byte(s, pos + 1, 0x65);
    let text = s.subrange(pos + 1, end);
    if end < s.len() && canonical_int_text(text) && i64::MIN <= int_of_text(text) <= i64::MAX {
        Ok((int_of_text(text), end + 1))
    } else {
        Err((ErrorKind::MalformedInteger, pos))
    }
}

/// A byte string: digits up to the next `:`, then as many bytes as they
/// denote.
pub open spec fn parse_byte_string(s: Seq<u8>, pos: int) -> Parsed<Seq<u8>> {
    let colon = find_byte(s, pos, 0x3a);
    let digits = s.subrange(pos, colon);
    if colon >= s.len() || !all_digits(digits) {
        Err((ErrorKind::MalformedLength, pos))
    } else if colon + 1 + digits_value(digits) > s.len() {
        Err((ErrorKind::TruncatedByteString, pos))
    } else {
        Ok((s.subrange(colon + 1, colon + 1 + digits_value(digits)), colon + 1 + digits_value(digits)))
    }
}

/// The value that starts at `pos`, with at most `depth` further levels of
/// lists and dictionaries inside one another.
pub open spec fn parse_value(s: Seq<u8>, pos: int, depth: nat) -> Parsed<Tree>
    decreases s.len() - pos, 0nat,
{
    if pos < 0 || pos >= s.len() {
        Err((ErrorKind::UnrecognizedTag, pos))
    } else if s[pos] == 0x69 {
        match parse_integer(s, pos) {
            Ok((n, end)) => Ok((Tree::Integer(n), end)),
            Err(e) => Err(e),
        }
    } else if is_digit(s[pos]) {
        match parse_byte_string(s, pos) {
            Ok((b, end)) => Ok((Tree::ByteString(b), end)),
            Err(e) => Err(e),
        }
    } else if s[pos] == 0x6c {
        if depth == 0 {
            Err((ErrorKind::NestingTooDeep, pos))
        } else {
            match parse_items(s, pos + 1, (depth - 1) as nat, Seq::empty(), pos) {
                Ok((items, end)) => Ok((Tree::List(items), end)),
                Err(e) => Err(e),
            }
        }
    } else if s[pos] == 0x64 {
        if depth == 0 {
            Err((ErrorKind::NestingTooDeep, pos))
        } else {
            match parse_entries(s, pos + 1, (depth - 1) as nat, Seq::empty(), pos) {
                Ok((entries, end)) => Ok((Tree::Dictionary(entries), end)),
                Err(e) => Err(e),
            }
        }
    } else {
        Err((ErrorKind::UnrecognizedTag, pos))
    }
}

/// The rest of a list that was opened at `open`, of which `acc` has been
/// read: values up to the closing `e`.
///
/// A value always ends behind its start and within the input
/// (`lemma_parse_advances`); the test for it only shows that the reading
/// ends.
pub open spec fn parse_items(s: Seq<u8>, pos: int, depth: nat, acc: Seq<Tree>, open: int) -> Parsed<
    Seq<Tree>,
>
    decreases s.len() - pos, 1nat,
{
    if pos < 0 || pos >= s.len() {
        Err((ErrorKind::UnterminatedList, open))
    } else if s[pos] == 0x65 {
        Ok((acc, pos + 1))
    } else {
        match parse_value(s, pos, depth) {
            Err(e) => Err(e),
            Ok((item, next)) => if next <= pos || next > s.len() {
                Err((ErrorKind::UnterminatedList, open))
            } else {
                parse_items(s, next, depth, acc.push(item), open)
            },
        }
    }
}

/// The rest of a dictionary that was opened at `open`, of which `acc` has
/// been read: keys, each a byte string, and their values up to the closing
/// `e`. A key that comes again has its value replaced.
///
/// A key and a value always end behind their start and within the input
/// (`lemma_parse_advances`); the tests for it only show that the reading
/// ends.
pub open spec fn parse_entries(
    s: Seq<u8>,
    pos: int,
    depth: nat,
    acc: Seq<(Seq<u8>, Tree)>,
    open: int,
) -> Parsed<Seq<(Seq<u8>, Tree)>>
    decreases s.len() - pos, 1nat,
{
    if pos < 0 || pos >= s.len() {
        Err((ErrorKind::UnterminatedDictionary, open))
    } else if s[pos] == 0x65 {
        Ok((acc, pos + 1))
    } else if !is_digit(s[pos]) {
        Err((ErrorKind::NonStringDictKey, pos))
    } else {
        match parse_byte_string(s, pos) {
            Err(e) => Err(e),
            Ok((key, at)) => if at <= pos || at >= s.len() {
                Err((ErrorKind::UnterminatedDictionary, open))
            } else {
                match parse_value(s, at, depth) {
                    Err(e) => Err(e),
                    Ok((value, next)) => if next <= at || next > s.len() {
                        Err((ErrorKind::UnterminatedDictionary, open))
                    } else {
                        parse_entries(s, next, depth, dict_insert(acc, key, value), open)
                    },
                }
            },
        }
    }
}

/// A byte string that was read ends behind its start and within the input.
pub proof fn lemma_byte_string_advances(s: Seq<u8>, pos: int)
    requires
        0 <= pos < s.len(),
        is_digit(s[pos]),
    ensures
        parse_byte_string(s, pos) matches Ok((b, end)) ==> pos + 1 < end <= s.len(),
{
    lemma_find_byte(s, pos, 0x3a);
}

/// Whatever was read ends behind its start and within the input.
pub proof fn lemma_parse_advances(s: Seq<u8>, pos: int, depth: nat)
    ensures
        parse_value(s, pos, depth) matches Ok((t, end)) ==> pos < end <= s.len(),
    decreases s.len() - pos, 0nat,
{
    if 0 <= pos < s.len() {
        if s[pos] == 0x69 {
            lemma_find_byte(s, pos + 1, 0x65);
        } else if is_digit(s[pos]) {
            lemma_byte_string_advances(s, pos);
        } else if s[pos] == 0x6c && depth > 0 {
            lemma_items_advance(s, pos + 1, (depth - 1) as nat, Seq::empty(), pos);
        } else if s[pos] == 0x64 && depth > 0 {
            lemma_entries_advance(s, pos + 1, (depth - 1) as nat, Seq::empty(), pos);
        }
    }
}

/// A list that was read to its end ends behind `pos` and within the input.
pub proof fn lemma_items_advance(s: Seq<u8>, pos: int, depth: nat, acc: Seq<Tree>, open: int)
    ensures
        parse_items(s, pos, depth, acc, open) matches Ok((items, end)) ==> pos < end <= s.len(),
    decreases s.len() - pos, 1nat,
{
    if 0 <= pos < s.len() && s[pos] != 0x65 {
        lemma_parse_advances(s, pos, depth);
        match parse_value(s, pos, depth) {
            Ok((item, next)) => {
                if next > pos && next <= s.len() {
                    lemma_items_advance(s, next, depth, acc.push(item), open);
                }
            },
            Err(_) => {},
        }
    }
}

/// A dictionary that was read to its end ends behind `pos` and within the
/// input.
pub proof fn lemma_entries_advance(
    s: Seq<u8>,
    pos: int,
    depth: nat,
    acc: Seq<(Seq<u8>, Tree)>,
    open: int,
)
    ensures
        parse_entries(s, pos, depth, acc, open) matches Ok((entries, end)) ==> pos < end <= s.len(),
    decreases s.len() - pos, 1nat,
{
    if 0 <= pos < s.len() && s[pos] != 0x65 && is_digit(s[pos]) {
        lemma_byte_string_advances(s, pos);
        match parse_byte_string(s, pos) {
            Ok((key, at)) => {
                if at > pos && at < s.len() {
                    lemma_parse_advances(s, at, depth);
                    match parse_value(s, at, depth) {
                        Ok((value, next)) => {
                            if next > at && next <= s.len() {
                                lemma_entries_advance(s, next, depth, dict_insert(acc, key, value), open);
                            }
                        },
                        Err(_) => {},
                    }
                }
            },
            Err(_) => {},
        }
    }
}

/// Whether `r` is the outcome `p` that the grammar gives.
pub open spec fn agrees<T: View>(r: Result<(T, usize), DecodeError>, p: Parsed<T::V>) -> bool {
    match p {
        Ok((t, end)) => r matches Ok((v, e)) && v@ == t && e == end,
        Err((kind, offset)) => r matches Err(err) && err.kind == kind && err.offset == offset,
    }
}

/// The key stands first at `i`.
pub proof fn lemma_index_of_key_first<V>(entries: Seq<(Seq<u8>, V)>, key: Seq<u8>, i: int)
    requires
        0 <= i < entries.len(),
        entries[i].0 == key,
        forall|j: int| 0 <= j < i ==> entries[j].0 != key,
    ensures
        index_of_key(entries, key) == Some(i),
    decreases entries.len(),
{
    if i < entries.len() - 1 {
        lemma_index_of_key_first(entries.drop_last(), key, i);
    } else {
        lemma_index_of_key_none(entries.drop_last(), key);
    }
}

/// No entry holds the key.
pub proof fn lemma_index_of_key_none<V>(entries: Seq<(Seq<u8>, V)>, key: Seq<u8>)
    requires
        forall|j: int| 0 <= j < entries.len() ==> entries[j].0 != key,
    ensures
        index_of_key(entries, key) is None,
    decreases entries.len(),
{
    if entries.len() > 0 {
        lemma_index_of_key_none(entries.drop_last(), key);
    }
}

/// Reads the integer whose `i` stands at `pos`.
fn read_integer(input: &[u8], pos: usize) -> (r: Result<(i64, usize), DecodeError>)
    requires
        pos < input.len(),
    ensures
        match parse_integer(input@, pos as int) {
            Ok((n, end)) => r matches Ok((v, e)) && v == n && e == end && pos < e <= input.len(),
            Err((kind, offset)) => r matches Err(err) && err.kind == kind && err.offset == offset,
        },
{
    let len: usize = input.len();
    let fail = DecodeError { kind: ErrorKind::MalformedInteger, offset: pos };
    let end: usize = find(input, pos + 1, 0x65);
    if end >= len {
        return Err(fail);
    }
    let ghost text = input@.subrange(pos + 1, end as int);
    let negative: bool = pos + 1 < end && input[pos + 1] == 0x2d;
    let start: usize = if negative {
        pos + 2
    } else {
        pos + 1
    };
    let ghost digits = input@.subrange(start as int, end as int);
    proof {
        if negative {
            assert(text[0] == 0x2d);
            assert(text.skip(1) =~= digits);
        } else {
            assert(text =~= digits);
        }
    }
    if start >= end {
        return Err(fail);
    }
    let mut k: usize = start;
    while k < end
        invariant
            start <= k <= end,
            end < len,
            len == input.len(),
            digits == input@.subrange(start as int, end as int),
            end == find_byte(input@, pos + 1, 0x65),
            text == input@.subrange(pos + 1, end as int),
            fail == (DecodeError { kind: ErrorKind::MalformedInteger, offset: pos }),
            canonical_int_text(text) ==> all_digits(digits),
            forall|i: int| 0 <= i < k - start ==> is_digit(#[trigger] digits[i]),
        decreases end - k,
    {
        if input[k] < 0x30 || input[k] > 0x39 {
            assert(!is_digit(digits[k - start]));
            return Err(fail);
        }
        k += 1;
    }
    if end - start > 1 && input[start] == 0x30 {
        assert(digits[0] == 0x30);
        return Err(fail);
    }
    if negative && input[start] == 0x30 {
        assert(digits[0] == 0x30);
        assert(digits =~= seq![0x30u8]);
        return Err(fail);
    }
    assert(canonical_int_text(text)) by {
        if negative {
            assert(digits[0] != 0x30);
        }
    }
    assert(int_of_text(text) == if negative {
        -(digits_value(digits) as int)
    } else {
        digits_value(digits) as int
    });
    let limit: u64 = if negative {
        0x8000_0000_0000_0000
    } else {
        0x7fff_ffff_ffff_ffff
    };
    let mut acc: u64 = 0;
    k = start;
    while k < end
        invariant
            start <= k <= end,
            end < len,
            len == input.len(),
            digits == input@.subrange(start as int, end as int),
            end == find_byte(input@, pos + 1, 0x65),
            text == input@.subrange(pos + 1, end as int),
            fail == (DecodeError { kind: ErrorKind::MalformedInteger, offset: pos }),
            canonical_int_text(text),
            int_of_text(text) == if negative {
                -(digits_value(digits) as int)
            } else {
                digits_value(digits) as int
            },
            limit == if negative { 0x8000_0000_0000_0000u64 } else { 0x7fff_ffff_ffff_ffffu64 },
            all_digits(digits),
            acc == digits_value(digits.take(k - start)),
            acc <= limit,
        decreases end - k,
    {
        assert(is_digit(digits[k - start]));
        let d: u8 = input[k] - 0x30;
        let wide: u128 = (acc as u128) * 10 + (d as u128);
        proof {
            lemma_digits_value_step(digits, k - start);
            lemma_digits_value_prefix(digits, k - start + 1);
        }
        if wide > limit as u128 {
            return Err(fail);
        }
        acc = wide as u64;
        k += 1;
    }
    assert(digits.take(end - start) =~= digits);
    let value: i64 = if negative {
        if acc == 0x8000_0000_0000_0000 {
            i64::MIN
        } else {
            -(acc as i64)
        }
    } else {
        acc as i64
    };
    Ok((value, end + 1))
}

/// Reads the byte string whose length prefix starts at `pos`.
fn read_byte_string(input: &[u8], pos: usize) -> (r: Result<(Vec<u8>, usize), DecodeError>)
    requires
        pos < input.len(),
    ensures
        agrees(r, parse_byte_string(input@, pos as int)),
        r matches Ok((v, e)) ==> pos < e <= input.len(),
{
    let len: usize = input.len();
    let colon: usize = find(input, pos, 0x3a);
    let ghost digits = input@.subrange(pos as int, colon as int);
    if colon >= len {
        return Err(DecodeError { kind: ErrorKind::MalformedLength, offset: pos });
    }
    let mut k: usize = pos;
    while k < colon
        invariant
            pos <= k <= colon,
            colon < len,
            len == input.len(),
            digits == input@.subrange(pos as int, colon as int),
            colon == find_byte(input@, pos as int, 0x3a),
            forall|i: int| 0 <= i < k - pos ==> is_digit(#[trigger] digits[i]),
        decreases colon - k,
    {
        if input[k] < 0x30 || input[k] > 0x39 {
            assert(!is_digit(digits[k - pos]));
            return Err(DecodeError { kind: ErrorKind::MalformedLength, offset: pos });
        }
        k += 1;
    }
    let mut n: usize = 0;
    k = pos;
    while k < colon
        invariant
            pos <= k <= colon,
            colon < len,
            len == input.len(),
            digits == input@.subrange(pos as int, colon as int),
            colon == find_byte(input@, pos as int, 0x3a),
            all_digits(digits),
            n == digits_value(digits.take(k - pos)),
            n <= len,
        decreases colon - k,
    {
        assert(is_digit(digits[k - pos]));
        let d: u8 = input[k] - 0x30;
        let wide: u128 = (n as u128) * 10 + (d as u128);
        proof {
            lemma_digits_value_step(digits, k - pos);
            lemma_digits_value_prefix(digits, k - pos + 1);
        }
        if wide > len as u128 {
            return Err(DecodeError { kind: ErrorKind::TruncatedByteString, offset: pos });
        }
        n = wide as usize;
        k += 1;
    }
    assert(digits.take(colon - pos) =~= digits);
    if n > len - colon - 1 {
        return Err(DecodeError { kind: ErrorKind::TruncatedByteString, offset: pos });
    }
    let bytes = copy_range(input, colon + 1, colon + 1 + n);
    Ok((bytes, colon + 1 + n))
}

/// Binds `key` to `value`: in place of the entry that holds the key, or
/// behind the others where none does.
fn insert_entry(entries: &mut Vec<(Vec<u8>, Value)>, key: Vec<u8>, value: Value)
    ensures
        entries_view(final(entries)@) == dict_insert(entries_view(old(entries)@), key@, value@),
{
    let ghost before = entries_view(entries@);
    let mut i: usize = 0;
    while i < entries.len()
        invariant
            i <= entries.len(),
            entries@ == old(entries)@,
            before == entries_view(entries@),
            forall|j: int| 0 <= j < i ==> before[j].0 != key@,
        decreases entries.len() - i,
    {
        if bytes_eq(entries[i].0.as_slice(), key.as_slice()) {
            proof {
                lemma_index_of_key_first(before, key@, i as int);
            }
            entries.set(i, (key, value));
            assert(entries_view(entries@) =~= before.update(i as int, (key@, value@)));
            return;
        }
        i += 1;
    }
    proof {
        lemma_index_of_key_none(before, key@);
    }
    entries.push((key, value));
    assert(entries_view(entries@) =~= before.push((key@, value@)));
}

/// Reads the value that starts at `pos`, with at most `depth` further levels
/// of lists and dictionaries inside one another.
pub fn decode_at(input: &[u8], pos: usize, depth: usize) -> (r: Result<(Value, usize), DecodeError>)
    requires
        pos <= input.len(),
    ensures
        agrees(r, parse_value(input@, pos as int, depth as nat)),
        r matches Ok((v, e)) ==> pos < e <= input.len(),
    decreases input.len() - pos,
{
    let len: usize = input.len();
    if pos >= len {
        return Err(DecodeError { kind: ErrorKind::UnrecognizedTag, offset: pos });
    }
    let tag: u8 = input[pos];
    if tag == 0x69 {
        match read_integer(input, pos) {
            Ok((n, end)) => Ok((Value::Integer(n), end)),
            Err(e) => Err(e),
        }
    } else if 0x30 <= tag && tag <= 0x39 {
        match read_byte_string(input, pos) {
            Ok((b, end)) => Ok((Value::ByteString(b), end)),
            Err(e) => Err(e),
        }
    } else if tag == 0x6c {
        if depth == 0 {
            return Err(DecodeError { kind: ErrorKind::NestingTooDeep, offset: pos });
        }
        let ghost goal = parse_items(input@, pos + 1, (depth - 1) as nat, Seq::empty(), pos as int);
        let mut items: Vec<Value> = Vec::new();
        let mut p: usize = pos + 1;
        assert(list_view(items@) =~= Seq::empty());
        while p < len && input[p] != 0x65
            invariant
                pos < p <= len,
                len == input.len(),
                depth > 0,
                input@[pos as int] == 0x6c,
                goal == parse_items(input@, pos + 1, (depth - 1) as nat, Seq::empty(), pos as int),
                parse_items(input@, p as int, (depth - 1) as nat, list_view(items@), pos as int) == goal,
            decreases len - p,
        {
            match decode_at(input, p, depth - 1) {
                Err(e) => {
                    return Err(e);
                },
                Ok((item, next)) => {
                    assert(list_view(items@.push(item)) =~= list_view(items@).push(item@));
                    items.push(item);
                    p = next;
                },
            }
        }
        if p >= len {
            return Err(DecodeError { kind: ErrorKind::UnterminatedList, offset: pos });
        }
        Ok((Value::List(items), p + 1))
    } else if tag == 0x64 {
        if depth == 0 {
            return Err(DecodeError { kind: ErrorKind::NestingTooDeep, offset: pos });
        }
        let ghost goal = parse_entries(input@, pos + 1, (depth - 1) as nat, Seq::empty(), pos as int);
        let mut entries: Vec<(Vec<u8>, Value)> = Vec::new();
        let mut p: usize = pos + 1;
        assert(entries_view(entries@) =~= Seq::empty());
        while p < len && input[p] != 0x65
            invariant
                pos < p <= len,
                len == input.len(),
                depth > 0,
                input@[pos as int] == 0x64,
                goal == parse_entries(input@, pos + 1, (depth - 1) as nat, Seq::empty(), pos as int),
                parse_entries(input@, p as int, (depth - 1) as nat, entries_view(entries@), pos as int)
                    == goal,
            decreases len - p,
        {
            if input[p] < 0x30 || input[p] > 0x39 {
                return Err(DecodeError { kind: ErrorKind::NonStringDictKey, offset: p });
            }
            match read_byte_string(input, p) {
                Err(e) => {
                    return Err(e);
                },
                Ok((key, at)) => {
                    if at >= len {
                        return Err(DecodeError { kind: ErrorKind::UnterminatedDictionary, offset: pos });
                    }
                    match decode_at(input, at, depth - 1) {
                        Err(e) => {
                            return Err(e);
                        },
                        Ok((value, next)) => {
                            insert_entry(&mut entries, key, value);
                            p = next;
                        },
                    }
                },
            }
        }
        if p >= len {
            return Err(DecodeError { kind: ErrorKind::UnterminatedDictionary, offset: pos });
        }
        Ok((Value::Dictionary(entries), p + 1))
    } else {
        Err(DecodeError { kind: ErrorKind::UnrecognizedTag, offset: pos })
    }
}

/// Reads the value at the start of `input` and hands back what follows it.
///
/// Lists and dictionaries may be nested `MAX_DEPTH` deep. Of a dictionary
/// key that comes more than once the last value is kept, at the place of
/// the first.
pub fn decode(input: &[u8]) -> (r: Result<(Value, &[u8]), DecodeError>)
    ensures
        match parse_value(input@, 0, MAX_DEPTH as nat) {
            Ok((t, end)) => r matches Ok((v, rest)) && v@ == t && rest@ == input@.skip(end),
            Err((kind, offset)) => r matches Err(err) && err.kind == kind && err.offset == offset,
        },
{
    match decode_at(input, 0, MAX_DEPTH) {
        Ok((v, end)) => {
            let rest = vstd::slice::slice_subrange(input, end, input.len());
            assert(rest@ =~= input@.skip(end as int));
            Ok((v, rest))
        },
        Err(e) => Err(e),
    }
}

} // verus!
