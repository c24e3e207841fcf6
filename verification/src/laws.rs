//! What holds between encoding and decoding.

use crate::decode::{
    dict_insert, index_of_key, lemma_index_of_key_none, parse_byte_string, parse_entries,
    parse_integer, parse_items, parse_value, parsed, MAX_DEPTH,
};
use crate::encode::{
    concat, encode_bytes, encode_tree, entry_parts, insert_index, item_parts, lemma_insert_at,
    sort_order,
};
use crate::text::{
    canonical_int_text, int_of_text, int_text, is_digit, lemma_find_byte_is,
    lemma_int_text, lemma_lex_asymmetric, lemma_lex_irreflexive, lemma_lex_not_before,
    lemma_nat_text, lemma_text_of_int, lex_lt, nat_text,
};
use crate::value::{
    ascending, entry_keys, fits_depth, ints_fit, lemma_view_ints_fit, sorted_keys, Tree, Value,
};
use vstd::prelude::*;

verus! {

/// A byte of `s` inside a window that holds `e`.
proof fn lemma_window(s: Seq<u8>, pos: int, e: Seq<u8>, i: int)
    requires
        0 <= pos,
        pos + e.len() <= s.len(),
        s.subrange(pos, pos + e.len()) == e,
        0 <= i < e.len(),
    ensures
        s[pos + i] == e[i],
{
    assert(s.subrange(pos, pos + e.len())[i] == s[pos + i]);
}

/// The parts up to `k`, joined, open the whole.
proof fn lemma_concat_prefix(parts: Seq<Seq<u8>>, k: int)
    requires
        0 <= k <= parts.len(),
    ensures
        concat(parts.take(k)).len() <= concat(parts).len(),
        concat(parts).take(concat(parts.take(k)).len() as int) == concat(parts.take(k)),
    decreases parts.len() - k,
{
    if k == parts.len() {
        assert(parts.take(k) =~= parts);
        assert(concat(parts).take(concat(parts).len() as int) =~= concat(parts));
    } else {
        lemma_concat_prefix(parts, k + 1);
        assert(parts.take(k + 1).drop_last() =~= parts.take(k));
        let a = concat(parts.take(k));
        let b = concat(parts.take(k + 1));
        let c = concat(parts);
        assert(b == a + parts[k]);
        assert(c.take(a.len() as int) =~= c.take(b.len() as int).take(a.len() as int));
        assert(b.take(a.len() as int) =~= a);
    }
}

/// Where part `k` stands in a window that holds the joined parts.
proof fn lemma_part_at(s: Seq<u8>, base: int, parts: Seq<Seq<u8>>, k: int)
    requires
        0 <= base,
        base + concat(parts).len() <= s.len(),
        s.subrange(base, base + concat(parts).len()) == concat(parts),
        0 <= k < parts.len(),
    ensures
        concat(parts.take(k + 1)).len() == concat(parts.take(k)).len() + parts[k].len(),
        concat(parts.take(k + 1)).len() <= concat(parts).len(),
        s.subrange(
            base + concat(parts.take(k)).len(),
            base + concat(parts.take(k)).len() + parts[k].len(),
        ) == parts[k],
{
    lemma_concat_prefix(parts, k + 1);
    assert(parts.take(k + 1).drop_last() =~= parts.take(k));
    let a = concat(parts.take(k));
    let b = concat(parts.take(k + 1));
    let c = concat(parts);
    assert(b == a + parts[k]);
    let w = s.subrange(base + a.len(), base + a.len() + parts[k].len());
    assert forall|i: int| 0 <= i < parts[k].len() implies w[i] == parts[k][i] by {
        lemma_window(s, base, c, a.len() + i);
        assert(c.take(b.len() as int)[a.len() + i] == c[a.len() + i]);
        assert(b[a.len() + i] == parts[k][i]);
    }
    assert(w =~= parts[k]);
}

/// An encoding is not empty, and its first byte opens a value.
pub proof fn lemma_encode_first(t: Tree)
    ensures
        encode_tree(t).len() >= 2,
        encode_tree(t)[0] == 0x69 || encode_tree(t)[0] == 0x6c || encode_tree(t)[0] == 0x64
            || is_digit(encode_tree(t)[0]),
        matches!(t, Tree::ByteString(_)) <==> is_digit(encode_tree(t)[0]),
{
    match t {
        Tree::Integer(n) => {
            assert(encode_tree(t)[0] == 0x69);
        },
        Tree::ByteString(b) => {
            lemma_nat_text(b.len());
            let d = nat_text(b.len());
            assert(encode_tree(t)[0] == d[0]);
        },
        Tree::List(items) => {
            assert(encode_tree(t)[0] == 0x6c);
        },
        Tree::Dictionary(entries) => {
            assert(encode_tree(t)[0] == 0x64);
        },
    }
}

/// Reading an encoded byte string gives the bytes back.
pub proof fn lemma_parse_bytes_encoded(s: Seq<u8>, pos: int, b: Seq<u8>)
    requires
        0 <= pos,
        pos + encode_bytes(b).len() <= s.len(),
        s.subrange(pos, pos + encode_bytes(b).len()) == encode_bytes(b),
    ensures
        is_digit(s[pos]),
        parse_byte_string(s, pos) == parsed(b, pos + encode_bytes(b).len()),
{
    let d = nat_text(b.len());
    let e = encode_bytes(b);
    lemma_nat_text(b.len());
    let colon = pos + d.len();
    assert forall|i: int| pos <= i < colon implies s[i] != 0x3a by {
        lemma_window(s, pos, e, i - pos);
        assert(e[i - pos] == d[i - pos]);
        assert(is_digit(d[i - pos]));
    }
    lemma_window(s, pos, e, d.len() as int);
    lemma_window(s, pos, e, 0);
    assert(e[0] == d[0]);
    lemma_find_byte_is(s, pos, colon, 0x3a);
    assert(s.subrange(pos, colon) =~= d) by {
        assert forall|i: int| 0 <= i < d.len() implies s.subrange(pos, colon)[i] == d[i] by {
            lemma_window(s, pos, e, i);
        }
    }
    assert(s.subrange(colon + 1, colon + 1 + b.len()) =~= b) by {
        assert forall|i: int| 0 <= i < b.len() implies s.subrange(colon + 1, colon + 1 + b.len())[i]
            == b[i] by {
            lemma_window(s, pos, e, d.len() + 1 + i);
        }
    }
}

/// Reading the text of an integer between `i` and `e` gives the integer.
pub proof fn lemma_parse_integer_text(s: Seq<u8>, pos: int, text: Seq<u8>)
    requires
        0 <= pos,
        pos + text.len() + 2 <= s.len(),
        s.subrange(pos + 1, pos + 1 + text.len()) == text,
        s[pos + 1 + text.len()] == 0x65,
        canonical_int_text(text),
        i64::MIN <= int_of_text(text) <= i64::MAX,
    ensures
        parse_integer(s, pos) == parsed(int_of_text(text), pos + text.len() + 2),
{
    let end = pos + 1 + text.len();
    assert forall|i: int| pos + 1 <= i < end implies s[i] != 0x65 by {
        lemma_window(s, pos + 1, text, i - pos - 1);
        let j = i - pos - 1;
        if text[0] == 0x2d {
            if j > 0 {
                assert(text.skip(1)[j - 1] == text[j]);
                assert(is_digit(text.skip(1)[j - 1]));
            }
        } else {
            assert(is_digit(text[j]));
        }
    }
    lemma_find_byte_is(s, pos + 1, end, 0x65);
}

/// Keys in ascending order are arranged as they stand.
pub proof fn lemma_sort_order_ascending(keys: Seq<Seq<u8>>, n: nat)
    requires
        n <= keys.len(),
        ascending(keys),
    ensures
        sort_order(keys, n) == Seq::new(n, |i: int| i),
    decreases n,
{
    if n > 0 {
        lemma_sort_order_ascending(keys, (n - 1) as nat);
        let t = sort_order(keys, (n - 1) as nat);
        if t.len() > 0 {
            assert(t.last() == n - 2);
            assert(lex_lt(keys[n - 2], keys[n - 1]));
            lemma_lex_asymmetric(keys[n - 2], keys[n - 1]);
        }
        assert(insert_index(keys, t, n - 1) == t.push(n - 1));
        assert(t.push(n - 1) =~= Seq::new(n, |i: int| i));
    }
}

/// With its keys in ascending order a dictionary's entries are encoded as
/// they stand.
proof fn lemma_entry_parts_ascending(entries: Seq<(Seq<u8>, Tree)>, k: int)
    requires
        ascending(entry_keys(entries)),
        0 <= k < entries.len(),
    ensures
        entry_parts(entries)[k] == encode_bytes(entries[k].0) + encode_tree(entries[k].1),
{
    lemma_sort_order_ascending(entry_keys(entries), entries.len());
}

/// Reading the encoding of a tree gives the tree back, and ends behind the
/// encoding.
pub proof fn lemma_parse_encoded(s: Seq<u8>, pos: int, t: Tree, depth: nat)
    requires
        0 <= pos,
        pos + encode_tree(t).len() <= s.len(),
        s.subrange(pos, pos + encode_tree(t).len()) == encode_tree(t),
        sorted_keys(t),
        ints_fit(t),
        fits_depth(t, depth),
    ensures
        parse_value(s, pos, depth) == parsed(t, pos + encode_tree(t).len()),
    decreases t,
{
    let e = encode_tree(t);
    lemma_encode_first(t);
    lemma_window(s, pos, e, 0);
    match t {
        Tree::Integer(n) => {
            let text = int_text(n);
            lemma_int_text(n);
            assert(s.subrange(pos + 1, pos + 1 + text.len()) =~= text) by {
                assert forall|i: int| 0 <= i < text.len() implies s.subrange(
                    pos + 1,
                    pos + 1 + text.len(),
                )[i] == text[i] by {
                    lemma_window(s, pos, e, i + 1);
                }
            }
            lemma_window(s, pos, e, text.len() as int + 1);
            lemma_parse_integer_text(s, pos, text);
        },
        Tree::ByteString(b) => {
            lemma_parse_bytes_encoded(s, pos, b);
        },
        Tree::List(items) => {
            let body = concat(item_parts(items));
            assert(s.subrange(pos + 1, pos + 1 + body.len()) =~= body) by {
                assert forall|i: int| 0 <= i < body.len() implies s.subrange(
                    pos + 1,
                    pos + 1 + body.len(),
                )[i] == body[i] by {
                    lemma_window(s, pos, e, i + 1);
                }
            }
            lemma_window(s, pos, e, body.len() as int + 1);
            assert(item_parts(items).take(0) =~= Seq::<Seq<u8>>::empty());
            assert(items.take(0) =~= Seq::<Tree>::empty());
            lemma_parse_items_encoded(s, pos + 1, items, 0, (depth - 1) as nat, pos);
        },
        Tree::Dictionary(entries) => {
            let body = concat(entry_parts(entries));
            assert(s.subrange(pos + 1, pos + 1 + body.len()) =~= body) by {
                assert forall|i: int| 0 <= i < body.len() implies s.subrange(
                    pos + 1,
                    pos + 1 + body.len(),
                )[i] == body[i] by {
                    lemma_window(s, pos, e, i + 1);
                }
            }
            lemma_window(s, pos, e, body.len() as int + 1);
            assert(entry_parts(entries).take(0) =~= Seq::<Seq<u8>>::empty());
            assert(entries.take(0) =~= Seq::<(Seq<u8>, Tree)>::empty());
            lemma_parse_entries_encoded(s, pos + 1, entries, 0, (depth - 1) as nat, pos);
        },
    }
}

/// Reading on from item `k` of an encoded list gives the whole list.
proof fn lemma_parse_items_encoded(
    s: Seq<u8>,
    base: int,
    items: Seq<Tree>,
    k: int,
    depth: nat,
    open: int,
)
    requires
        0 <= base,
        0 <= k <= items.len(),
        base + concat(item_parts(items)).len() < s.len(),
        s.subrange(base, base + concat(item_parts(items)).len()) == concat(item_parts(items)),
        s[base + concat(item_parts(items)).len()] == 0x65,
        forall|i: int| 0 <= i < items.len() ==> sorted_keys(#[trigger] items[i]),
        forall|i: int| 0 <= i < items.len() ==> ints_fit(#[trigger] items[i]),
        forall|i: int| 0 <= i < items.len() ==> fits_depth(#[trigger] items[i], depth),
    ensures
        parse_items(s, base + concat(item_parts(items).take(k)).len(), depth, items.take(k), open)
            == parsed(items, base + concat(item_parts(items)).len() + 1),
    decreases items, items.len() - k,
{
    let parts = item_parts(items);
    let p = base + concat(parts.take(k)).len();
    if k == items.len() {
        assert(parts.take(k) =~= parts);
        assert(items.take(k) =~= items);
    } else {
        lemma_part_at(s, base, parts, k);
        let item = items[k];
        assert(parts[k] == encode_tree(item));
        lemma_encode_first(item);
        lemma_window(s, p, parts[k], 0);
        lemma_parse_encoded(s, p, item, depth);
        lemma_parse_items_encoded(s, base, items, k + 1, depth, open);
        assert(items.take(k).push(item) =~= items.take(k + 1));
    }
}

/// Reading on from entry `k` of an encoded dictionary whose keys ascend gives
/// the whole dictionary.
proof fn lemma_parse_entries_encoded(
    s: Seq<u8>,
    base: int,
    entries: Seq<(Seq<u8>, Tree)>,
    k: int,
    depth: nat,
    open: int,
)
    requires
        0 <= base,
        0 <= k <= entries.len(),
        base + concat(entry_parts(entries)).len() < s.len(),
        s.subrange(base, base + concat(entry_parts(entries)).len()) == concat(entry_parts(entries)),
        s[base + concat(entry_parts(entries)).len()] == 0x65,
        ascending(entry_keys(entries)),
        forall|i: int| 0 <= i < entries.len() ==> sorted_keys((#[trigger] entries[i]).1),
        forall|i: int| 0 <= i < entries.len() ==> ints_fit((#[trigger] entries[i]).1),
        forall|i: int| 0 <= i < entries.len() ==> fits_depth((#[trigger] entries[i]).1, depth),
    ensures
        parse_entries(s, base + concat(entry_parts(entries).take(k)).len(), depth, entries.take(k), open)
            == parsed(entries, base + concat(entry_parts(entries)).len() + 1),
    decreases entries, entries.len() - k,
{
    let parts = entry_parts(entries);
    let p = base + concat(parts.take(k)).len();
    if k == entries.len() {
        assert(parts.take(k) =~= parts);
        assert(entries.take(k) =~= entries);
    } else {
        lemma_part_at(s, base, parts, k);
        lemma_entry_parts_ascending(entries, k);
        let key = entries[k].0;
        let value = entries[k].1;
        let head = encode_bytes(key);
        let tail = encode_tree(value);
        assert(parts[k] == head + tail);
        lemma_encode_first(value);
        lemma_nat_text(key.len());
        let at = p + head.len();
        assert(s.subrange(p, p + head.len()) =~= head) by {
            assert forall|i: int| 0 <= i < head.len() implies s.subrange(p, p + head.len())[i]
                == head[i] by {
                lemma_window(s, p, parts[k], i);
            }
        }
        assert(s.subrange(at, at + tail.len()) =~= tail) by {
            assert forall|i: int| 0 <= i < tail.len() implies s.subrange(at, at + tail.len())[i]
                == tail[i] by {
                lemma_window(s, p, parts[k], head.len() + i);
            }
        }
        lemma_parse_bytes_encoded(s, p, key);
        lemma_parse_encoded(s, at, value, depth);
        assert(index_of_key(entries.take(k), key) is None) by {
            assert forall|j: int| 0 <= j < k implies entries.take(k)[j].0 != key by {
                assert(entry_keys(entries)[j] == entries[j].0);
                assert(entry_keys(entries)[k] == key);
                assert(lex_lt(entry_keys(entries)[j], entry_keys(entries)[k]));
                lemma_lex_irreflexive(key);
            }
            lemma_index_of_key_none(entries.take(k), key);
        }
        assert(dict_insert(entries.take(k), key, value) =~= entries.take(k + 1));
        lemma_parse_entries_encoded(s, base, entries, k + 1, depth, open);
    }
}

/// Decoding the encoding of a byte string gives the byte string back.
pub proof fn law_byte_string_round_trip(b: Seq<u8>)
    ensures
        parse_value(encode_tree(Tree::ByteString(b)), 0, MAX_DEPTH as nat) == parsed(
            Tree::ByteString(b),
            encode_tree(Tree::ByteString(b)).len() as int,
        ),
{
    let e = encode_tree(Tree::ByteString(b));
    assert(e.subrange(0, e.len() as int) =~= e);
    lemma_parse_encoded(e, 0, Tree::ByteString(b), MAX_DEPTH as nat);
}

/// An integer written in canonical form, `i`, the text and `e`, decodes to
/// the integer that the text denotes, and that integer is encoded as the
/// same bytes.
pub proof fn law_integer_round_trip(text: Seq<u8>)
    requires
        canonical_int_text(text),
        i64::MIN <= int_of_text(text) <= i64::MAX,
    ensures
        parse_value(seq![0x69u8] + text + seq![0x65u8], 0, MAX_DEPTH as nat) == parsed(
            Tree::Integer(int_of_text(text)),
            text.len() as int + 2,
        ),
        encode_tree(Tree::Integer(int_of_text(text))) == seq![0x69u8] + text + seq![0x65u8],
{
    let s = seq![0x69u8] + text + seq![0x65u8];
    assert(s.subrange(1, 1 + text.len() as int) =~= text);
    lemma_parse_integer_text(s, 0, text);
    lemma_text_of_int(text);
}

/// Decoding the encoding of a value whose dictionaries hold their keys in
/// ascending order, nested no deeper than the decoder accepts, gives the
/// value back and consumes the whole encoding; encoding what was decoded
/// gives the same bytes again.
pub proof fn law_round_trip(v: Value)
    requires
        sorted_keys(v@),
        fits_depth(v@, MAX_DEPTH as nat),
    ensures
        parse_value(encode_tree(v@), 0, MAX_DEPTH as nat) == parsed(v@, encode_tree(v@).len() as int),
        parse_value(encode_tree(v@), 0, MAX_DEPTH as nat) matches Ok((t, end)) && encode_tree(t)
            == encode_tree(v@),
{
    let e = encode_tree(v@);
    assert(e.subrange(0, e.len() as int) =~= e);
    lemma_view_ints_fit(v);
    lemma_parse_encoded(e, 0, v@, MAX_DEPTH as nat);
}

/// Each of the first `n` indices stands in `order` once.
pub open spec fn arranges(order: Seq<int>, n: nat) -> bool {
    &&& order.len() == n
    &&& forall|j: int| 0 <= j < n ==> 0 <= #[trigger] order[j] < n
    &&& forall|i: int, j: int| 0 <= i < j < n ==> #[trigger] order[i] != #[trigger] order[j]
}

/// No key in `order` comes before a key that stands earlier in it.
pub open spec fn non_descending(keys: Seq<Seq<u8>>, order: Seq<int>) -> bool {
    forall|i: int, j: int|
        0 <= i < j < order.len() ==> !lex_lt(keys[#[trigger] order[j]], keys[#[trigger] order[i]])
}

/// Equal keys stand in `order` as they stand among the keys.
pub open spec fn keeps_ties(keys: Seq<Seq<u8>>, order: Seq<int>) -> bool {
    forall|i: int, j: int|
        0 <= i < j < order.len() && keys[#[trigger] order[i]] == keys[#[trigger] order[j]]
            ==> order[i] < order[j]
}

/// Where `insert_index` places `x`.
pub open spec fn insert_position(keys: Seq<Seq<u8>>, t: Seq<int>, x: int) -> int
    decreases t.len(),
{
    if t.len() == 0 || !lex_lt(keys[x], keys[t.last()]) {
        t.len() as int
    } else {
        insert_position(keys, t.drop_last(), x)
    }
}

/// `insert_index` places `x` before the indices whose keys come after its
/// key, and behind the others.
proof fn lemma_insert_position(keys: Seq<Seq<u8>>, t: Seq<int>, x: int)
    ensures
        0 <= insert_position(keys, t, x) <= t.len(),
        insert_index(keys, t, x) == t.insert(insert_position(keys, t, x), x),
        forall|m: int|
            insert_position(keys, t, x) <= m < t.len() ==> lex_lt(keys[x], keys[#[trigger] t[m]]),
        insert_position(keys, t, x) > 0 ==> !lex_lt(
            keys[x],
            keys[t[insert_position(keys, t, x) - 1]],
        ),
{
    lemma_insert_position_bounds(keys, t, x);
    lemma_insert_at(keys, t, x, insert_position(keys, t, x));
}

proof fn lemma_insert_position_bounds(keys: Seq<Seq<u8>>, t: Seq<int>, x: int)
    ensures
        0 <= insert_position(keys, t, x) <= t.len(),
        forall|m: int|
            insert_position(keys, t, x) <= m < t.len() ==> lex_lt(keys[x], keys[#[trigger] t[m]]),
        insert_position(keys, t, x) > 0 ==> !lex_lt(
            keys[x],
            keys[t[insert_position(keys, t, x) - 1]],
        ),
    decreases t.len(),
{
    if !(t.len() == 0 || !lex_lt(keys[x], keys[t.last()])) {
        let p = t.drop_last();
        lemma_insert_position_bounds(keys, p, x);
        let at = insert_position(keys, p, x);
        assert forall|m: int| at <= m < t.len() implies lex_lt(keys[x], keys[#[trigger] t[m]]) by {
            if m < p.len() {
                assert(p[m] == t[m]);
            }
        }
        if at > 0 {
            assert(p[at - 1] == t[at - 1]);
        }
    }
}

/// The order in which a dictionary's entries are encoded: each entry once,
/// by ascending key, entries with equal keys as they stand.
pub proof fn law_sort_order(keys: Seq<Seq<u8>>, n: nat)
    requires
        n <= keys.len(),
    ensures
        arranges(sort_order(keys, n), n),
        non_descending(keys, sort_order(keys, n)),
        keeps_ties(keys, sort_order(keys, n)),
    decreases n,
{
    if n > 0 {
        let t = sort_order(keys, (n - 1) as nat);
        let x = n - 1;
        law_sort_order(keys, (n - 1) as nat);
        lemma_insert_position(keys, t, x);
        let p = insert_position(keys, t, x);
        let o = sort_order(keys, n);
        assert(o == t.insert(p, x));
        assert(o.len() == n);
        assert forall|j: int| 0 <= j < n implies o[j] == (if j < p {
            t[j]
        } else if j == p {
            x
        } else {
            t[j - 1]
        }) by {}
        assert forall|j: int| 0 <= j < n implies 0 <= #[trigger] o[j] < n by {
            if j < p {
                assert(0 <= t[j] < n - 1);
            } else if j > p {
                assert(0 <= t[j - 1] < n - 1);
            }
        }
        assert forall|i: int, j: int| 0 <= i < j < n implies #[trigger] o[i] != #[trigger] o[j] by {
            let a = if i < p { i } else { i - 1 };
            let b = if j < p { j } else { j - 1 };
            if i != p && j != p {
                assert(t[a] != t[b]);
            } else if i == p {
                assert(0 <= t[b] < n - 1);
            } else {
                assert(0 <= t[a] < n - 1);
            }
        }
        assert forall|i: int, j: int| 0 <= i < j < o.len() implies !lex_lt(
            keys[#[trigger] o[j]],
            keys[#[trigger] o[i]],
        ) by {
            let a = if i < p { i } else { i - 1 };
            let b = if j < p { j } else { j - 1 };
            if i != p && j != p {
                assert(!lex_lt(keys[t[b]], keys[t[a]]));
            } else if i == p {
                assert(lex_lt(keys[x], keys[t[b]]));
                lemma_lex_asymmetric(keys[x], keys[t[b]]);
            } else {
                if a < p - 1 {
                    assert(!lex_lt(keys[t[p - 1]], keys[t[a]]));
                    lemma_lex_not_before(keys[t[a]], keys[t[p - 1]], keys[x]);
                }
            }
        }
        assert forall|i: int, j: int|
            0 <= i < j < o.len() && keys[#[trigger] o[i]] == keys[#[trigger] o[j]] implies o[i]
            < o[j] by {
            let a = if i < p { i } else { i - 1 };
            let b = if j < p { j } else { j - 1 };
            if i != p && j != p {
                assert(keys[t[a]] == keys[t[b]]);
                assert(t[a] < t[b]);
            } else if i == p {
                assert(lex_lt(keys[x], keys[t[b]]));
                lemma_lex_irreflexive(keys[x]);
            } else {
                assert(0 <= t[a] < n - 1);
            }
        }
    }
}

} // verus!
