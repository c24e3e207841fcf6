//! The canonical encoding of a value.

use crate::text::{int_text, lex_lt, nat_text, bytes_lt, push_decimal, push_integer};
use crate::value::{entries_view, entry_keys, list_view, Tree, Value};
use vstd::prelude::*;

verus! {

/// The parts joined in order.
pub open spec fn concat(parts: Seq<Seq<u8>>) -> Seq<u8>
    decreases parts.len(),
{
    if parts.len() == 0 {
        Seq::empty()
    } else {
        concat(parts.drop_last()) + parts.last()
    }
}

/// Places index `x` into `t`, behind every index whose key does not come
/// after the key of `x`.
pub open spec fn insert_index(keys: Seq<Seq<u8>>, t: Seq<int>, x: int) -> Seq<int>
    decreases t.len(),
{
    if t.len() == 0 || !lex_lt(keys[x], keys[t.last()]) {
        t.push(x)
    } else {
        insert_index(keys, t.drop_last(), x).push(t.last())
    }
}

/// The first `n` indices arranged by ascending key; equal keys keep the
/// order in which they stand.
pub open spec fn sort_order(keys: Seq<Seq<u8>>, n: nat) -> Seq<int>
    decreases n,
{
    if n == 0 {
        Seq::empty()
    } else {
        insert_index(keys, sort_order(keys, (n - 1) as nat), n - 1)
    }
}

/// A byte string: its length in decimal, a colon, the bytes.
pub open spec fn encode_bytes(b: Seq<u8>) -> Seq<u8> {
    nat_text(b.len()) + seq![0x3au8] + b
}

/// The encodings of a list's items, in order.
pub open spec fn item_parts(items: Seq<Tree>) -> Seq<Seq<u8>>
    decreases items,
{
    Seq::new(
        items.len(),
        |i: int|
            if 0 <= i < items.len() {
                encode_tree(items[i])
            } else {
                Seq::empty()
            },
    )
}

/// The encodings of a dictionary's entries, each a key and its value, in
/// ascending order of the keys.
pub open spec fn entry_parts(entries: Seq<(Seq<u8>, Tree)>) -> Seq<Seq<u8>>
    decreases entries,
{
    let order = sort_order(entry_keys(entries), entries.len());
    Seq::new(
        entries.len(),
        |j: int|
            {
                let i = order[j];
                if 0 <= i < entries.len() {
                    encode_bytes(entries[i].0) + encode_tree(entries[i].1)
                } else {
                    Seq::empty()
                }
            },
    )
}

/// The canonical encoding.
pub open spec fn encode_tree(t: Tree) -> Seq<u8>
    decreases t,
{
    match t {
        Tree::Integer(n) => seq![0x69u8] + int_text(n) + seq![0x65u8],
        Tree::ByteString(b) => encode_bytes(b),
        Tree::List(items) => seq![0x6cu8] + concat(item_parts(items)) + seq![0x65u8],
        Tree::Dictionary(entries) => seq![0x64u8] + concat(entry_parts(entries)) + seq![0x65u8],
    }
}

/// Joining one more part appends it.
pub proof fn lemma_concat_push(parts: Seq<Seq<u8>>, x: Seq<u8>)
    ensures
        concat(parts.push(x)) == concat(parts) + x,
{
    assert(parts.push(x).drop_last() =~= parts);
}

/// Inserting behind position `j` is what `insert_index` does when every
/// later key comes after the new one and the key before does not.
pub proof fn lemma_insert_at(keys: Seq<Seq<u8>>, t: Seq<int>, x: int, j: int)
    requires
        0 <= j <= t.len(),
        forall|m: int| j <= m < t.len() ==> lex_lt(keys[x], keys[#[trigger] t[m]]),
        j > 0 ==> !lex_lt(keys[x], keys[t[j - 1]]),
    ensures
        insert_index(keys, t, x) == t.insert(j, x),
    decreases t.len() - j,
{
    if j == t.len() {
        assert(t.insert(j, x) =~= t.push(x));
    } else {
        let p = t.drop_last();
        assert(lex_lt(keys[x], keys[t[t.len() - 1]]));
        assert forall|m: int| j <= m < p.len() implies lex_lt(keys[x], keys[#[trigger] p[m]]) by {
            assert(p[m] == t[m]);
        }
        lemma_insert_at(keys, p, x, j);
        assert(p.insert(j, x).push(t.last()) =~= t.insert(j, x));
    }
}

/// Appends the bytes of `src`.
fn push_all(out: &mut Vec<u8>, src: &[u8])
    ensures
        final(out)@ == old(out)@ + src@,
{
    let mut i: usize = 0;
    while i < src.len()
        invariant
            i <= src.len(),
            out@ == old(out)@ + src@.take(i as int),
        decreases src.len() - i,
    {
        out.push(src[i]);
        assert(src@.take(i + 1) =~= src@.take(i as int).push(src@[i as int]));
        assert(out@ =~= old(out)@ + src@.take(i + 1));
        i += 1;
    }
    assert(src@.take(src.len() as int) =~= src@);
}

/// Appends a byte string: length, colon, bytes.
fn push_byte_string(out: &mut Vec<u8>, b: &[u8])
    ensures
        final(out)@ == old(out)@ + encode_bytes(b@),
{
    push_decimal(out, b.len() as u64);
    out.push(0x3a);
    push_all(out, b);
    assert(final(out)@ =~= old(out)@ + encode_bytes(b@));
}

/// The indices of the entries, arranged by ascending key.
fn key_order(entries: &Vec<(Vec<u8>, Value)>) -> (order: Vec<usize>)
    ensures
        order@.len() == entries@.len(),
        sort_order(entry_keys(entries_view(entries@)), entries@.len()).len() == entries@.len(),
        forall|j: int| 0 <= j < order@.len() ==> order@[j] < entries@.len(),
        forall|j: int|
            0 <= j < order@.len() ==> #[trigger] order@[j] as int == sort_order(
                entry_keys(entries_view(entries@)),
                entries@.len(),
            )[j],
{
    let ghost keys = entry_keys(entries_view(entries@));
    let mut order: Vec<usize> = Vec::new();
    let mut i: usize = 0;
    while i < entries.len()
        invariant
            i <= entries.len(),
            keys == entry_keys(entries_view(entries@)),
            order@.len() == i,
            sort_order(keys, i as nat).len() == i,
            forall|j: int| 0 <= j < i ==> #[trigger] order@[j] < i,
            forall|j: int| 0 <= j < i ==> #[trigger] order@[j] as int == sort_order(keys, i as nat)[j],
        decreases entries.len() - i,
    {
        let ghost t = sort_order(keys, i as nat);
        let mut j: usize = i;
        while j > 0 && bytes_lt(entries[i].0.as_slice(), entries[order[j - 1]].0.as_slice())
            invariant
                j <= i,
                i < entries.len(),
                order@.len() == i,
                t.len() == i,
                keys == entry_keys(entries_view(entries@)),
                forall|m: int| 0 <= m < i ==> #[trigger] order@[m] < i,
                forall|m: int| 0 <= m < i ==> #[trigger] order@[m] as int == t[m],
                forall|m: int| j <= m < i ==> lex_lt(keys[i as int], keys[#[trigger] t[m]]),
            decreases j,
        {
            assert(order@[j - 1] as int == t[j - 1]);
            j -= 1;
        }
        proof {
            if j > 0 {
                assert(order@[j - 1] as int == t[j - 1]);
            }
            lemma_insert_at(keys, t, i as int, j as int);
        }
        order.insert(j, i);
        i += 1;
    }
    order
}

/// Appends the canonical encoding of `v`.
pub fn encode_into(v: &Value, out: &mut Vec<u8>)
    ensures
        final(out)@ == old(out)@ + encode_tree(v@),
    decreases v,
{
    match v {
        Value::Integer(n) => {
            out.push(0x69);
            push_integer(out, *n);
            out.push(0x65);
            assert(final(out)@ =~= old(out)@ + encode_tree(v@));
        },
        Value::ByteString(b) => {
            push_byte_string(out, b.as_slice());
        },
        Value::List(items) => {
            out.push(0x6c);
            let ghost parts = item_parts(list_view(items@));
            let mut i: usize = 0;
            while i < items.len()
                invariant
                    i <= items.len(),
                    decreases_to!(v => items),
                    parts == item_parts(list_view(items@)),
                    out@ == old(out)@ + seq![0x6cu8] + concat(parts.take(i as int)),
                decreases items.len() - i,
            {
                proof {
                    vstd::std_specs::vec::axiom_vec_index_decreases(*items, i as int);
                }
                encode_into(&items[i], out);
                proof {
                    assert(parts.take(i + 1) =~= parts.take(i as int).push(parts[i as int]));
                    lemma_concat_push(parts.take(i as int), parts[i as int]);
                    assert(parts[i as int] == encode_tree(items@[i as int]@));
                    assert(out@ =~= old(out)@ + seq![0x6cu8] + concat(parts.take(i + 1)));
                }
                i += 1;
            }
            out.push(0x65);
            assert(parts.take(items.len() as int) =~= parts);
            assert(final(out)@ =~= old(out)@ + encode_tree(v@));
        },
        Value::Dictionary(entries) => {
            out.push(0x64);
            let order = key_order(entries);
            let ghost parts = entry_parts(entries_view(entries@));
            let mut j: usize = 0;
            while j < order.len()
                invariant
                    j <= order.len(),
                    decreases_to!(v => entries),
                    order@.len() == entries@.len(),
                    sort_order(entry_keys(entries_view(entries@)), entries@.len()).len()
                        == entries@.len(),
                    forall|m: int| 0 <= m < order@.len() ==> order@[m] < entries@.len(),
                    forall|m: int|
                        0 <= m < order@.len() ==> #[trigger] order@[m] as int == sort_order(
                            entry_keys(entries_view(entries@)),
                            entries@.len(),
                        )[m],
                    parts == entry_parts(entries_view(entries@)),
                    out@ == old(out)@ + seq![0x64u8] + concat(parts.take(j as int)),
                decreases order.len() - j,
            {
                let k: usize = order[j];
                let ghost before = out@;
                push_byte_string(out, entries[k].0.as_slice());
                proof {
                    vstd::std_specs::vec::axiom_vec_index_decreases(*entries, k as int);
                }
                encode_into(&entries[k].1, out);
                proof {
                    assert(order@[j as int] as int == k);
                    assert(parts[j as int] == encode_bytes(entries@[k as int].0@) + encode_tree(
                        entries@[k as int].1@,
                    ));
                    assert(parts.take(j + 1) =~= parts.take(j as int).push(parts[j as int]));
                    lemma_concat_push(parts.take(j as int), parts[j as int]);
                    assert(out@ =~= before + parts[j as int]);
                    assert(out@ =~= old(out)@ + seq![0x64u8] + concat(parts.take(j + 1)));
                }
                j += 1;
            }
            out.push(0x65);
            assert(parts.take(order.len() as int) =~= parts);
            assert(final(out)@ =~= old(out)@ + encode_tree(v@));
        },
    }
}

/// The canonical encoding of `v`: dictionary entries in ascending order of
/// their keys, whatever order `v` holds them in.
pub fn encode(v: &Value) -> (out: Vec<u8>)
    ensures
        out@ == encode_tree(v@),
{
    let mut out: Vec<u8> = Vec::new();
    encode_into(v, &mut out);
    out
}

} // verus!
