//! The value tree: integers, byte strings, lists and dictionaries.

use crate::text::lex_lt;
use vstd::prelude::*;

verus! {

/// Mathematical model of a bencoded value.
pub enum Tree {
    Integer(int),
    ByteString(Seq<u8>),
    List(Seq<Tree>),
    /// Entries in the order in which they are held; see [`keys_distinct`].
    Dictionary(Seq<(Seq<u8>, Tree)>),
}

/// A bencoded value as held in memory.
#[derive(Debug, PartialEq, Eq)]
pub enum Value {
    Integer(i64),
    ByteString(Vec<u8>),
    List(Vec<Value>),
    /// Entries in insertion order. The encoder emits them sorted by key.
    Dictionary(Vec<(Vec<u8>, Value)>),
}

/// Models of the items of a list, in order.
pub open spec fn list_view(items: Seq<Value>) -> Seq<Tree>
    decreases items,
{
    Seq::new(items.len(), |i: int| if 0 <= i < items.len() { items[i]@ } else { Tree::Integer(0) })
}

/// Models of the entries of a dictionary, in order.
pub open spec fn entries_view(entries: Seq<(Vec<u8>, Value)>) -> Seq<(Seq<u8>, Tree)>
    decreases entries,
{
    Seq::new(
        entries.len(),
        |i: int| if 0 <= i < entries.len() { (entries[i].0@, entries[i].1@) } else { (Seq::empty(), Tree::Integer(0)) },
    )
}

impl View for Value {
    type V = Tree;

    open spec fn view(&self) -> Tree
        decreases self,
    {
        match self {
            Value::Integer(n) => Tree::Integer(*n as int),
            Value::ByteString(b) => Tree::ByteString(b@),
            Value::List(items) => Tree::List(list_view(items@)),
            Value::Dictionary(entries) => Tree::Dictionary(entries_view(entries@)),
        }
    }
}

/// A copy of the bytes.
fn clone_bytes(b: &Vec<u8>) -> (out: Vec<u8>)
    ensures
        out@ == b@,
{
    let mut out: Vec<u8> = Vec::new();
    let mut i: usize = 0;
    while i < b.len()
        invariant
            i <= b.len(),
            out@ == b@.take(i as int),
        decreases b.len() - i,
    {
        out.push(b[i]);
        assert(out@ =~= b@.take(i + 1));
        i += 1;
    }
    assert(b@.take(b.len() as int) =~= b@);
    out
}

impl Clone for Value {
    /// A copy that holds the same tree.
    fn clone(&self) -> (out: Value)
        ensures
            out@ == self@,
        decreases self,
    {
        match self {
            Value::Integer(n) => Value::Integer(*n),
            Value::ByteString(b) => Value::ByteString(clone_bytes(b)),
            Value::List(items) => {
                let mut copies: Vec<Value> = Vec::new();
                let mut i: usize = 0;
                while i < items.len()
                    invariant
                        i <= items.len(),
                        decreases_to!(self => items),
                        copies@.len() == i,
                        forall|j: int| 0 <= j < i ==> (#[trigger] copies@[j])@ == items@[j]@,
                    decreases items.len() - i,
                {
                    proof {
                        vstd::std_specs::vec::axiom_vec_index_decreases(*items, i as int);
                    }
                    let copy = items[i].clone();
                    copies.push(copy);
                    i += 1;
                }
                assert(list_view(copies@) =~= list_view(items@));
                Value::List(copies)
            },
            Value::Dictionary(entries) => {
                let mut copies: Vec<(Vec<u8>, Value)> = Vec::new();
                let mut i: usize = 0;
                while i < entries.len()
                    invariant
                        i <= entries.len(),
                        decreases_to!(self => entries),
                        copies@.len() == i,
                        forall|j: int|
                            0 <= j < i ==> (#[trigger] copies@[j]).0@ == entries@[j].0@ && copies@[j].1@
                                == entries@[j].1@,
                    decreases entries.len() - i,
                {
                    proof {
                        vstd::std_specs::vec::axiom_vec_index_decreases(*entries, i as int);
                    }
                    let copy = entries[i].1.clone();
                    copies.push((clone_bytes(&entries[i].0), copy));
                    i += 1;
                }
                assert(entries_view(copies@) =~= entries_view(entries@));
                Value::Dictionary(copies)
            },
        }
    }
}

/// Every key comes before each key behind it: ascending, and no key twice.
pub open spec fn ascending(keys: Seq<Seq<u8>>) -> bool {
    forall|i: int, j: int| 0 <= i < j < keys.len() ==> lex_lt(#[trigger] keys[i], #[trigger] keys[j])
}

/// The keys of a dictionary's entries, in the order held.
pub open spec fn entry_keys(entries: Seq<(Seq<u8>, Tree)>) -> Seq<Seq<u8>> {
    Seq::new(entries.len(), |i: int| entries[i].0)
}

/// Every dictionary in the tree holds its entries in ascending order of
/// their keys.
pub open spec fn sorted_keys(t: Tree) -> bool
    decreases t,
{
    match t {
        Tree::Integer(_) => true,
        Tree::ByteString(_) => true,
        Tree::List(items) => forall|i: int| 0 <= i < items.len() ==> sorted_keys(#[trigger] items[i]),
        Tree::Dictionary(entries) => ascending(entry_keys(entries)) && forall|i: int|
            0 <= i < entries.len() ==> sorted_keys((#[trigger] entries[i]).1),
    }
}

/// Every integer in the tree fits in 64 bits.
pub open spec fn ints_fit(t: Tree) -> bool
    decreases t,
{
    match t {
        Tree::Integer(n) => i64::MIN <= n <= i64::MAX,
        Tree::ByteString(_) => true,
        Tree::List(items) => forall|i: int| 0 <= i < items.len() ==> ints_fit(#[trigger] items[i]),
        Tree::Dictionary(entries) => forall|i: int|
            0 <= i < entries.len() ==> ints_fit((#[trigger] entries[i]).1),
    }
}

/// Lists and dictionaries are nested at most `depth` deep.
pub open spec fn fits_depth(t: Tree, depth: nat) -> bool
    decreases t,
{
    match t {
        Tree::Integer(_) => true,
        Tree::ByteString(_) => true,
        Tree::List(items) => depth > 0 && forall|i: int|
            0 <= i < items.len() ==> fits_depth(#[trigger] items[i], (depth - 1) as nat),
        Tree::Dictionary(entries) => depth > 0 && forall|i: int|
            0 <= i < entries.len() ==> fits_depth((#[trigger] entries[i]).1, (depth - 1) as nat),
    }
}

/// The integers of a value in memory fit in 64 bits.
pub proof fn lemma_view_ints_fit(v: Value)
    ensures
        ints_fit(v@),
    decreases v,
{
    match v {
        Value::Integer(n) => {
            assert(v@ == Tree::Integer(n as int));
        },
        Value::ByteString(b) => {
            assert(v@ == Tree::ByteString(b@));
        },
        Value::List(items) => {
            assert(v@ == Tree::List(list_view(items@)));
            assert forall|i: int| 0 <= i < items@.len() implies ints_fit(#[trigger] list_view(items@)[i]) by {
                lemma_view_ints_fit(items@[i]);
            }
        },
        Value::Dictionary(entries) => {
            assert(v@ == Tree::Dictionary(entries_view(entries@)));
            assert forall|i: int| 0 <= i < entries@.len() implies ints_fit(
                (#[trigger] entries_view(entries@)[i]).1,
            ) by {
                lemma_view_ints_fit(entries@[i].1);
            }
        },
    }
}

} // verus!
