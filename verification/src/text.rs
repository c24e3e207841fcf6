//! Decimal text of integers and the byte-wise order on strings.

use vstd::prelude::*;

verus! {

/// ASCII `0` to `9`.
pub open spec fn is_digit(b: u8) -> bool {
    0x30 <= b <= 0x39
}

/// Every byte is an ASCII digit.
pub open spec fn all_digits(d: Seq<u8>) -> bool {
    forall|i: int| 0 <= i < d.len() ==> is_digit(#[trigger] d[i])
}

/// The number that a run of decimal digits denotes; the empty run denotes 0.
pub open spec fn digits_value(d: Seq<u8>) -> nat
    decreases d.len(),
{
    if d.len() == 0 {
        0
    } else {
        (digits_value(d.drop_last()) * 10 + (d.last() - 0x30)) as nat
    }
}

/// A digit run with no redundant leading zero.
pub open spec fn canonical_digits(d: Seq<u8>) -> bool {
    &&& d.len() >= 1
    &&& all_digits(d)
    &&& (d.len() == 1 || d[0] != 0x30)
}

/// Decimal text of a natural number, without leading zeros.
pub open spec fn nat_text(n: nat) -> Seq<u8>
    decreases n,
{
    if n < 10 {
        seq![(0x30 + n) as u8]
    } else {
        nat_text(n / 10).push((0x30 + n % 10) as u8)
    }
}

/// Decimal text of an integer: a `-` before the digits of a negative one.
pub open spec fn int_text(n: int) -> Seq<u8> {
    if n < 0 {
        seq![0x2du8] + nat_text((-n) as nat)
    } else {
        nat_text(n as nat)
    }
}

/// Text that `int_text` can produce: canonical digits, or `-` and canonical
/// digits other than `0`.
pub open spec fn canonical_int_text(t: Seq<u8>) -> bool {
    if t.len() > 0 && t[0] == 0x2d {
        canonical_digits(t.skip(1)) && t.skip(1) != seq![0x30u8]
    } else {
        canonical_digits(t)
    }
}

/// The integer that a canonical text denotes.
pub open spec fn int_of_text(t: Seq<u8>) -> int {
    if t.len() > 0 && t[0] == 0x2d {
        -(digits_value(t.skip(1)) as int)
    } else {
        digits_value(t) as int
    }
}

/// First index at or after `from` that holds `b`, or the length of `s` where
/// none does.
pub open spec fn find_byte(s: Seq<u8>, from: int, b: u8) -> int
    decreases s.len() - from,
{
    if 0 <= from < s.len() && s[from] != b {
        find_byte(s, from + 1, b)
    } else {
        from
    }
}

/// `nat_text` yields canonical digits that denote the number.
pub proof fn lemma_nat_text(n: nat)
    ensures
        canonical_digits(nat_text(n)),
        digits_value(nat_text(n)) == n,
        n > 0 ==> nat_text(n)[0] != 0x30,
    decreases n,
{
    if n < 10 {
        let t = nat_text(n);
        assert(t.drop_last() =~= Seq::<u8>::empty());
        assert(digits_value(t.drop_last()) == 0);
    } else {
        lemma_nat_text(n / 10);
        let p = nat_text(n / 10);
        let t = nat_text(n);
        assert(t.drop_last() =~= p);
        assert(t[0] == p[0]);
    }
}

/// Canonical digits are the text of the number they denote.
pub proof fn lemma_text_of_digits(d: Seq<u8>)
    requires
        canonical_digits(d),
    ensures
        nat_text(digits_value(d)) == d,
        d[0] != 0x30 ==> digits_value(d) > 0,
    decreases d.len(),
{
    if d.len() == 1 {
        assert(d.drop_last() =~= Seq::<u8>::empty());
        assert(digits_value(d.drop_last()) == 0);
        assert(nat_text(digits_value(d)) =~= d);
    } else {
        let p = d.drop_last();
        assert(p[0] == d[0]);
        assert(canonical_digits(p)) by {
            assert forall|i: int| 0 <= i < p.len() implies is_digit(#[trigger] p[i]) by {
                assert(p[i] == d[i]);
            }
            if p.len() > 1 {
                assert(p[0] != 0x30);
            }
        }
        lemma_text_of_digits(p);
        let v = digits_value(p);
        assert(v > 0);
        let n = digits_value(d);
        assert(n == v * 10 + (d.last() - 0x30));
        assert(n / 10 == v && n % 10 == d.last() - 0x30);
        assert(nat_text(n) =~= d);
    }
}

/// The value of an integer's text is the integer, and the text is canonical.
pub proof fn lemma_int_text(n: int)
    ensures
        canonical_int_text(int_text(n)),
        int_of_text(int_text(n)) == n,
{
    if n < 0 {
        let m = (-n) as nat;
        lemma_nat_text(m);
        let t = int_text(n);
        assert(t.skip(1) =~= nat_text(m));
        assert(t[0] == 0x2d);
        assert(nat_text(m)[0] != 0x30);
    } else {
        lemma_nat_text(n as nat);
        assert(nat_text(n as nat)[0] != 0x2d);
    }
}

/// A canonical text is the text of the integer it denotes.
pub proof fn lemma_text_of_int(t: Seq<u8>)
    requires
        canonical_int_text(t),
    ensures
        int_text(int_of_text(t)) == t,
{
    if t.len() > 0 && t[0] == 0x2d {
        let d = t.skip(1);
        lemma_text_of_digits(d);
        if d[0] == 0x30 {
            assert(d.len() == 1);
            assert(d =~= seq![0x30u8]);
        }
        assert(digits_value(d) > 0);
        assert(seq![0x2du8] + d =~= t);
    } else {
        lemma_text_of_digits(t);
    }
}

/// What `find_byte` finds: no `b` from `from` up to the result, and `b`
/// there unless the result is the length.
pub proof fn lemma_find_byte(s: Seq<u8>, from: int, b: u8)
    requires
        0 <= from <= s.len(),
    ensures
        from <= find_byte(s, from, b) <= s.len(),
        forall|i: int| from <= i < find_byte(s, from, b) ==> s[i] != b,
        find_byte(s, from, b) < s.len() ==> s[find_byte(s, from, b)] == b,
    decreases s.len() - from,
{
    if from < s.len() && s[from] != b {
        lemma_find_byte(s, from + 1, b);
    }
}

/// `find_byte` stops at `to` when no `b` stands before it and `b` stands at
/// `to`, or `to` is the length.
pub proof fn lemma_find_byte_is(s: Seq<u8>, from: int, to: int, b: u8)
    requires
        0 <= from <= to <= s.len(),
        forall|i: int| from <= i < to ==> s[i] != b,
        to < s.len() ==> s[to] == b,
    ensures
        find_byte(s, from, b) == to,
    decreases to - from,
{
    if from < to {
        lemma_find_byte_is(s, from + 1, to, b);
    }
}

/// A run of digits denotes at least what any of its prefixes denotes.
pub proof fn lemma_digits_value_prefix(d: Seq<u8>, k: int)
    requires
        all_digits(d),
        0 <= k <= d.len(),
    ensures
        digits_value(d.take(k)) <= digits_value(d),
    decreases d.len() - k,
{
    if k == d.len() {
        assert(d.take(k) =~= d);
    } else {
        lemma_digits_value_prefix(d, k + 1);
        lemma_digits_value_step(d, k);
    }
}

/// One more digit: ten times the value so far, plus the digit.
pub proof fn lemma_digits_value_step(d: Seq<u8>, k: int)
    requires
        all_digits(d),
        0 <= k < d.len(),
    ensures
        digits_value(d.take(k + 1)) == digits_value(d.take(k)) * 10 + (d[k] - 0x30),
{
    assert(d.take(k + 1).drop_last() =~= d.take(k));
    assert(d.take(k + 1).last() == d[k]);
}

/// First index at or after `from` that holds `b`, or the length.
pub fn find(input: &[u8], from: usize, b: u8) -> (r: usize)
    requires
        from <= input.len(),
    ensures
        r == find_byte(input@, from as int, b),
        from <= r <= input.len(),
{
    let mut i: usize = from;
    while i < input.len() && input[i] != b
        invariant
            from <= i <= input.len(),
            find_byte(input@, i as int, b) == find_byte(input@, from as int, b),
        decreases input.len() - i,
    {
        i += 1;
    }
    i
}

/// Appends the decimal text of `n`.
pub fn push_decimal(out: &mut Vec<u8>, n: u64)
    ensures
        final(out)@ == old(out)@ + nat_text(n as nat),
    decreases n,
{
    if n >= 10 {
        push_decimal(out, n / 10);
    }
    let digit: u8 = (n % 10) as u8;
    out.push(0x30 + digit);
    assert(final(out)@ =~= old(out)@ + nat_text(n as nat));
}

/// Appends the decimal text of `n`, with its sign.
pub fn push_integer(out: &mut Vec<u8>, n: i64)
    ensures
        final(out)@ == old(out)@ + int_text(n as int),
{
    if n < 0 {
        out.push(0x2d);
        let magnitude: u64 = ((-(n + 1)) as u64) + 1;
        push_decimal(out, magnitude);
        assert(final(out)@ =~= old(out)@ + int_text(n as int));
    } else {
        push_decimal(out, n as u64);
    }
}

/// Whether `a` comes before `b`, given that they agree below index `i`.
pub open spec fn lex_lt_from(a: Seq<u8>, b: Seq<u8>, i: int) -> bool
    decreases a.len() - i,
{
    if i >= b.len() {
        false
    } else if i >= a.len() {
        true
    } else if a[i] != b[i] {
        a[i] < b[i]
    } else {
        lex_lt_from(a, b, i + 1)
    }
}

/// Strict byte-lexicographic order: at the first index where the strings
/// differ the smaller byte decides, and a proper prefix comes first.
pub open spec fn lex_lt(a: Seq<u8>, b: Seq<u8>) -> bool {
    lex_lt_from(a, b, 0)
}

/// Whether `a` sorts strictly before `b`.
pub fn bytes_lt(a: &[u8], b: &[u8]) -> (r: bool)
    ensures
        r == lex_lt(a@, b@),
{
    let mut i: usize = 0;
    while i < a.len() && i < b.len()
        invariant
            i <= a.len(),
            i <= b.len(),
            lex_lt_from(a@, b@, i as int) == lex_lt(a@, b@),
        decreases a.len() - i,
    {
        if a[i] != b[i] {
            return a[i] < b[i];
        }
        i += 1;
    }
    i < b.len()
}

/// Whether the two strings hold the same bytes.
pub fn bytes_eq(a: &[u8], b: &[u8]) -> (r: bool)
    ensures
        r == (a@ == b@),
{
    if a.len() != b.len() {
        return false;
    }
    let mut i: usize = 0;
    while i < a.len()
        invariant
            i <= a.len(),
            a.len() == b.len(),
            a@.take(i as int) == b@.take(i as int),
        decreases a.len() - i,
    {
        if a[i] != b[i] {
            return false;
        }
        assert(a@.take(i + 1) =~= a@.take(i as int).push(a@[i as int]));
        assert(b@.take(i + 1) =~= b@.take(i as int).push(b@[i as int]));
        i += 1;
    }
    assert(a@ =~= a@.take(a.len() as int));
    assert(b@ =~= b@.take(b.len() as int));
    true
}

/// Where two strings first differ, the order is decided there.
proof fn lemma_lex_from(a: Seq<u8>, b: Seq<u8>, i: int, k: int)
    requires
        0 <= i <= k,
        k <= a.len(),
        k <= b.len(),
        forall|j: int| i <= j < k ==> a[j] == b[j],
    ensures
        lex_lt_from(a, b, i) == lex_lt_from(a, b, k),
    decreases k - i,
{
    if i < k {
        lemma_lex_from(a, b, i + 1, k);
    }
}

/// First index at which the strings differ, or the length of the shorter.
pub open spec fn first_difference(a: Seq<u8>, b: Seq<u8>, i: int) -> int
    decreases a.len() - i,
{
    if 0 <= i < a.len() && i < b.len() && a[i] == b[i] {
        first_difference(a, b, i + 1)
    } else {
        i
    }
}

proof fn lemma_first_difference(a: Seq<u8>, b: Seq<u8>, i: int)
    requires
        0 <= i <= a.len(),
        i <= b.len(),
    ensures
        i <= first_difference(a, b, i) <= a.len(),
        first_difference(a, b, i) <= b.len(),
        forall|j: int| i <= j < first_difference(a, b, i) ==> a[j] == b[j],
        first_difference(a, b, i) < a.len() && first_difference(a, b, i) < b.len() ==> a[first_difference(
            a,
            b,
            i,
        )] != b[first_difference(a, b, i)],
        first_difference(a, b, i) == first_difference(b, a, i),
    decreases a.len() - i,
{
    if i < a.len() && i < b.len() && a[i] == b[i] {
        lemma_first_difference(a, b, i + 1);
    }
}

/// A string comes before another where, at the first index at which they
/// differ, it holds the smaller byte.
pub proof fn lemma_lex_decided_at(a: Seq<u8>, b: Seq<u8>, k: int)
    requires
        0 <= k < a.len(),
        k < b.len(),
        forall|j: int| 0 <= j < k ==> a[j] == b[j],
        a[k] < b[k],
    ensures
        lex_lt(a, b),
{
    lemma_lex_from(a, b, 0, k);
}

/// No string comes before itself.
pub proof fn lemma_lex_irreflexive(a: Seq<u8>)
    ensures
        !lex_lt(a, a),
{
    lemma_lex_from(a, a, 0, a.len() as int);
}

/// Of two strings at most one comes before the other.
pub proof fn lemma_lex_asymmetric(a: Seq<u8>, b: Seq<u8>)
    ensures
        !(lex_lt(a, b) && lex_lt(b, a)),
{
    lemma_first_difference(a, b, 0);
    let k = first_difference(a, b, 0);
    lemma_lex_from(a, b, 0, k);
    lemma_lex_from(b, a, 0, k);
}

/// Of two different strings one comes before the other.
pub proof fn lemma_lex_total(a: Seq<u8>, b: Seq<u8>)
    ensures
        a == b || lex_lt(a, b) || lex_lt(b, a),
{
    lemma_first_difference(a, b, 0);
    let k = first_difference(a, b, 0);
    lemma_lex_from(a, b, 0, k);
    lemma_lex_from(b, a, 0, k);
    if k == a.len() && k == b.len() {
        assert(a =~= b);
    }
}

/// "Not after" is transitive: if `b` is not before `a` and `c` is not
/// before `b`, then `c` is not before `a`.
pub proof fn lemma_lex_not_before(a: Seq<u8>, b: Seq<u8>, c: Seq<u8>)
    requires
        !lex_lt(b, a),
        !lex_lt(c, b),
    ensures
        !lex_lt(c, a),
{
    if lex_lt(c, a) {
        lemma_lex_total(a, b);
        if a != b {
            lemma_lex_transitive(c, a, b);
        }
    }
}

/// The order is transitive.
pub proof fn lemma_lex_transitive(a: Seq<u8>, b: Seq<u8>, c: Seq<u8>)
    requires
        lex_lt(a, b),
        lex_lt(b, c),
    ensures
        lex_lt(a, c),
{
    lemma_first_difference(a, b, 0);
    lemma_first_difference(b, c, 0);
    let k1 = first_difference(a, b, 0);
    let k2 = first_difference(b, c, 0);
    lemma_lex_from(a, b, 0, k1);
    lemma_lex_from(b, c, 0, k2);
    let k = if k1 <= k2 { k1 } else { k2 };
    assert(k <= a.len() && k <= c.len());
    assert forall|j: int| 0 <= j < k implies a[j] == c[j] by {
        assert(a[j] == b[j]);
        assert(b[j] == c[j]);
    }
    lemma_lex_from(a, c, 0, k);
}

/// The bytes of `input` from `from` up to `to`.
pub fn copy_range(input: &[u8], from: usize, to: usize) -> (out: Vec<u8>)
    requires
        from <= to <= input.len(),
    ensures
        out@ == input@.subrange(from as int, to as int),
{
    let mut out: Vec<u8> = Vec::new();
    let mut i: usize = from;
    while i < to
        invariant
            from <= i <= to,
            to <= input.len(),
            out@ == input@.subrange(from as int, i as int),
        decreases to - i,
    {
        out.push(input[i]);
        assert(out@ =~= input@.subrange(from as int, i + 1));
        i += 1;
    }
    out
}

} // verus!
