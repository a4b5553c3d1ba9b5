//! Byte-string helpers: lexicographic order, equality and copying.

use vstd::prelude::*;

verus! {

/// Outcome of comparing two byte strings.
#[derive(Clone, Copy, Debug, PartialEq, Eq, Structural)]
pub enum ByteOrder {
    /// The first string sorts before the second.
    Less,
    /// Both strings hold the same bytes.
    Equal,
    /// The first string sorts after the second.
    Greater,
}

/// Lexicographic order of byte strings, a proper prefix sorting first.
pub open spec fn lex(a: Seq<u8>, b: Seq<u8>) -> ByteOrder
    decreases a.len(),
{
    if a.len() == 0 {
        if b.len() == 0 {
            ByteOrder::Equal
        } else {
            ByteOrder::Less
        }
    } else if b.len() == 0 {
        ByteOrder::Greater
    } else if a[0] < b[0] {
        ByteOrder::Less
    } else if a[0] > b[0] {
        ByteOrder::Greater
    } else {
        lex(a.drop_first(), b.drop_first())
    }
}

/// Two byte strings compare `Equal` exactly when they are the same string.
pub proof fn lemma_lex_equal(a: Seq<u8>, b: Seq<u8>)
    ensures
        (lex(a, b) == ByteOrder::Equal) <==> (a == b),
    decreases a.len(),
{
    if a.len() != 0 && b.len() != 0 && a[0] == b[0] {
        lemma_lex_equal(a.drop_first(), b.drop_first());
        if a.drop_first() == b.drop_first() {
            assert(a =~= seq![a[0]] + a.drop_first());
            assert(b =~= seq![b[0]] + b.drop_first());
        }
        if a == b {
            assert(a.drop_first() =~= b.drop_first());
        }
    }
    if a.len() == 0 && b.len() == 0 {
        assert(a =~= b);
    }
}

/// Swapping the arguments mirrors the order.
pub proof fn lemma_lex_antisymmetric(a: Seq<u8>, b: Seq<u8>)
    ensures
        lex(a, b) == ByteOrder::Less <==> lex(b, a) == ByteOrder::Greater,
        lex(a, b) == ByteOrder::Equal <==> lex(b, a) == ByteOrder::Equal,
    decreases a.len(),
{
    if a.len() != 0 && b.len() != 0 && a[0] == b[0] {
        lemma_lex_antisymmetric(a.drop_first(), b.drop_first());
    }
}

/// Strict lexicographic order is transitive.
pub proof fn lemma_lex_transitive(a: Seq<u8>, b: Seq<u8>, c: Seq<u8>)
    requires
        lex(a, b) == ByteOrder::Less,
        lex(b, c) == ByteOrder::Less,
    ensures
        lex(a, c) == ByteOrder::Less,
    decreases a.len(),
{
    if a.len() != 0 && b.len() != 0 && c.len() != 0 && a[0] == b[0] && b[0] == c[0] {
        lemma_lex_transitive(a.drop_first(), b.drop_first(), c.drop_first());
    }
}

/// Compares two byte strings lexicographically.
pub fn compare_bytes(a: &[u8], b: &[u8]) -> (r: ByteOrder)
    ensures
        r == lex(a@, b@),
{
    let mut i: usize = 0;
    assert(a@.skip(0) =~= a@);
    assert(b@.skip(0) =~= b@);
    while i < a.len() && i < b.len()
        invariant
            i <= a@.len(),
            i <= b@.len(),
            lex(a@, b@) == lex(a@.skip(i as int), b@.skip(i as int)),
        decreases a.len() - i,
    {
        if a[i] < b[i] {
            return ByteOrder::Less;
        }
        if a[i] > b[i] {
            return ByteOrder::Greater;
        }
        assert(a@.skip(i as int).drop_first() =~= a@.skip(i + 1));
        assert(b@.skip(i as int).drop_first() =~= b@.skip(i + 1));
        i = i + 1;
    }
    if i < b.len() {
        ByteOrder::Less
    } else if i < a.len() {
        ByteOrder::Greater
    } else {
        ByteOrder::Equal
    }
}

/// Returns whether two byte strings hold the same bytes.
pub fn bytes_equal(a: &[u8], b: &[u8]) -> (r: bool)
    ensures
        r == (a@ == b@),
{
    proof {
        lemma_lex_equal(a@, b@);
    }
    compare_bytes(a, b) == ByteOrder::Equal
}

/// Copies `input[start..end]` into a new vector.
pub fn copy_range(input: &[u8], start: usize, end: usize) -> (r: Vec<u8>)
    requires
        start <= end <= input@.len(),
    ensures
        r@ == input@.subrange(start as int, end as int),
{
    let mut out: Vec<u8> = Vec::with_capacity(end - start);
    let mut i = start;
    while i < end
        invariant
            start <= i <= end <= input@.len(),
            out@ == input@.subrange(start as int, i as int),
        decreases end - i,
    {
        out.push(input[i]);
        assert(out@ =~= input@.subrange(start as int, i + 1));
        i = i + 1;
    }
    out
}

/// Appends every byte of `tail` to `out`.
pub fn append_bytes(out: &mut Vec<u8>, tail: &[u8])
    ensures
        final(out)@ == old(out)@ + tail@,
{
    let ghost start = out@;
    let mut i: usize = 0;
    while i < tail.len()
        invariant
            i <= tail@.len(),
            out@ == start + tail@.take(i as int),
        decreases tail.len() - i,
    {
        out.push(tail[i]);
        assert(tail@.take(i + 1) =~= tail@.take(i as int).push(tail@[i as int]));
        assert(out@ =~= start + tail@.take(i + 1));
        i = i + 1;
    }
    assert(tail@.take(tail@.len() as int) =~= tail@);
}

} // verus!
