//! Canonical order: sorting entries by a byte key and collecting identity
//! sets in ascending order.

use vstd::prelude::*;

use crate::bytes::{compare_bytes, lemma_lex_antisymmetric, lemma_lex_equal, lemma_lex_transitive, lex, ByteOrder};
use crate::digest::digests_view;

verus! {

broadcast use vstd::seq_lib::group_to_multiset_ensures;

/// An entry with a byte key that orders it.
pub trait ByteKey: Sized {
    /// The key, as bytes.
    spec fn sort_key(&self) -> Seq<u8>;

    /// Computes the key.
    fn sort_key_bytes(&self) -> (r: Vec<u8>)
        ensures
            r@ == self.sort_key();
}

/// Keys strictly ascend.
pub open spec fn keys_ascending<T: ByteKey>(s: Seq<T>) -> bool {
    forall|i: int, j: int|
        0 <= i < j < s.len() ==> lex(#[trigger] s[i].sort_key(), #[trigger] s[j].sort_key())
            == ByteOrder::Less
}

/// No two entries share a key.
pub open spec fn keys_distinct<T: ByteKey>(s: Seq<T>) -> bool {
    forall|i: int, j: int|
        0 <= i < s.len() && 0 <= j < s.len() && i != j ==> #[trigger] s[i].sort_key()
            != #[trigger] s[j].sort_key()
}

/// Returns whether two entries share a key.
pub fn has_duplicate_keys<T: ByteKey>(items: &Vec<T>) -> (r: bool)
    ensures
        r == !keys_distinct(items@),
{
    let mut i: usize = 0;
    while i < items.len()
        invariant
            i <= items@.len(),
            forall|a: int, b: int|
                0 <= a < i && 0 <= b < items@.len() && a != b ==> #[trigger] items@[a].sort_key()
                    != #[trigger] items@[b].sort_key(),
        decreases items.len() - i,
    {
        let ki = items[i].sort_key_bytes();
        let mut j: usize = 0;
        while j < items.len()
            invariant
                i < items@.len(),
                j <= items@.len(),
                ki@ == items@[i as int].sort_key(),
                forall|a: int, b: int|
                    0 <= a < i && 0 <= b < items@.len() && a != b ==> #[trigger] items@[a].sort_key()
                        != #[trigger] items@[b].sort_key(),
                forall|b: int|
                    0 <= b < j && b != i ==> items@[i as int].sort_key() != #[trigger] items@[b].sort_key(),
            decreases items.len() - j,
        {
            if j != i {
                let kj = items[j].sort_key_bytes();
                proof {
                    lemma_lex_equal(ki@, kj@);
                }
                if compare_bytes(ki.as_slice(), kj.as_slice()) == ByteOrder::Equal {
                    return true;
                }
            }
            j = j + 1;
        }
        proof {
            assert forall|a: int, b: int|
                0 <= a < i + 1 && 0 <= b < items@.len() && a != b implies #[trigger] items@[a].sort_key()
                    != #[trigger] items@[b].sort_key() by {
                if a == i {
                    assert(items@[i as int].sort_key() != items@[b].sort_key());
                }
            }
        }
        i = i + 1;
    }
    false
}

proof fn lemma_after_insert<T: ByteKey>(old: Seq<T>, p: int, x: T)
    requires
        0 <= p <= old.len(),
        keys_ascending(old),
        forall|i: int| 0 <= i < p ==> lex(#[trigger] old[i].sort_key(), x.sort_key()) == ByteOrder::Less,
        p < old.len() ==> lex(x.sort_key(), old[p].sort_key()) == ByteOrder::Less,
    ensures
        keys_ascending(old.insert(p, x)),
{
    let s = old.insert(p, x);
    assert forall|i: int, j: int| 0 <= i < j < s.len() implies lex(
        #[trigger] s[i].sort_key(),
        #[trigger] s[j].sort_key(),
    ) == ByteOrder::Less by {
        if j < p {
            assert(s[i] == old[i] && s[j] == old[j]);
        } else if j == p {
            assert(s[i] == old[i] && s[j] == x);
        } else if i < p {
            assert(s[i] == old[i] && s[j] == old[j - 1]);
            if j - 1 > i {
                assert(lex(old[i].sort_key(), old[j - 1].sort_key()) == ByteOrder::Less);
            }
        } else if i == p {
            assert(s[i] == x && s[j] == old[j - 1]);
            if j - 1 > p {
                assert(lex(old[p].sort_key(), old[j - 1].sort_key()) == ByteOrder::Less);
                lemma_lex_transitive(x.sort_key(), old[p].sort_key(), old[j - 1].sort_key());
            }
        } else {
            assert(s[i] == old[i - 1] && s[j] == old[j - 1]);
        }
    }
}

/// Sorts entries whose keys are distinct into strictly ascending key order.
pub fn sort_by_key<T: ByteKey>(items: Vec<T>) -> (r: Vec<T>)
    requires
        keys_distinct(items@),
    ensures
        keys_ascending(r@),
        r@.to_multiset() == items@.to_multiset(),
{
    let ghost original = items@;
    let ghost n = items@.len();
    let mut rest = items;
    let mut out: Vec<T> = Vec::new();
    proof {
        assert(original.skip(n as int) =~= Seq::<T>::empty());
        assert(rest@ =~= original.take(n as int));
    }
    while rest.len() > 0
        invariant
            rest@.len() <= n,
            n == original.len(),
            keys_distinct(original),
            rest@ == original.take(rest@.len() as int),
            out@.to_multiset() == original.skip(rest@.len() as int).to_multiset(),
            keys_ascending(out@),
        decreases rest@.len(),
    {
        let ghost k = rest@.len() - 1;
        let x = rest.pop().unwrap();
        proof {
            assert(x == original[k]);
            assert(rest@ =~= original.take(k));
        }
        let kx = x.sort_key_bytes();
        let mut p: usize = 0;
        while p < out.len()
            invariant
                p <= out@.len(),
                kx@ == x.sort_key(),
                forall|i: int| 0 <= i < p ==> lex(#[trigger] out@[i].sort_key(), x.sort_key()) == ByteOrder::Less,
            ensures
                p <= out@.len(),
                forall|i: int| 0 <= i < p ==> lex(#[trigger] out@[i].sort_key(), x.sort_key()) == ByteOrder::Less,
                p < out@.len() ==> lex(out@[p as int].sort_key(), x.sort_key()) != ByteOrder::Less,
            decreases out.len() - p,
        {
            let kp = out[p].sort_key_bytes();
            assert(out@[p as int].sort_key() == kp@);
            if compare_bytes(kp.as_slice(), kx.as_slice()) != ByteOrder::Less {
                break;
            }
            p = p + 1;
        }
        proof {
            if p < out@.len() {
                let y = out@[p as int];
                assert(out@.to_multiset().count(y) > 0);
                assert(original.skip(k + 1).contains(y));
                let tail = original.skip(k + 1);
                let j = choose|j: int| 0 <= j < tail.len() && #[trigger] tail[j] == y;
                assert(original[k + 1 + j] == y);
                assert(original[k].sort_key() != original[k + 1 + j].sort_key());
                lemma_lex_equal(y.sort_key(), x.sort_key());
                lemma_lex_antisymmetric(y.sort_key(), x.sort_key());
            }
            lemma_after_insert(out@, p as int, x);
        }
        let ghost before = out@;
        out.insert(p, x);
        proof {
            assert(out@ == before.insert(p as int, x));
            assert(original.skip(k) =~= original.skip(k + 1).insert(0, x));
        }
    }
    proof {
        assert(original.skip(0) =~= original);
    }
    out
}

/// Identities strictly ascend.
pub open spec fn ids_ascending(s: Seq<Seq<u8>>) -> bool {
    forall|i: int, j: int| 0 <= i < j < s.len() ==> lex(#[trigger] s[i], #[trigger] s[j]) == ByteOrder::Less
}

/// Collects identities into a strictly ascending list holding each of them
/// once.
pub fn sorted_set(ids: &Vec<[u8; 32]>) -> (r: Vec<[u8; 32]>)
    ensures
        ids_ascending(digests_view(r@)),
        forall|x: Seq<u8>| digests_view(r@).contains(x) <==> digests_view(ids@).contains(x),
{
    let ghost src = digests_view(ids@);
    let mut out: Vec<[u8; 32]> = Vec::new();
    let mut k: usize = 0;
    while k < ids.len()
        invariant
            k <= ids@.len(),
            src == digests_view(ids@),
            ids_ascending(digests_view(out@)),
            forall|x: Seq<u8>| digests_view(out@).contains(x) <==> src.take(k as int).contains(x),
        decreases ids.len() - k,
    {
        let x = ids[k];
        let ghost ov = digests_view(out@);
        let mut p: usize = 0;
        while p < out.len()
            invariant
                p <= out@.len(),
                ov == digests_view(out@),
                forall|i: int| 0 <= i < p ==> lex(#[trigger] ov[i], x@) == ByteOrder::Less,
            ensures
                p <= out@.len(),
                forall|i: int| 0 <= i < p ==> lex(#[trigger] ov[i], x@) == ByteOrder::Less,
                p < out@.len() ==> lex(ov[p as int], x@) != ByteOrder::Less,
            decreases out.len() - p,
        {
            assert(ov[p as int] == out@[p as int]@);
            if compare_bytes(out[p].as_slice(), x.as_slice()) != ByteOrder::Less {
                break;
            }
            p = p + 1;
        }
        proof {
            assert(src.take(k + 1) =~= src.take(k as int).push(x@));
        }
        let equal = p < out.len() && compare_bytes(out[p].as_slice(), x.as_slice()) == ByteOrder::Equal;
        if equal {
            proof {
                lemma_lex_equal(ov[p as int], x@);
                assert forall|y: Seq<u8>| ov.contains(y) <==> src.take(k + 1).contains(y) by {
                    if src.take(k + 1).contains(y) {
                        let pre = src.take(k + 1);
                        let j = choose|j: int| 0 <= j < pre.len() && #[trigger] pre[j] == y;
                        if j < k {
                            assert(src.take(k as int)[j] == y);
                        } else {
                            assert(ov[p as int] == y);
                        }
                    }
                    if ov.contains(y) {
                        assert(src.take(k as int).contains(y));
                        let pre = src.take(k as int);
                        let j = choose|j: int| 0 <= j < pre.len() && #[trigger] pre[j] == y;
                        assert(src.take(k + 1)[j] == y);
                    }
                }
            }
        } else {
            proof {
                if p < out@.len() {
                    lemma_lex_equal(ov[p as int], x@);
                    lemma_lex_antisymmetric(ov[p as int], x@);
                }
                let s = ov.insert(p as int, x@);
                assert forall|i: int, j: int| 0 <= i < j < s.len() implies lex(#[trigger] s[i], #[trigger] s[j])
                    == ByteOrder::Less by {
                    if j < p {
                        assert(s[i] == ov[i] && s[j] == ov[j]);
                    } else if j == p {
                        assert(s[i] == ov[i] && s[j] == x@);
                    } else if i < p {
                        assert(s[i] == ov[i] && s[j] == ov[j - 1]);
                    } else if i == p {
                        assert(s[i] == x@ && s[j] == ov[j - 1]);
                        if j - 1 > p {
                            lemma_lex_transitive(x@, ov[p as int], ov[j - 1]);
                        }
                    } else {
                        assert(s[i] == ov[i - 1] && s[j] == ov[j - 1]);
                    }
                }
                assert forall|y: Seq<u8>| s.contains(y) <==> src.take(k + 1).contains(y) by {
                    if src.take(k + 1).contains(y) {
                        let pre = src.take(k + 1);
                        let j = choose|j: int| 0 <= j < pre.len() && #[trigger] pre[j] == y;
                        if j < k {
                            assert(src.take(k as int)[j] == y);
                            assert(ov.contains(y));
                            let m = choose|m: int| 0 <= m < ov.len() && ov[m] == y;
                            if m < p {
                                assert(s[m] == y);
                            } else {
                                assert(s[m + 1] == y);
                            }
                        } else {
                            assert(s[p as int] == y);
                        }
                    }
                    if s.contains(y) {
                        let m = choose|m: int| 0 <= m < s.len() && s[m] == y;
                        if m < p {
                            assert(ov[m] == y);
                        } else if m > p {
                            assert(ov[m - 1] == y);
                        }
                        if y != x@ {
                            assert(ov.contains(y));
                            assert(src.take(k as int).contains(y));
                            let pre = src.take(k as int);
                        let j = choose|j: int| 0 <= j < pre.len() && #[trigger] pre[j] == y;
                            assert(src.take(k + 1)[j] == y);
                        } else {
                            assert(src.take(k + 1)[k as int] == y);
                        }
                    }
                }
            }
            out.insert(p, x);
            proof {
                assert(digests_view(out@) =~= ov.insert(p as int, x@));
            }
        }
        k = k + 1;
    }
    assert(src.take(k as int) =~= src);
    out
}

} // verus!
