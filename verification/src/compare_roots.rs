//! Comparing two complete roots: the work budget, identity-set differences,
//! and the relation section as the difference of two direct edge sets.

use vstd::prelude::*;

use crate::bytes::{compare_bytes, lemma_lex_antisymmetric, lemma_lex_equal, lemma_lex_transitive, lex, ByteOrder};
use crate::bytes::bytes_equal;
use crate::compare::{ChangeClass, CompareError, CompareErrorCode, RelationChange, MAX_COMPARE_WORK};
use crate::compare_fields::{changed_fields, entities_pair, field_deltas, field_delta_views, RootEntity, RootEntityView};
use crate::delta::{
    num_compare, num_order, then_order, BodyDelta, BodyView, EntityDelta, EntityView, FieldDelta, FieldView,
    RelationDelta, RelationView,
};
use crate::digest::digests_view;
use crate::gc::contains_id;
use crate::ordered::{ids_ascending, sorted_set};

verus! {

// ---------------------------------------------------------------------------
// The work budget.
// ---------------------------------------------------------------------------

/// Work charged so far by one comparison.
pub struct Work {
    spent: u64,
}

impl Work {
    /// Work charged so far.
    pub closed spec fn spent(&self) -> u64 {
        self.spent
    }

    /// A budget with nothing charged.
    pub fn new() -> (w: Work)
        ensures
            w.spent() == 0,
    {
        Work { spent: 0 }
    }

    /// Work charged so far.
    pub fn total(&self) -> (n: u64)
        ensures
            n == self.spent(),
    {
        self.spent
    }

    /// Charges `amount`: fails with the resource limit once the total would
    /// pass `MAX_COMPARE_WORK`; a total that would overflow is not recorded.
    pub fn charge(&mut self, amount: u64) -> (r: Result<(), CompareError>)
        ensures
            r is Ok <==> old(self).spent() + amount <= MAX_COMPARE_WORK,
            r is Err ==> r == Err::<(), CompareError>(CompareError::Compare(CompareErrorCode::ResourceLimit)),
            old(self).spent() + amount <= u64::MAX ==> final(self).spent() == old(self).spent() + amount,
            old(self).spent() + amount > u64::MAX ==> final(self).spent() == old(self).spent(),
    {
        if amount > u64::MAX - self.spent {
            return Err(CompareError::Compare(CompareErrorCode::ResourceLimit));
        }
        self.spent = self.spent + amount;
        if self.spent > MAX_COMPARE_WORK {
            return Err(CompareError::Compare(CompareErrorCode::ResourceLimit));
        }
        Ok(())
    }
}

// ---------------------------------------------------------------------------
// Identity-set differences.
// ---------------------------------------------------------------------------

/// The identities of `from` that `excluded` lacks, ascending, each once.
fn sorted_difference(from: &Vec<[u8; 32]>, excluded: &Vec<[u8; 32]>) -> (r: Vec<[u8; 32]>)
    ensures
        ids_ascending(digests_view(r@)),
        forall|x: Seq<u8>|
            #![trigger digests_view(r@).contains(x)]
            digests_view(r@).contains(x) <==> digests_view(from@).contains(x)
                && !digests_view(excluded@).contains(x),
{
    let s = sorted_set(from);
    let ghost sv = digests_view(s@);
    let mut out: Vec<[u8; 32]> = Vec::new();
    let mut i: usize = 0;
    while i < s.len()
        invariant
            i <= s@.len(),
            sv == digests_view(s@),
            ids_ascending(sv),
            ids_ascending(digests_view(out@)),
            forall|k: int|
                #![trigger out@[k]]
                0 <= k < out@.len() ==> exists|j: int| 0 <= j < i && #[trigger] sv[j] == out@[k]@,
            forall|x: Seq<u8>|
                #![trigger digests_view(out@).contains(x)]
                digests_view(out@).contains(x) <==> sv.take(i as int).contains(x)
                    && !digests_view(excluded@).contains(x),
        decreases s.len() - i,
    {
        let x = s[i];
        let ghost ov = digests_view(out@);
        assert(sv[i as int] == x@);
        assert(sv.take(i + 1) =~= sv.take(i as int).push(x@));
        if !contains_id(excluded, &x) {
            proof {
                assert forall|k: int| 0 <= k < ov.len() implies lex(#[trigger] ov[k], x@) == ByteOrder::Less by {
                    assert(ov[k] == out@[k]@);
                    let j = choose|j: int| 0 <= j < i && #[trigger] sv[j] == out@[k]@;
                    assert(lex(sv[j], sv[i as int]) == ByteOrder::Less);
                }
            }
            out.push(x);
            proof {
                let nv = digests_view(out@);
                assert(nv =~= ov.push(x@));
                assert forall|a: int, b: int| 0 <= a < b < nv.len() implies lex(#[trigger] nv[a], #[trigger] nv[b])
                    == ByteOrder::Less by {
                    if b < ov.len() {
                        assert(nv[a] == ov[a] && nv[b] == ov[b]);
                    } else {
                        assert(nv[a] == ov[a]);
                    }
                }
                assert forall|k: int| #![trigger out@[k]] 0 <= k < out@.len() implies exists|j: int|
                    0 <= j < i + 1 && #[trigger] sv[j] == out@[k]@ by {
                    if k < ov.len() {
                        let j = choose|j: int| 0 <= j < i && #[trigger] sv[j] == out@[k]@;
                        assert(sv[j] == out@[k]@);
                    } else {
                        assert(sv[i as int] == out@[k]@);
                    }
                }
                assert forall|y: Seq<u8>| #[trigger] nv.contains(y) <==> sv.take(i + 1).contains(y)
                    && !digests_view(excluded@).contains(y) by {
                    let pre = sv.take(i + 1);
                    if y == x@ {
                        assert(pre[i as int] == y);
                        assert(nv[ov.len() as int] == y);
                    } else {
                        if nv.contains(y) {
                            let m = choose|m: int| 0 <= m < nv.len() && nv[m] == y;
                            assert(ov[m] == y);
                            assert(ov.contains(y));
                            assert(sv.take(i as int).contains(y));
                            let q = choose|q: int| 0 <= q < i && sv.take(i as int)[q] == y;
                            assert(pre[q] == y);
                        }
                        if pre.contains(y) && !digests_view(excluded@).contains(y) {
                            let m = choose|m: int| 0 <= m < pre.len() && pre[m] == y;
                            assert(m != i);
                            assert(sv.take(i as int)[m] == y);
                            assert(sv.take(i as int).contains(y));
                            assert(ov.contains(y));
                            let q = choose|q: int| 0 <= q < ov.len() && ov[q] == y;
                            assert(nv[q] == y);
                        }
                    }
                }
            }
        } else {
            proof {
                assert forall|y: Seq<u8>| #[trigger] ov.contains(y) <==> sv.take(i + 1).contains(y)
                    && !digests_view(excluded@).contains(y) by {
                    if sv.take(i + 1).contains(y) && !digests_view(excluded@).contains(y) {
                        let pre = sv.take(i + 1);
                        let m = choose|m: int| 0 <= m < pre.len() && pre[m] == y;
                        if m < i {
                            assert(sv.take(i as int)[m] == y);
                        }
                    }
                    if ov.contains(y) {
                        assert(sv.take(i as int).contains(y));
                        let pre = sv.take(i as int);
                        let m = choose|m: int| 0 <= m < pre.len() && pre[m] == y;
                        assert(sv.take(i + 1)[m] == y);
                    }
                }
            }
        }
        i = i + 1;
    }
    proof {
        assert(sv.take(i as int) =~= sv);
    }
    out
}

/// `r` lists, ascending and once each, the identities of `from` that
/// `excluded` lacks.
pub open spec fn is_difference(r: Seq<Seq<u8>>, from: Seq<Seq<u8>>, excluded: Seq<Seq<u8>>) -> bool {
    &&& ids_ascending(r)
    &&& forall|x: Seq<u8>| #![trigger r.contains(x)] r.contains(x) <==> from.contains(x) && !excluded.contains(x)
}

/// The identities of `from` that `excluded` lacks, ascending, each once.
pub open spec fn difference(from: Seq<Seq<u8>>, excluded: Seq<Seq<u8>>) -> Seq<Seq<u8>> {
    choose|r: Seq<Seq<u8>>| is_difference(r, from, excluded)
}

/// Two strictly ascending lists with the same members are the same list.
pub proof fn lemma_ascending_unique(a: Seq<Seq<u8>>, b: Seq<Seq<u8>>)
    requires
        ids_ascending(a),
        ids_ascending(b),
        forall|x: Seq<u8>| a.contains(x) <==> b.contains(x),
    ensures
        a == b,
    decreases a.len(),
{
    if a.len() == 0 {
        if b.len() > 0 {
            assert(b.contains(b[0]));
        }
        assert(a =~= b);
    } else {
        assert(a.contains(a[0]));
        assert(b.contains(a[0]));
        assert(b.len() > 0);
        assert(b.contains(b[0]));
        assert(a.contains(b[0]));
        let j = choose|j: int| 0 <= j < a.len() && a[j] == b[0];
        let k = choose|k: int| 0 <= k < b.len() && b[k] == a[0];
        if j > 0 && k > 0 {
            assert(lex(a[0], a[j]) == ByteOrder::Less);
            assert(lex(b[0], b[k]) == ByteOrder::Less);
            lemma_lex_antisymmetric(a[0], b[0]);
        }
        if j > 0 && k == 0 {
            assert(lex(a[0], a[j]) == ByteOrder::Less);
            lemma_lex_equal(a[0], a[j]);
        }
        if j == 0 && k > 0 {
            assert(lex(b[0], b[k]) == ByteOrder::Less);
            lemma_lex_equal(b[0], b[k]);
        }
        assert(a[0] == b[0]);
        let at = a.drop_first();
        let bt = b.drop_first();
        assert forall|x: Seq<u8>| at.contains(x) <==> bt.contains(x) by {
            if at.contains(x) {
                let p = choose|p: int| 0 <= p < at.len() && at[p] == x;
                assert(a[p + 1] == x);
                assert(lex(a[0], a[p + 1]) == ByteOrder::Less);
                lemma_lex_equal(a[0], x);
                assert(b.contains(x));
                let q = choose|q: int| 0 <= q < b.len() && b[q] == x;
                assert(q != 0);
                assert(bt[q - 1] == x);
            }
            if bt.contains(x) {
                let p = choose|p: int| 0 <= p < bt.len() && bt[p] == x;
                assert(b[p + 1] == x);
                assert(lex(b[0], b[p + 1]) == ByteOrder::Less);
                lemma_lex_equal(b[0], x);
                assert(a.contains(x));
                let q = choose|q: int| 0 <= q < a.len() && a[q] == x;
                assert(q != 0);
                assert(at[q - 1] == x);
            }
        }
        assert forall|i: int, j2: int| 0 <= i < j2 < at.len() implies lex(#[trigger] at[i], #[trigger] at[j2])
            == ByteOrder::Less by {
            assert(at[i] == a[i + 1] && at[j2] == a[j2 + 1]);
        }
        assert forall|i: int, j2: int| 0 <= i < j2 < bt.len() implies lex(#[trigger] bt[i], #[trigger] bt[j2])
            == ByteOrder::Less by {
            assert(bt[i] == b[i + 1] && bt[j2] == b[j2 + 1]);
        }
        lemma_ascending_unique(at, bt);
        assert(a =~= seq![a[0]] + at);
        assert(b =~= seq![b[0]] + bt);
    }
}

/// Where `x` goes in an ascending list that lacks it: after every smaller
/// member, before every greater one.
proof fn lemma_insert_point(t: Seq<Seq<u8>>, x: Seq<u8>) -> (p: int)
    requires
        ids_ascending(t),
        !t.contains(x),
    ensures
        0 <= p <= t.len(),
        forall|k: int| 0 <= k < p ==> lex(#[trigger] t[k], x) == ByteOrder::Less,
        p < t.len() ==> lex(x, t[p]) == ByteOrder::Less,
    decreases t.len(),
{
    if t.len() == 0 {
        0
    } else {
        let l = t.last();
        lemma_lex_equal(l, x);
        lemma_lex_antisymmetric(l, x);
        if lex(l, x) == ByteOrder::Less {
            assert forall|k: int| 0 <= k < t.len() implies lex(#[trigger] t[k], x) == ByteOrder::Less by {
                if k < t.len() - 1 {
                    assert(lex(t[k], t[t.len() - 1]) == ByteOrder::Less);
                    lemma_lex_transitive(t[k], l, x);
                }
            }
            t.len() as int
        } else {
            assert(l != x);
            let u = t.drop_last();
            assert forall|i: int, j: int| 0 <= i < j < u.len() implies lex(#[trigger] u[i], #[trigger] u[j])
                == ByteOrder::Less by {
                assert(u[i] == t[i] && u[j] == t[j]);
            }
            if u.contains(x) {
                let k = choose|k: int| 0 <= k < u.len() && u[k] == x;
                assert(t[k] == x);
            }
            let p = lemma_insert_point(u, x);
            assert forall|k: int| 0 <= k < p implies lex(#[trigger] t[k], x) == ByteOrder::Less by {
                assert(t[k] == u[k]);
            }
            if p < u.len() {
                assert(t[p] == u[p]);
            }
            p
        }
    }
}

/// An ascending list of the members of `s` that `excluded` lacks, each once.
proof fn difference_witness(s: Seq<Seq<u8>>, excluded: Seq<Seq<u8>>) -> (w: Seq<Seq<u8>>)
    ensures
        is_difference(w, s, excluded),
    decreases s.len(),
{
    if s.len() == 0 {
        Seq::empty()
    } else {
        let t = difference_witness(s.drop_last(), excluded);
        let x = s.last();
        assert forall|y: Seq<u8>| s.contains(y) <==> s.drop_last().contains(y) || y == x by {
            if s.contains(y) {
                let k = choose|k: int| 0 <= k < s.len() && s[k] == y;
                if k < s.len() - 1 {
                    assert(s.drop_last()[k] == y);
                }
            }
            if s.drop_last().contains(y) {
                let k = choose|k: int| 0 <= k < s.drop_last().len() && s.drop_last()[k] == y;
                assert(s[k] == y);
            }
            if y == x {
                assert(s[s.len() - 1] == y);
            }
        }
        if t.contains(x) || excluded.contains(x) {
            t
        } else {
            let p = lemma_insert_point(t, x);
            let w = t.insert(p, x);
            assert forall|i: int, j: int| 0 <= i < j < w.len() implies lex(#[trigger] w[i], #[trigger] w[j])
                == ByteOrder::Less by {
                if j < p {
                    assert(w[i] == t[i] && w[j] == t[j]);
                } else if j == p {
                    assert(w[i] == t[i]);
                } else if i < p {
                    assert(w[i] == t[i] && w[j] == t[j - 1]);
                } else if i == p {
                    assert(w[j] == t[j - 1]);
                    if j - 1 > p {
                        assert(lex(t[p], t[j - 1]) == ByteOrder::Less);
                        lemma_lex_transitive(x, t[p], t[j - 1]);
                    }
                } else {
                    assert(w[i] == t[i - 1] && w[j] == t[j - 1]);
                }
            }
            assert forall|y: Seq<u8>| #![trigger w.contains(y)] w.contains(y) <==> s.contains(y) && !excluded.contains(y) by {
                if w.contains(y) {
                    let k = choose|k: int| 0 <= k < w.len() && w[k] == y;
                    if k < p {
                        assert(t[k] == y);
                        assert(t.contains(y));
                    } else if k > p {
                        assert(t[k - 1] == y);
                        assert(t.contains(y));
                    }
                }
                if s.contains(y) && !excluded.contains(y) && y != x {
                    assert(t.contains(y));
                    let k = choose|k: int| 0 <= k < t.len() && t[k] == y;
                    if k < p {
                        assert(w[k] == y);
                    } else {
                        assert(w[k + 1] == y);
                    }
                }
                if y == x {
                    assert(w[p] == x);
                }
            }
            w
        }
    }
}

/// The difference of two lists exists: it is a difference.
pub proof fn lemma_difference_exists(from: Seq<Seq<u8>>, excluded: Seq<Seq<u8>>)
    ensures
        is_difference(difference(from, excluded), from, excluded),
{
    let w = difference_witness(from, excluded);
    assert(is_difference(w, from, excluded));
}

/// A list that is a difference is the difference.
pub proof fn lemma_is_difference(r: Seq<Seq<u8>>, from: Seq<Seq<u8>>, excluded: Seq<Seq<u8>>)
    requires
        is_difference(r, from, excluded),
    ensures
        difference(from, excluded) == r,
{
    let d = difference(from, excluded);
    assert(is_difference(d, from, excluded));
    assert forall|x: Seq<u8>| d.contains(x) <==> r.contains(x) by {
        assert(d.contains(x) <==> from.contains(x) && !excluded.contains(x));
        assert(r.contains(x) <==> from.contains(x) && !excluded.contains(x));
    }
    lemma_ascending_unique(d, r);
}

/// The two differences of an identity set: what only the target holds,
/// then what only the base holds, each ascending and each identity once.
pub fn set_difference(base: &Vec<[u8; 32]>, target: &Vec<[u8; 32]>) -> (r: (Vec<[u8; 32]>, Vec<[u8; 32]>))
    ensures
        digests_view(r.0@) == difference(digests_view(target@), digests_view(base@)),
        digests_view(r.1@) == difference(digests_view(base@), digests_view(target@)),
{
    let added = sorted_difference(target, base);
    let removed = sorted_difference(base, target);
    proof {
        lemma_is_difference(digests_view(added@), digests_view(target@), digests_view(base@));
        lemma_is_difference(digests_view(removed@), digests_view(base@), digests_view(target@));
    }
    (added, removed)
}

// ---------------------------------------------------------------------------
// Relations.
// ---------------------------------------------------------------------------

/// A direct edge of an impact index: the referring entity, the referenced
/// entity and the frozen edge-kind tag.
#[derive(Clone, Copy, Debug, PartialEq, Eq)]
pub struct ImpactEdge {
    /// Referring entity.
    pub dependent: [u8; 32],
    /// Referenced entity.
    pub dependency: [u8; 32],
    /// Frozen edge-kind tag.
    pub kind: u32,
}

/// An edge as values.
pub type EdgeView = (Seq<u8>, Seq<u8>, u32);

impl View for ImpactEdge {
    type V = EdgeView;

    open spec fn view(&self) -> EdgeView {
        (self.dependent@, self.dependency@, self.kind)
    }
}

/// The views of a list of edges.
pub open spec fn edge_views(s: Seq<ImpactEdge>) -> Seq<EdgeView> {
    s.map_values(|e: ImpactEdge| e@)
}

/// Edges order by (dependent, dependency, kind).
pub open spec fn edge_order(a: EdgeView, b: EdgeView) -> ByteOrder {
    then_order(lex(a.0, b.0), then_order(lex(a.1, b.1), num_order(a.2, b.2)))
}

fn edge_compare(a: &ImpactEdge, b: &ImpactEdge) -> (r: ByteOrder)
    ensures
        r == edge_order(a@, b@),
{
    let first = compare_bytes(a.dependent.as_slice(), b.dependent.as_slice());
    if first != ByteOrder::Equal {
        return first;
    }
    let second = compare_bytes(a.dependency.as_slice(), b.dependency.as_slice());
    if second != ByteOrder::Equal {
        return second;
    }
    num_compare(a.kind, b.kind)
}

/// The relation entry of an edge in one direction.
pub open spec fn relation_of(e: EdgeView, change: RelationChange) -> RelationView {
    (e.0, e.1, e.2, change)
}

/// Walking two edge lists together: an edge first in the base is removed,
/// one first in the target is added, and one in both is passed over.
pub open spec fn relation_merge(base: Seq<EdgeView>, target: Seq<EdgeView>) -> Seq<RelationView>
    decreases base.len() + target.len(),
{
    if base.len() == 0 && target.len() == 0 {
        Seq::empty()
    } else if base.len() > 0 && (target.len() == 0 || edge_order(base[0], target[0]) == ByteOrder::Less) {
        seq![relation_of(base[0], RelationChange::Removed)] + relation_merge(base.drop_first(), target)
    } else if target.len() > 0 && (base.len() == 0 || edge_order(base[0], target[0]) == ByteOrder::Greater) {
        seq![relation_of(target[0], RelationChange::Added)] + relation_merge(base, target.drop_first())
    } else {
        relation_merge(base.drop_first(), target.drop_first())
    }
}

/// The relation section of two direct edge lists after charging their
/// combined length: `relation_merge` of the two, whose meaning on canonical
/// edge lists `lemma_relation_merge` states.
pub fn relation_deltas(base: &Vec<ImpactEdge>, target: &Vec<ImpactEdge>, work: &mut Work) -> (r: Result<
    Vec<RelationDelta>,
    CompareError,
>)
    ensures
        r is Ok <==> old(work).spent() + base@.len() + target@.len() <= MAX_COMPARE_WORK,
        r is Err ==> r == Err::<Vec<RelationDelta>, CompareError>(
            CompareError::Compare(CompareErrorCode::ResourceLimit),
        ),
        r is Ok ==> r->Ok_0@.map_values(|d: RelationDelta| d@) == relation_merge(
            edge_views(base@),
            edge_views(target@),
        ),
        final(work).spent() == (if old(work).spent() + base@.len() + target@.len() <= u64::MAX {
            old(work).spent() + base@.len() + target@.len()
        } else {
            old(work).spent() as int
        }),
{
    let b = base.len() as u64;
    let t = target.len() as u64;
    if b > u64::MAX - t {
        return Err(CompareError::Compare(CompareErrorCode::ResourceLimit));
    }
    work.charge(b + t)?;
    let ghost bv = edge_views(base@);
    let ghost tv = edge_views(target@);
    let mut deltas: Vec<RelationDelta> = Vec::new();
    let mut i: usize = 0;
    let mut j: usize = 0;
    proof {
        assert(bv.skip(0) =~= bv);
        assert(tv.skip(0) =~= tv);
    }
    while i < base.len() || j < target.len()
        invariant
            i <= base@.len(),
            j <= target@.len(),
            bv == edge_views(base@),
            tv == edge_views(target@),
            deltas@.map_values(|d: RelationDelta| d@) + relation_merge(bv.skip(i as int), tv.skip(j as int))
                == relation_merge(bv, tv),
        decreases base.len() + target.len() - i - j,
    {
        let ghost before = deltas@.map_values(|d: RelationDelta| d@);
        let ghost bs = bv.skip(i as int);
        let ghost ts = tv.skip(j as int);
        proof {
            if i < base.len() {
                assert(bs[0] == base@[i as int]@);
                assert(bs.drop_first() =~= bv.skip(i + 1));
            }
            if j < target.len() {
                assert(ts[0] == target@[j as int]@);
                assert(ts.drop_first() =~= tv.skip(j + 1));
            }
        }
        let order = if i < base.len() && j < target.len() {
            edge_compare(&base[i], &target[j])
        } else if i < base.len() {
            ByteOrder::Less
        } else {
            ByteOrder::Greater
        };
        if order == ByteOrder::Less {
            let e = base[i];
            deltas.push(RelationDelta {
                dependent: e.dependent,
                dependency: e.dependency,
                kind: e.kind,
                change: RelationChange::Removed,
            });
            proof {
                let after = deltas@.map_values(|d: RelationDelta| d@);
                assert(after =~= before.push(relation_of(bs[0], RelationChange::Removed)));
                assert(after + relation_merge(bv.skip(i + 1), ts) =~= before + relation_merge(bs, ts));
            }
            i = i + 1;
        } else if order == ByteOrder::Greater {
            let e = target[j];
            deltas.push(RelationDelta {
                dependent: e.dependent,
                dependency: e.dependency,
                kind: e.kind,
                change: RelationChange::Added,
            });
            proof {
                let after = deltas@.map_values(|d: RelationDelta| d@);
                assert(after =~= before.push(relation_of(ts[0], RelationChange::Added)));
                assert(after + relation_merge(bs, tv.skip(j + 1)) =~= before + relation_merge(bs, ts));
            }
            j = j + 1;
        } else {
            i = i + 1;
            j = j + 1;
        }
    }
    proof {
        assert(bv.skip(i as int) =~= Seq::<EdgeView>::empty());
        assert(tv.skip(j as int) =~= Seq::<EdgeView>::empty());
        assert(deltas@.map_values(|d: RelationDelta| d@) + Seq::<RelationView>::empty() =~= deltas@.map_values(
            |d: RelationDelta| d@,
        ));
    }
    Ok(deltas)
}

/// Edges strictly ascend.
pub open spec fn edges_ascending(s: Seq<EdgeView>) -> bool {
    forall|i: int, j: int| 0 <= i < j < s.len() ==> edge_order(#[trigger] s[i], #[trigger] s[j]) == ByteOrder::Less
}

/// The edge of a relation entry.
pub open spec fn edge_of(r: RelationView) -> EdgeView {
    (r.0, r.1, r.2)
}

/// Relation entries strictly ascend by their edges.
pub open spec fn relations_ascending(s: Seq<RelationView>) -> bool {
    forall|i: int, j: int|
        0 <= i < j < s.len() ==> edge_order(edge_of(#[trigger] s[i]), edge_of(#[trigger] s[j]))
            == ByteOrder::Less
}

pub proof fn lemma_edge_order(a: EdgeView, b: EdgeView)
    ensures
        edge_order(a, b) == ByteOrder::Less <==> edge_order(b, a) == ByteOrder::Greater,
        edge_order(a, b) == ByteOrder::Equal <==> a == b,
{
    lemma_lex_antisymmetric(a.0, b.0);
    lemma_lex_antisymmetric(a.1, b.1);
    lemma_lex_equal(a.0, b.0);
    lemma_lex_equal(a.1, b.1);
}

proof fn lemma_edge_transitive(a: EdgeView, b: EdgeView, c: EdgeView)
    requires
        edge_order(a, b) == ByteOrder::Less,
        edge_order(b, c) == ByteOrder::Less,
    ensures
        edge_order(a, c) == ByteOrder::Less,
{
    lemma_lex_equal(a.0, b.0);
    lemma_lex_equal(b.0, c.0);
    lemma_lex_equal(a.1, b.1);
    lemma_lex_equal(b.1, c.1);
    lemma_lex_equal(a.0, c.0);
    lemma_lex_equal(a.1, c.1);
    if lex(a.0, b.0) == ByteOrder::Less && lex(b.0, c.0) == ByteOrder::Less {
        lemma_lex_transitive(a.0, b.0, c.0);
    }
    if lex(a.0, b.0) == ByteOrder::Equal && lex(b.0, c.0) == ByteOrder::Equal {
        if lex(a.1, b.1) == ByteOrder::Less && lex(b.1, c.1) == ByteOrder::Less {
            lemma_lex_transitive(a.1, b.1, c.1);
        }
    }
}

/// An edge below the first of an ascending list is below all of it and not
/// in it.
proof fn lemma_below_all(x: EdgeView, s: Seq<EdgeView>)
    requires
        edges_ascending(s),
        s.len() > 0,
        edge_order(x, s[0]) == ByteOrder::Less,
    ensures
        forall|k: int| 0 <= k < s.len() ==> edge_order(x, #[trigger] s[k]) == ByteOrder::Less,
        !s.contains(x),
{
    assert forall|k: int| 0 <= k < s.len() implies edge_order(x, #[trigger] s[k]) == ByteOrder::Less by {
        if k > 0 {
            lemma_edge_transitive(x, s[0], s[k]);
        }
    }
    if s.contains(x) {
        let k = choose|k: int| 0 <= k < s.len() && s[k] == x;
        lemma_edge_order(x, s[k]);
    }
}

proof fn lemma_tail_ascending(s: Seq<EdgeView>)
    requires
        edges_ascending(s),
        s.len() > 0,
    ensures
        edges_ascending(s.drop_first()),
        forall|k: int| 0 <= k < s.drop_first().len() ==> edge_order(s[0], #[trigger] s.drop_first()[k])
            == ByteOrder::Less,
        !s.drop_first().contains(s[0]),
        forall|e: EdgeView| s.contains(e) <==> e == s[0] || #[trigger] s.drop_first().contains(e),
{
    let t = s.drop_first();
    assert forall|i: int, j: int| 0 <= i < j < t.len() implies edge_order(#[trigger] t[i], #[trigger] t[j])
        == ByteOrder::Less by {
        assert(t[i] == s[i + 1] && t[j] == s[j + 1]);
    }
    assert forall|k: int| 0 <= k < t.len() implies edge_order(s[0], #[trigger] t[k]) == ByteOrder::Less by {
        assert(t[k] == s[k + 1]);
    }
    if t.contains(s[0]) {
        let k = choose|k: int| 0 <= k < t.len() && t[k] == s[0];
        assert(edge_order(s[0], t[k]) == ByteOrder::Less);
        lemma_edge_order(s[0], t[k]);
    }
    assert forall|e: EdgeView| s.contains(e) <==> e == s[0] || #[trigger] t.contains(e) by {
        if s.contains(e) && e != s[0] {
            let k = choose|k: int| 0 <= k < s.len() && s[k] == e;
            assert(t[k - 1] == e);
        }
        if t.contains(e) {
            let k = choose|k: int| 0 <= k < t.len() && t[k] == e;
            assert(s[k + 1] == e);
        }
        if e == s[0] {
            assert(s.contains(s[0]));
        }
    }
}

/// What the relation section means on canonical edge lists: it strictly
/// ascends, it removes exactly the edges only the base holds and adds
/// exactly the edges only the target holds.
pub proof fn lemma_relation_merge(base: Seq<EdgeView>, target: Seq<EdgeView>)
    requires
        edges_ascending(base),
        edges_ascending(target),
    ensures
        relations_ascending(relation_merge(base, target)),
        forall|e: EdgeView|
            #![trigger relation_merge(base, target).contains(relation_of(e, RelationChange::Removed))]
            relation_merge(base, target).contains(relation_of(e, RelationChange::Removed)) <==> base.contains(e)
                && !target.contains(e),
        forall|e: EdgeView|
            #![trigger relation_merge(base, target).contains(relation_of(e, RelationChange::Added))]
            relation_merge(base, target).contains(relation_of(e, RelationChange::Added)) <==> target.contains(e)
                && !base.contains(e),
    decreases base.len() + target.len(),
{
    let r = relation_merge(base, target);
    if base.len() == 0 && target.len() == 0 {
        assert(r =~= Seq::<RelationView>::empty());
    } else if base.len() > 0 && (target.len() == 0 || edge_order(base[0], target[0]) == ByteOrder::Less) {
        let b0 = base[0];
        let bt = base.drop_first();
        lemma_tail_ascending(base);
        lemma_relation_merge(bt, target);
        let m = relation_merge(bt, target);
        let head = relation_of(b0, RelationChange::Removed);
        assert(r == seq![head] + m);
        if target.len() > 0 {
            lemma_below_all(b0, target);
        }
        lemma_merge_members(bt, target);
        assert forall|k: int| 0 <= k < m.len() implies edge_order(b0, edge_of(#[trigger] m[k])) == ByteOrder::Less by {
            let e = edge_of(m[k]);
            if bt.contains(e) {
                let q = choose|q: int| 0 <= q < bt.len() && bt[q] == e;
                assert(edge_order(b0, bt[q]) == ByteOrder::Less);
            } else {
                assert(target.contains(e));
                let q = choose|q: int| 0 <= q < target.len() && target[q] == e;
                assert(edge_order(b0, target[q]) == ByteOrder::Less);
            }
        }
        lemma_prepend_ascending(head, m);
        assert forall|e: EdgeView| #[trigger] r.contains(relation_of(e, RelationChange::Removed)) <==> base.contains(e)
            && !target.contains(e) by {
            lemma_prepend_contains(head, m, relation_of(e, RelationChange::Removed));
            assert(m.contains(relation_of(e, RelationChange::Removed)) <==> bt.contains(e) && !target.contains(e));
            assert(base.contains(e) <==> e == b0 || bt.contains(e));
        }
        assert forall|e: EdgeView| #[trigger] r.contains(relation_of(e, RelationChange::Added)) <==> target.contains(e)
            && !base.contains(e) by {
            lemma_prepend_contains(head, m, relation_of(e, RelationChange::Added));
            assert(m.contains(relation_of(e, RelationChange::Added)) <==> target.contains(e) && !bt.contains(e));
            assert(base.contains(e) <==> e == b0 || bt.contains(e));
        }
    } else if target.len() > 0 && (base.len() == 0 || edge_order(base[0], target[0]) == ByteOrder::Greater) {
        let t0 = target[0];
        let tt = target.drop_first();
        lemma_tail_ascending(target);
        lemma_relation_merge(base, tt);
        let m = relation_merge(base, tt);
        let head = relation_of(t0, RelationChange::Added);
        assert(r == seq![head] + m);
        if base.len() > 0 {
            lemma_edge_order(t0, base[0]);
            lemma_below_all(t0, base);
        }
        lemma_merge_members(base, tt);
        assert forall|k: int| 0 <= k < m.len() implies edge_order(t0, edge_of(#[trigger] m[k])) == ByteOrder::Less by {
            let e = edge_of(m[k]);
            if base.contains(e) {
                let q = choose|q: int| 0 <= q < base.len() && base[q] == e;
                assert(edge_order(t0, base[q]) == ByteOrder::Less);
            } else {
                assert(tt.contains(e));
                let q = choose|q: int| 0 <= q < tt.len() && tt[q] == e;
                assert(edge_order(t0, tt[q]) == ByteOrder::Less);
            }
        }
        lemma_prepend_ascending(head, m);
        assert forall|e: EdgeView| #[trigger] r.contains(relation_of(e, RelationChange::Removed)) <==> base.contains(e)
            && !target.contains(e) by {
            lemma_prepend_contains(head, m, relation_of(e, RelationChange::Removed));
            assert(m.contains(relation_of(e, RelationChange::Removed)) <==> base.contains(e) && !tt.contains(e));
            assert(target.contains(e) <==> e == t0 || tt.contains(e));
        }
        assert forall|e: EdgeView| #[trigger] r.contains(relation_of(e, RelationChange::Added)) <==> target.contains(e)
            && !base.contains(e) by {
            lemma_prepend_contains(head, m, relation_of(e, RelationChange::Added));
            assert(m.contains(relation_of(e, RelationChange::Added)) <==> tt.contains(e) && !base.contains(e));
            assert(target.contains(e) <==> e == t0 || tt.contains(e));
        }
    } else {
        let b0 = base[0];
        lemma_edge_order(b0, target[0]);
        assert(b0 == target[0]);
        let bt = base.drop_first();
        let tt = target.drop_first();
        lemma_tail_ascending(base);
        lemma_tail_ascending(target);
        lemma_relation_merge(bt, tt);
        assert(r == relation_merge(bt, tt));
        assert forall|e: EdgeView| #[trigger] r.contains(relation_of(e, RelationChange::Removed)) <==> base.contains(e)
            && !target.contains(e) by {
            assert(base.contains(e) <==> e == b0 || bt.contains(e));
            assert(target.contains(e) <==> e == b0 || tt.contains(e));
        }
        assert forall|e: EdgeView| #[trigger] r.contains(relation_of(e, RelationChange::Added)) <==> target.contains(e)
            && !base.contains(e) by {
            assert(base.contains(e) <==> e == b0 || bt.contains(e));
            assert(target.contains(e) <==> e == b0 || tt.contains(e));
        }
    }
}

/// Every entry of the walk carries an edge of the base (removed) or of the
/// target (added).
proof fn lemma_merge_members(base: Seq<EdgeView>, target: Seq<EdgeView>)
    ensures
        forall|k: int|
            0 <= k < relation_merge(base, target).len() ==> {
                let x = #[trigger] relation_merge(base, target)[k];
                (x.3 == RelationChange::Removed && base.contains(edge_of(x))) || (x.3 == RelationChange::Added
                    && target.contains(edge_of(x)))
            },
    decreases base.len() + target.len(),
{
    let r = relation_merge(base, target);
    if base.len() == 0 && target.len() == 0 {
    } else if base.len() > 0 && (target.len() == 0 || edge_order(base[0], target[0]) == ByteOrder::Less) {
        let bt = base.drop_first();
        lemma_merge_members(bt, target);
        let m = relation_merge(bt, target);
        assert forall|k: int| 0 <= k < r.len() implies {
            let x = #[trigger] r[k];
            (x.3 == RelationChange::Removed && base.contains(edge_of(x))) || (x.3 == RelationChange::Added
                && target.contains(edge_of(x)))
        } by {
            if k == 0 {
                assert(r[0] == relation_of(base[0], RelationChange::Removed));
                assert(edge_of(r[0]) == base[0]);
            } else {
                assert(r[k] == m[k - 1]);
                let e = edge_of(m[k - 1]);
                if bt.contains(e) {
                    let q = choose|q: int| 0 <= q < bt.len() && bt[q] == e;
                    assert(base[q + 1] == e);
                }
            }
        }
    } else if target.len() > 0 && (base.len() == 0 || edge_order(base[0], target[0]) == ByteOrder::Greater) {
        let tt = target.drop_first();
        lemma_merge_members(base, tt);
        let m = relation_merge(base, tt);
        assert forall|k: int| 0 <= k < r.len() implies {
            let x = #[trigger] r[k];
            (x.3 == RelationChange::Removed && base.contains(edge_of(x))) || (x.3 == RelationChange::Added
                && target.contains(edge_of(x)))
        } by {
            if k == 0 {
                assert(r[0] == relation_of(target[0], RelationChange::Added));
                assert(edge_of(r[0]) == target[0]);
            } else {
                assert(r[k] == m[k - 1]);
                let e = edge_of(m[k - 1]);
                if tt.contains(e) {
                    let q = choose|q: int| 0 <= q < tt.len() && tt[q] == e;
                    assert(target[q + 1] == e);
                }
            }
        }
    } else {
        let bt = base.drop_first();
        let tt = target.drop_first();
        lemma_merge_members(bt, tt);
        let m = relation_merge(bt, tt);
        assert forall|k: int| 0 <= k < r.len() implies {
            let x = #[trigger] r[k];
            (x.3 == RelationChange::Removed && base.contains(edge_of(x))) || (x.3 == RelationChange::Added
                && target.contains(edge_of(x)))
        } by {
            assert(r[k] == m[k]);
            let e = edge_of(m[k]);
            if bt.contains(e) {
                let q = choose|q: int| 0 <= q < bt.len() && bt[q] == e;
                assert(base[q + 1] == e);
            }
            if tt.contains(e) {
                let q = choose|q: int| 0 <= q < tt.len() && tt[q] == e;
                assert(target[q + 1] == e);
            }
        }
    }
}

proof fn lemma_prepend_ascending(head: RelationView, m: Seq<RelationView>)
    requires
        relations_ascending(m),
        forall|k: int| 0 <= k < m.len() ==> edge_order(edge_of(head), edge_of(#[trigger] m[k])) == ByteOrder::Less,
    ensures
        relations_ascending(seq![head] + m),
{
    let s = seq![head] + m;
    assert forall|i: int, j: int| 0 <= i < j < s.len() implies edge_order(edge_of(#[trigger] s[i]), edge_of(
        #[trigger] s[j],
    )) == ByteOrder::Less by {
        assert(s[j] == m[j - 1]);
        if i == 0 {
            assert(s[i] == head);
        } else {
            assert(s[i] == m[i - 1]);
        }
    }
}

proof fn lemma_prepend_contains(head: RelationView, m: Seq<RelationView>, x: RelationView)
    ensures
        (seq![head] + m).contains(x) <==> x == head || m.contains(x),
{
    let s = seq![head] + m;
    if s.contains(x) && x != head {
        let k = choose|k: int| 0 <= k < s.len() && s[k] == x;
        assert(m[k - 1] == x);
    }
    if m.contains(x) {
        let k = choose|k: int| 0 <= k < m.len() && m[k] == x;
        assert(s[k + 1] == x);
    }
    if x == head {
        assert(s[0] == x);
    }
}

// ---------------------------------------------------------------------------
// Entities and fields.
// ---------------------------------------------------------------------------

/// What the two roots bind one identity to: the base entity, the target
/// entity, or both.
pub type BoundPair = (Option<RootEntityView>, Option<RootEntityView>);

/// The identities bound by either root, ascending, each with what the two
/// roots bind it to; both entity lists ascend by identity.
pub open spec fn bound_union(base: Seq<RootEntityView>, target: Seq<RootEntityView>) -> Seq<BoundPair>
    decreases base.len() + target.len(),
{
    if base.len() == 0 && target.len() == 0 {
        Seq::empty()
    } else if base.len() > 0 && (target.len() == 0 || lex(base[0].0, target[0].0) == ByteOrder::Less) {
        seq![(Some(base[0]), None::<RootEntityView>)] + bound_union(base.drop_first(), target)
    } else if target.len() > 0 && (base.len() == 0 || lex(base[0].0, target[0].0) == ByteOrder::Greater) {
        seq![(None::<RootEntityView>, Some(target[0]))] + bound_union(base, target.drop_first())
    } else {
        seq![(Some(base[0]), Some(target[0]))] + bound_union(base.drop_first(), target.drop_first())
    }
}

/// The change class of an identity bound by both roots to different
/// objects: retyped across kinds, metadata only when the definitions are
/// equal, changed otherwise.
pub open spec fn change_of(a: RootEntityView, b: RootEntityView) -> ChangeClass {
    if a.1 != b.1 {
        ChangeClass::Retyped
    } else if a.3 == b.3 {
        ChangeClass::MetadataOnly
    } else {
        ChangeClass::Changed
    }
}

/// The entity entry of one bound identity, if its binding changed.
pub open spec fn entity_entry(p: BoundPair) -> Seq<EntityView> {
    match p {
        (None, Some(t)) => seq![(t.0, ChangeClass::Added, 0u32, t.1, None::<Seq<u8>>, t.2)],
        (Some(b), None) => seq![(b.0, ChangeClass::Removed, b.1, 0u32, b.2, None::<Seq<u8>>)],
        (Some(b), Some(t)) => if b.2 == t.2 {
            Seq::empty()
        } else {
            seq![(b.0, change_of(b, t), b.1, t.1, b.2, t.2)]
        },
        (None, None) => Seq::empty(),
    }
}

/// The identity is bound by both roots to different objects with the same
/// kind and different definitions.
pub open spec fn pair_changed(p: BoundPair) -> bool {
    match p {
        (Some(b), Some(t)) => b.2 != t.2 && change_of(b, t) == ChangeClass::Changed,
        _ => false,
    }
}

/// Sections 1 and 2 over the bound identities in turn, with the work spent
/// so far: each identity costs one unit, each changed one eight more and
/// its field entries; the first failure decides.
pub open spec fn entity_fold(pairs: Seq<BoundPair>, spent: int) -> Result<
    (Seq<EntityView>, Seq<FieldView>, int),
    CompareError,
>
    decreases pairs.len(),
{
    if pairs.len() == 0 {
        Ok((Seq::empty(), Seq::empty(), spent))
    } else {
        match entity_fold(pairs.drop_last(), spent) {
            Err(e) => Err(e),
            Ok((es, fs, w)) => {
                let p = pairs.last();
                if w + 1 > MAX_COMPARE_WORK {
                    Err(CompareError::Compare(CompareErrorCode::ResourceLimit))
                } else if pair_changed(p) {
                    if w + 9 > MAX_COMPARE_WORK {
                        Err(CompareError::Compare(CompareErrorCode::ResourceLimit))
                    } else if !entities_pair(p.0->0, p.1->0) {
                        Err(CompareError::Compare(CompareErrorCode::InternalInvariant))
                    } else {
                        Ok((es + entity_entry(p), fs + changed_fields(p.0->0, p.1->0), w + 9))
                    }
                } else {
                    Ok((es + entity_entry(p), fs, w + 1))
                }
            },
        }
    }
}

/// The views of a list of entities.
pub open spec fn root_entity_views(s: Seq<RootEntity>) -> Seq<RootEntityView> {
    s.map_values(|e: RootEntity| e@)
}

/// The views of a list of entity entries.
pub open spec fn entity_delta_views(s: Seq<EntityDelta>) -> Seq<EntityView> {
    s.map_values(|d: EntityDelta| d@)
}

fn entity_delta_of(p_base: Option<&RootEntity>, p_target: Option<&RootEntity>) -> (r: Option<EntityDelta>)
    requires
        p_base is Some || p_target is Some,
    ensures
        ({
            let p = (
                match p_base {
                    Some(b) => Some(b@),
                    None => None,
                },
                match p_target {
                    Some(t) => Some(t@),
                    None => None,
                },
            );
            match r {
                Some(d) => entity_entry(p) == seq![d@],
                None => entity_entry(p) == Seq::<EntityView>::empty(),
            }
        }),
{
    match (p_base, p_target) {
        (None, Some(t)) => Some(
            EntityDelta {
                entity_id: t.entity_id,
                change: ChangeClass::Added,
                base_kind: 0,
                target_kind: t.kind,
                base_object: None,
                target_object: t.object,
            },
        ),
        (Some(b), None) => Some(
            EntityDelta {
                entity_id: b.entity_id,
                change: ChangeClass::Removed,
                base_kind: b.kind,
                target_kind: 0,
                base_object: b.object,
                target_object: None,
            },
        ),
        (Some(b), Some(t)) => {
            let same_object = match (b.object, t.object) {
                (Some(x), Some(y)) => bytes_equal(x.as_slice(), y.as_slice()),
                (None, None) => true,
                _ => false,
            };
            if same_object {
                assert(b@.2 == t@.2);
                return None;
            }
            let change = if b.kind != t.kind {
                ChangeClass::Retyped
            } else if bytes_equal(b.definition.as_slice(), t.definition.as_slice()) {
                ChangeClass::MetadataOnly
            } else {
                ChangeClass::Changed
            };
            Some(
                EntityDelta {
                    entity_id: b.entity_id,
                    change,
                    base_kind: b.kind,
                    target_kind: t.kind,
                    base_object: b.object,
                    target_object: t.object,
                },
            )
        },
        (None, None) => None,
    }
}

proof fn lemma_fold_fails_on(pairs: Seq<BoundPair>, more: Seq<BoundPair>, spent: int)
    requires
        entity_fold(pairs, spent) is Err,
    ensures
        entity_fold(pairs + more, spent) == entity_fold(pairs, spent),
    decreases more.len(),
{
    if more.len() == 0 {
        assert(pairs + more =~= pairs);
    } else {
        lemma_fold_fails_on(pairs, more.drop_last(), spent);
        assert((pairs + more).drop_last() =~= pairs + more.drop_last());
    }
}

/// Sections 1 and 2: walks the identities bound by either root in
/// ascending order, charging the work, classifying each binding, and
/// listing the changed fields of each changed entity.
#[verifier::loop_isolation(false)]
#[verifier::rlimit(60)]
pub fn entity_section(base: &Vec<RootEntity>, target: &Vec<RootEntity>, work: &mut Work) -> (r: Result<
    (Vec<EntityDelta>, Vec<FieldDelta>),
    CompareError,
>)
    requires
        old(work).spent() <= MAX_COMPARE_WORK,
    ensures
        match entity_fold(
            bound_union(root_entity_views(base@), root_entity_views(target@)),
            old(work).spent() as int,
        ) {
            Ok((es, fs, w)) => r is Ok && entity_delta_views(r->Ok_0.0@) == es && field_delta_views(
                r->Ok_0.1@,
            ) == fs && final(work).spent() == w,
            Err(e) => r == Err::<(Vec<EntityDelta>, Vec<FieldDelta>), CompareError>(e),
        },
{
    let ghost bv = root_entity_views(base@);
    let ghost tv = root_entity_views(target@);
    let ghost all = bound_union(bv, tv);
    let ghost s0 = work.spent() as int;
    let ghost mut done: Seq<BoundPair> = Seq::empty();
    let mut entities: Vec<EntityDelta> = Vec::new();
    let mut fields: Vec<FieldDelta> = Vec::new();
    let mut i: usize = 0;
    let mut j: usize = 0;
    proof {
        assert(bv.skip(0) =~= bv);
        assert(tv.skip(0) =~= tv);
        assert(done + all =~= all);
        assert(entity_delta_views(entities@) =~= Seq::<EntityView>::empty());
        assert(field_delta_views(fields@) =~= Seq::<FieldView>::empty());
    }
    while i < base.len() || j < target.len()
        invariant
            i <= base@.len(),
            j <= target@.len(),
            bv == root_entity_views(base@),
            tv == root_entity_views(target@),
            all == bound_union(bv, tv),
            done + bound_union(bv.skip(i as int), tv.skip(j as int)) == all,
            entity_fold(done, s0) == Ok::<(Seq<EntityView>, Seq<FieldView>, int), CompareError>(
                (entity_delta_views(entities@), field_delta_views(fields@), work.spent() as int),
            ),
            work.spent() <= MAX_COMPARE_WORK,
        decreases base.len() + target.len() - i - j,
    {
        let ghost bs = bv.skip(i as int);
        let ghost ts = tv.skip(j as int);
        proof {
            if i < base.len() {
                assert(bs[0] == base@[i as int]@);
                assert(bs.drop_first() =~= bv.skip(i + 1));
            }
            if j < target.len() {
                assert(ts[0] == target@[j as int]@);
                assert(ts.drop_first() =~= tv.skip(j + 1));
            }
        }
        let order = if i < base.len() && j < target.len() {
            compare_bytes(base[i].entity_id.as_slice(), target[j].entity_id.as_slice())
        } else if i < base.len() {
            ByteOrder::Less
        } else {
            ByteOrder::Greater
        };
        let (pb, pt): (Option<&RootEntity>, Option<&RootEntity>) = if order == ByteOrder::Less {
            (Some(&base[i]), None)
        } else if order == ByteOrder::Greater {
            (None, Some(&target[j]))
        } else {
            (Some(&base[i]), Some(&target[j]))
        };
        let ghost p: BoundPair = (
            match pb {
                Some(b) => Some(b@),
                None => None,
            },
            match pt {
                Some(t) => Some(t@),
                None => None,
            },
        );
        let ghost rest = if order == ByteOrder::Less {
            bound_union(bv.skip(i + 1), ts)
        } else if order == ByteOrder::Greater {
            bound_union(bs, tv.skip(j + 1))
        } else {
            bound_union(bv.skip(i + 1), tv.skip(j + 1))
        };
        assert(bound_union(bs, ts) == seq![p] + rest);
        let ghost before = done;
        proof {
            done = done.push(p);
            assert(done.drop_last() =~= before);
            assert(done.last() == p);
            assert(done + rest =~= before + bound_union(bs, ts));
        }
        let ghost w = work.spent() as int;
        let ghost ev = entity_delta_views(entities@);
        let ghost fv = field_delta_views(fields@);
        match work.charge(1) {
            Ok(()) => {},
            Err(e) => {
                proof {
                    lemma_fold_fails_on(done, rest, s0);
                }
                return Err(e);
            },
        }
        let delta = entity_delta_of(pb, pt);
        match delta {
            Some(d) => {
                proof {
                    assert(entity_entry(p)[0] == d@);
                    assert(pair_changed(p) <==> d.change == ChangeClass::Changed);
                }
                if d.change == ChangeClass::Changed {
                    proof {
                        assert(pb is Some && pt is Some);
                    }
                    let b = pb.unwrap();
                    let t = pt.unwrap();
                    match field_deltas(&mut fields, b, t, work) {
                        Ok(()) => {},
                        Err(e) => {
                            proof {
                                lemma_fold_fails_on(done, rest, s0);
                            }
                            return Err(e);
                        },
                    }
                    proof {
                        assert(entities_pair(p.0->0, p.1->0));
                        assert(field_delta_views(fields@) == fv + changed_fields(p.0->0, p.1->0));
                        assert(work.spent() == w + 9);
                    }
                }
                entities.push(d);
                proof {
                    assert(entity_delta_views(entities@) =~= ev + seq![d@]);
                    assert(entity_delta_views(entities@) == ev + entity_entry(p));
                    if !pair_changed(p) {
                        assert(work.spent() == w + 1);
                        assert(field_delta_views(fields@) == fv);
                    }
                }
            },
            None => {
                proof {
                    assert(entity_entry(p) == Seq::<EntityView>::empty());
                    assert(!pair_changed(p));
                    assert(ev + entity_entry(p) =~= ev);
                }
            },
        }
        proof {
            assert(entity_fold(done, s0) == Ok::<(Seq<EntityView>, Seq<FieldView>, int), CompareError>(
                (entity_delta_views(entities@), field_delta_views(fields@), work.spent() as int),
            ));
        }
        if order == ByteOrder::Less {
            i = i + 1;
        } else if order == ByteOrder::Greater {
            j = j + 1;
        } else {
            i = i + 1;
            j = j + 1;
        }
    }
    proof {
        assert(bv.skip(i as int) =~= Seq::<RootEntityView>::empty());
        assert(tv.skip(j as int) =~= Seq::<RootEntityView>::empty());
        assert(done + Seq::<BoundPair>::empty() =~= done);
    }
    Ok((entities, fields))
}

// ---------------------------------------------------------------------------
// Function bodies.
// ---------------------------------------------------------------------------

/// What the restricted fingerprint of a function reads at one root: the
/// sizes of its owned inventory and the fingerprint itself.
#[derive(Clone, Copy, Debug, PartialEq, Eq)]
pub struct FunctionInventory {
    /// Owned parameters.
    pub parameters: usize,
    /// Owned blocks.
    pub blocks: usize,
    /// Owned operations.
    pub operations: usize,
    /// Restricted fingerprint.
    pub fingerprint: [u8; 32],
}

/// A function bound by both roots, with its inventory at each.
#[derive(Clone, Copy, Debug, PartialEq, Eq)]
pub struct FunctionPair {
    /// Function identity.
    pub entity_id: [u8; 32],
    /// At the base root.
    pub base: FunctionInventory,
    /// At the target root.
    pub target: FunctionInventory,
}

/// An inventory as values.
pub type InventoryView = (nat, nat, nat, Seq<u8>);

/// A function pair as values.
pub type FunctionPairView = (Seq<u8>, InventoryView, InventoryView);

impl View for FunctionPair {
    type V = FunctionPairView;

    open spec fn view(&self) -> FunctionPairView {
        (
            self.entity_id@,
            (
                self.base.parameters as nat,
                self.base.blocks as nat,
                self.base.operations as nat,
                self.base.fingerprint@,
            ),
            (
                self.target.parameters as nat,
                self.target.blocks as nat,
                self.target.operations as nat,
                self.target.fingerprint@,
            ),
        )
    }
}

/// The work one function pair costs: both inventories and two.
pub open spec fn pair_cost(p: FunctionPairView) -> int {
    (p.1.0 + p.1.1 + p.1.2 + p.2.0 + p.2.1 + p.2.2 + 2) as int
}

/// Section 3 over the function pairs in turn, with the work spent so far:
/// each pair costs its inventories; a pair whose fingerprints differ is a
/// body entry, whose counts must fit `u32`; the first failure decides.
pub open spec fn body_fold(ps: Seq<FunctionPairView>, spent: int) -> Result<(Seq<BodyView>, int), CompareError>
    decreases ps.len(),
{
    if ps.len() == 0 {
        Ok((Seq::empty(), spent))
    } else {
        match body_fold(ps.drop_last(), spent) {
            Err(e) => Err(e),
            Ok((bs, w)) => {
                let p = ps.last();
                if w + pair_cost(p) > MAX_COMPARE_WORK {
                    Err(CompareError::Compare(CompareErrorCode::ResourceLimit))
                } else if p.1.3 == p.2.3 {
                    Ok((bs, w + pair_cost(p)))
                } else if p.1.1 > u32::MAX || p.2.1 > u32::MAX || p.1.2 > u32::MAX || p.2.2 > u32::MAX {
                    Err(CompareError::Compare(CompareErrorCode::ResourceLimit))
                } else {
                    Ok(
                        (
                            bs.push(
                                (
                                    p.0,
                                    p.1.3,
                                    p.2.3,
                                    p.1.1 as u32,
                                    p.2.1 as u32,
                                    p.1.2 as u32,
                                    p.2.2 as u32,
                                ),
                            ),
                            w + pair_cost(p),
                        ),
                    )
                }
            },
        }
    }
}

/// The views of a list of function pairs.
pub open spec fn function_pair_views(s: Seq<FunctionPair>) -> Seq<FunctionPairView> {
    s.map_values(|p: FunctionPair| p@)
}

/// The views of a list of body entries.
pub open spec fn body_delta_views(s: Seq<BodyDelta>) -> Seq<BodyView> {
    s.map_values(|d: BodyDelta| d@)
}

fn pair_cost_of(p: &FunctionPair) -> (r: Option<u64>)
    ensures
        match r {
            Some(c) => c == pair_cost(p@),
            None => pair_cost(p@) > u64::MAX,
        },
{
    let parts: [usize; 6] = [
        p.base.parameters,
        p.base.blocks,
        p.base.operations,
        p.target.parameters,
        p.target.blocks,
        p.target.operations,
    ];
    let mut total: u64 = 2;
    let mut k: usize = 0;
    while k < 6
        invariant
            k <= 6,
            parts@ == seq![
                p.base.parameters,
                p.base.blocks,
                p.base.operations,
                p.target.parameters,
                p.target.blocks,
                p.target.operations,
            ],
            total == 2 + (if k > 0 { parts@[0] as int } else { 0 }) + (if k > 1 { parts@[1] as int } else { 0 })
                + (if k > 2 { parts@[2] as int } else { 0 }) + (if k > 3 { parts@[3] as int } else { 0 }) + (if k > 4 {
                parts@[4] as int
            } else {
                0
            }) + (if k > 5 { parts@[5] as int } else { 0 }),
        decreases 6 - k,
    {
        let part = parts[k] as u64;
        if part > u64::MAX - total {
            return None;
        }
        total = total + part;
        k = k + 1;
    }
    Some(total)
}

/// Section 3: charges each function pair's inventories and lists, in
/// order, the functions whose restricted fingerprints differ.
#[verifier::loop_isolation(false)]
pub fn body_section(functions: &Vec<FunctionPair>, work: &mut Work) -> (r: Result<Vec<BodyDelta>, CompareError>)
    requires
        old(work).spent() <= MAX_COMPARE_WORK,
    ensures
        match body_fold(function_pair_views(functions@), old(work).spent() as int) {
            Ok((bs, w)) => r is Ok && body_delta_views(r->Ok_0@) == bs && final(work).spent() == w,
            Err(e) => r == Err::<Vec<BodyDelta>, CompareError>(e),
        },
{
    let ghost pv = function_pair_views(functions@);
    let ghost s0 = work.spent() as int;
    let mut bodies: Vec<BodyDelta> = Vec::new();
    let mut i: usize = 0;
    proof {
        assert(pv.take(0) =~= Seq::<FunctionPairView>::empty());
        assert(body_delta_views(bodies@) =~= Seq::<BodyView>::empty());
    }
    while i < functions.len()
        invariant
            i <= functions@.len(),
            pv == function_pair_views(functions@),
            body_fold(pv.take(i as int), s0) == Ok::<(Seq<BodyView>, int), CompareError>(
                (body_delta_views(bodies@), work.spent() as int),
            ),
            work.spent() <= MAX_COMPARE_WORK,
        decreases functions.len() - i,
    {
        let ghost t = pv.take(i + 1);
        proof {
            assert(t.drop_last() =~= pv.take(i as int));
            assert(t.last() == functions@[i as int]@);
            lemma_body_fold_prefix(pv, i + 1, s0);
        }
        let p = functions[i];
        let ghost bv = body_delta_views(bodies@);
        let cost = match pair_cost_of(&p) {
            Some(c) => c,
            None => {
                return Err(CompareError::Compare(CompareErrorCode::ResourceLimit));
            },
        };
        match work.charge(cost) {
            Ok(()) => {},
            Err(e) => {
                return Err(e);
            },
        }
        if !bytes_equal(p.base.fingerprint.as_slice(), p.target.fingerprint.as_slice()) {
            if p.base.blocks > u32::MAX as usize || p.target.blocks > u32::MAX as usize || p.base.operations
                > u32::MAX as usize || p.target.operations > u32::MAX as usize {
                return Err(CompareError::Compare(CompareErrorCode::ResourceLimit));
            }
            let d = BodyDelta {
                entity_id: p.entity_id,
                base_fingerprint: p.base.fingerprint,
                target_fingerprint: p.target.fingerprint,
                base_blocks: p.base.blocks as u32,
                target_blocks: p.target.blocks as u32,
                base_operations: p.base.operations as u32,
                target_operations: p.target.operations as u32,
            };
            bodies.push(d);
            proof {
                assert(body_delta_views(bodies@) =~= bv.push(d@));
            }
        }
        i = i + 1;
    }
    proof {
        assert(pv.take(i as int) =~= pv);
    }
    Ok(bodies)
}

/// Once the fold fails on a prefix, it fails the same way on the whole.
proof fn lemma_body_fold_prefix(pv: Seq<FunctionPairView>, i: int, s0: int)
    requires
        0 <= i <= pv.len(),
    ensures
        body_fold(pv.take(i), s0) is Err ==> body_fold(pv, s0) == body_fold(pv.take(i), s0),
    decreases pv.len() - i,
{
    if i < pv.len() {
        lemma_body_fold_prefix(pv, i + 1, s0);
        assert(pv.take(i + 1).drop_last() =~= pv.take(i));
    } else {
        assert(pv.take(i) =~= pv);
    }
}

} // verus!
