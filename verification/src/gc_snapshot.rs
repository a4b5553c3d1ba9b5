//! The canonical retention snapshot a collection is planned from: anchors
//! and their targets in canonical order, the root catalog by root, and no
//! duplicates anywhere.

use vstd::prelude::*;

use crate::gc::{GcErrorCode, RetentionKind, MAX_GC_ANCHORS, MAX_GC_ROOTS, MAX_GC_TARGETS};
use crate::gc_plan::{GcRoot, RetentionAnchor, RetentionTarget};
use crate::ordered::{has_duplicate_keys, keys_ascending, keys_distinct, sort_by_key, ByteKey};
use crate::bytes::{lemma_lex_antisymmetric, lemma_lex_equal, lex, ByteOrder};
use crate::compare_roots::lemma_ascending_unique;

verus! {

broadcast use vstd::seq_lib::group_to_multiset_ensures;

fn prefixed(tag: u8, id: &[u8; 32]) -> (r: Vec<u8>)
    ensures
        r@ == seq![tag] + id@,
{
    let mut out: Vec<u8> = Vec::new();
    out.push(tag);
    crate::bytes::append_bytes(&mut out, id.as_slice());
    assert(out@ =~= seq![tag] + id@);
    out
}

impl ByteKey for RetentionTarget {
    /// Roots sort before objects, then by identity.
    open spec fn sort_key(&self) -> Seq<u8> {
        match self {
            RetentionTarget::StateRoot(r) => seq![0u8] + r@,
            RetentionTarget::Object(o) => seq![1u8] + o@,
        }
    }

    fn sort_key_bytes(&self) -> (r: Vec<u8>) {
        match self {
            RetentionTarget::StateRoot(r) => prefixed(0, r),
            RetentionTarget::Object(o) => prefixed(1, o),
        }
    }
}

impl ByteKey for RetentionAnchor {
    /// Anchors sort by kind, then by identity.
    open spec fn sort_key(&self) -> Seq<u8> {
        seq![self.kind.tag_spec()] + self.anchor_id@
    }

    fn sort_key_bytes(&self) -> (r: Vec<u8>) {
        prefixed(self.kind.tag(), &self.anchor_id)
    }
}

impl ByteKey for GcRoot {
    /// Catalog roots sort by root.
    open spec fn sort_key(&self) -> Seq<u8> {
        self.root@
    }

    fn sort_key_bytes(&self) -> (r: Vec<u8>) {
        crate::merge_conflict::copy32(&self.root)
    }
}

/// The first anchor failure, checking anchors in turn from `i` with
/// `count` targets seen: an anchor without targets, too many targets in
/// all, or an anchor naming one target twice.
pub open spec fn anchor_fault_from(anchors: Seq<RetentionAnchor>, i: int, count: nat) -> Option<
    GcErrorCode,
>
    decreases anchors.len() - i,
{
    if i < 0 || i >= anchors.len() {
        None
    } else if anchors[i].targets@.len() == 0 {
        Some(GcErrorCode::AnchorMalformed)
    } else if count + anchors[i].targets@.len() > MAX_GC_TARGETS {
        Some(GcErrorCode::ResourceLimit)
    } else if !keys_distinct(anchors[i].targets@) {
        Some(GcErrorCode::AnchorMalformed)
    } else {
        anchor_fault_from(anchors, i + 1, count + anchors[i].targets@.len())
    }
}

/// `c` is anchor `a` with its targets in canonical order.
pub open spec fn canonical_anchor(a: RetentionAnchor, c: RetentionAnchor) -> bool {
    &&& c.kind == a.kind
    &&& c.anchor_id == a.anchor_id
    &&& keys_ascending(c.targets@)
    &&& c.targets@.to_multiset() == a.targets@.to_multiset()
}

/// `ca` and `cr` are the canonical form of `anchors` and `roots`: the
/// anchors' keys are distinct, each anchor has its canonical form in `ca`,
/// whose keys ascend, and `cr` holds the roots, each as often, in
/// ascending order.
pub open spec fn canonical_snapshot(
    anchors: Seq<RetentionAnchor>,
    roots: Seq<GcRoot>,
    ca: Seq<RetentionAnchor>,
    cr: Seq<GcRoot>,
) -> bool {
    &&& keys_distinct(anchors)
    &&& keys_ascending(ca)
    &&& ca.len() == anchors.len()
    &&& forall|i: int|
        0 <= i < anchors.len() ==> exists|j: int| 0 <= j < ca.len() && canonical_anchor(#[trigger] anchors[i], ca[j])
    &&& keys_ascending(cr)
    &&& cr.to_multiset() == roots.to_multiset()
}

/// Anchors as values: kind, identity and targets.
pub open spec fn anchor_views(s: Seq<RetentionAnchor>) -> Seq<(RetentionKind, [u8; 32], Seq<RetentionTarget>)> {
    s.map_values(|a: RetentionAnchor| (a.kind, a.anchor_id, a.targets@))
}

/// The keys of anchors, in order.
pub open spec fn anchor_keys(s: Seq<RetentionAnchor>) -> Seq<Seq<u8>> {
    s.map_values(|a: RetentionAnchor| a.sort_key())
}

/// Canonical anchors and root catalog.
#[derive(Clone, Debug, PartialEq, Eq)]
pub struct RetentionSnapshot {
    anchors: Vec<RetentionAnchor>,
    roots: Vec<GcRoot>,
}

impl RetentionSnapshot {
    /// The canonical anchors.
    pub closed spec fn anchors_view(&self) -> Seq<RetentionAnchor> {
        self.anchors@
    }

    /// The canonical root catalog.
    pub closed spec fn roots_view(&self) -> Seq<GcRoot> {
        self.roots@
    }

    /// Canonicalizes unordered anchors, targets and roots, rejecting an
    /// anchor without targets, duplicate targets, anchors or roots, and
    /// counts over their limits.
    #[verifier::loop_isolation(false)]
    pub fn new(anchors: Vec<RetentionAnchor>, roots: Vec<GcRoot>) -> (r: Result<
        RetentionSnapshot,
        GcErrorCode,
    >)
        ensures
            r is Ok <==> snapshot_accepts(anchors@, roots@),
            (anchors@.len() > MAX_GC_ANCHORS || roots@.len() > MAX_GC_ROOTS) ==> r == Err::<
                RetentionSnapshot,
                GcErrorCode,
            >(GcErrorCode::ResourceLimit),
            (anchors@.len() <= MAX_GC_ANCHORS && roots@.len() <= MAX_GC_ROOTS) ==> match anchor_fault_from(
                anchors@,
                0,
                0,
            ) {
                Some(e) => r == Err::<RetentionSnapshot, GcErrorCode>(e),
                None => if !keys_distinct(anchors@) {
                    r == Err::<RetentionSnapshot, GcErrorCode>(GcErrorCode::AnchorMalformed)
                } else if !keys_distinct(roots@) {
                    r == Err::<RetentionSnapshot, GcErrorCode>(GcErrorCode::RootInvalid)
                } else {
                    &&& r is Ok
                    &&& keys_ascending(r->Ok_0.anchors_view())
                    &&& r->Ok_0.anchors_view().len() == anchors@.len()
                    &&& forall|i: int|
                        0 <= i < anchors@.len() ==> exists|j: int|
                            0 <= j < anchors@.len() && canonical_anchor(
                                #[trigger] anchors@[i],
                                r->Ok_0.anchors_view()[j],
                            )
                    &&& keys_ascending(r->Ok_0.roots_view())
                    &&& r->Ok_0.roots_view().to_multiset() == roots@.to_multiset()
                    &&& canonical_snapshot(anchors@, roots@, r->Ok_0.anchors_view(), r->Ok_0.roots_view())
                },
            },
    {
        if anchors.len() > MAX_GC_ANCHORS || roots.len() > MAX_GC_ROOTS {
            return Err(GcErrorCode::ResourceLimit);
        }
        let ghost original = anchors@;
        let mut rest = anchors;
        let mut canon: Vec<RetentionAnchor> = Vec::new();
        let mut count: usize = 0;
        while rest.len() > 0
            invariant
                original.len() <= MAX_GC_ANCHORS,
                canon@.len() + rest@.len() == original.len(),
                rest@ == original.skip(canon@.len() as int),
                count <= MAX_GC_TARGETS,
                anchor_fault_from(original, 0, 0) == anchor_fault_from(original, canon@.len() as int, count as nat),
                forall|i: int| 0 <= i < canon@.len() ==> canonical_anchor(original[i], #[trigger] canon@[i]),
            decreases rest@.len(),
        {
            let ghost i = canon@.len() as int;
            let anchor = rest.remove(0);
            proof {
                assert(anchor == original[i]);
                assert(rest@ =~= original.skip(i + 1));
            }
            if anchor.targets.len() == 0 {
                return Err(GcErrorCode::AnchorMalformed);
            }
            if anchor.targets.len() > MAX_GC_TARGETS - count {
                return Err(GcErrorCode::ResourceLimit);
            }
            count = count + anchor.targets.len();
            if has_duplicate_keys(&anchor.targets) {
                return Err(GcErrorCode::AnchorMalformed);
            }
            let RetentionAnchor { kind, anchor_id, targets } = anchor;
            let sorted = sort_by_key(targets);
            canon.push(RetentionAnchor { kind, anchor_id, targets: sorted });
        }
        proof {
            assert(canon@.len() == original.len());
            assert(anchor_fault_from(original, original.len() as int, count as nat) is None);
            assert forall|a: int, b: int|
                0 <= a < canon@.len() && 0 <= b < canon@.len() implies (#[trigger] canon@[a].sort_key()
                == #[trigger] canon@[b].sort_key()) == (original[a].sort_key() == original[b].sort_key()) by {
                assert(canonical_anchor(original[a], canon@[a]));
                assert(canonical_anchor(original[b], canon@[b]));
            }
        }
        if has_duplicate_keys(&canon) {
            return Err(GcErrorCode::AnchorMalformed);
        }
        proof {
            assert forall|a: int, b: int|
                0 <= a < original.len() && 0 <= b < original.len() && a != b implies #[trigger] original[a].sort_key()
                    != #[trigger] original[b].sort_key() by {
                assert(canon@[a].sort_key() != canon@[b].sort_key());
            }
        }
        if has_duplicate_keys(&roots) {
            return Err(GcErrorCode::RootInvalid);
        }
        let ghost canon_seq = canon@;
        let anchors = sort_by_key(canon);
        let roots = sort_by_key(roots);
        proof {
            assert(anchors@.to_multiset().len() == anchors@.len());
            assert(canon_seq.to_multiset().len() == canon_seq.len());
            assert(anchors@.len() == original.len());
            assert forall|i: int| 0 <= i < original.len() implies exists|j: int|
                0 <= j < original.len() && canonical_anchor(
                    #[trigger] original[i],
                    anchors@[j],
                ) by {
                let c = canon_seq[i];
                assert(canonical_anchor(original[i], c));
                assert(canon_seq.to_multiset().count(c) > 0);
                assert(anchors@.to_multiset().count(c) > 0);
                assert(anchors@.contains(c));
                let j = choose|j: int| 0 <= j < anchors@.len() && anchors@[j] == c;
                assert(canonical_anchor(original[i], anchors@[j]));
            }
        }
        Ok(RetentionSnapshot { anchors, roots })
    }

    /// Returns the canonical anchors.
    pub fn anchors(&self) -> (r: &Vec<RetentionAnchor>)
        ensures
            r@ == self.anchors_view(),
    {
        &self.anchors
    }

    /// Returns the canonical root catalog.
    pub fn roots(&self) -> (r: &Vec<GcRoot>)
        ensures
            r@ == self.roots_view(),
    {
        &self.roots
    }
}

/// Two lists with strictly ascending keys and the same members, counted
/// with multiplicity, are the same list.
pub proof fn lemma_sorted_multiset_unique<T: ByteKey>(a: Seq<T>, b: Seq<T>)
    requires
        keys_ascending(a),
        keys_ascending(b),
        a.to_multiset() == b.to_multiset(),
    ensures
        a == b,
    decreases a.len(),
{
    assert(a.to_multiset().len() == a.len());
    assert(b.to_multiset().len() == b.len());
    if a.len() == 0 {
        assert(a =~= b);
    } else {
        assert(a.contains(a[0]));
        assert(b.to_multiset().count(a[0]) > 0);
        let i = choose|i: int| 0 <= i < b.len() && b[i] == a[0];
        assert(b.contains(b[0]));
        assert(a.to_multiset().count(b[0]) > 0);
        let j = choose|j: int| 0 <= j < a.len() && a[j] == b[0];
        if i != 0 {
            assert(lex(b[0].sort_key(), b[i].sort_key()) == ByteOrder::Less);
            if j == 0 {
                lemma_lex_equal(b[0].sort_key(), b[i].sort_key());
                assert(b[0] == a[0]);
            } else {
                assert(lex(a[0].sort_key(), a[j].sort_key()) == ByteOrder::Less);
                lemma_lex_antisymmetric(b[0].sort_key(), a[0].sort_key());
            }
        }
        assert(b[0] == a[0]);
        let ra = a.remove(0);
        let rb = b.remove(0);
        assert(ra.to_multiset() =~= a.to_multiset().remove(a[0]));
        assert(rb.to_multiset() =~= b.to_multiset().remove(b[0]));
        assert(keys_ascending(ra)) by {
            assert forall|x: int, y: int| 0 <= x < y < ra.len() implies lex(
                #[trigger] ra[x].sort_key(),
                #[trigger] ra[y].sort_key(),
            ) == ByteOrder::Less by {
                assert(ra[x] == a[x + 1] && ra[y] == a[y + 1]);
            }
        }
        assert(keys_ascending(rb)) by {
            assert forall|x: int, y: int| 0 <= x < y < rb.len() implies lex(
                #[trigger] rb[x].sort_key(),
                #[trigger] rb[y].sort_key(),
            ) == ByteOrder::Less by {
                assert(rb[x] == b[x + 1] && rb[y] == b[y + 1]);
            }
        }
        lemma_sorted_multiset_unique(ra, rb);
        assert(a =~= seq![a[0]] + ra);
        assert(b =~= seq![b[0]] + rb);
    }
}

proof fn lemma_canonical_keys(a: Seq<RetentionAnchor>, roots: Seq<GcRoot>, ca: Seq<RetentionAnchor>, cr: Seq<GcRoot>)
    requires
        canonical_snapshot(a, roots, ca, cr),
    ensures
        forall|x: Seq<u8>| anchor_keys(ca).contains(x) <==> anchor_keys(a).contains(x),
{
    let ka = anchor_keys(a);
    let kc = anchor_keys(ca);
    assert(ka.no_duplicates()) by {
        assert forall|x: int, y: int| 0 <= x < y < ka.len() implies ka[x] != ka[y] by {
            assert(a[x].sort_key() != a[y].sort_key());
        }
    }
    assert(kc.no_duplicates()) by {
        assert forall|x: int, y: int| 0 <= x < y < kc.len() implies kc[x] != kc[y] by {
            assert(lex(ca[x].sort_key(), ca[y].sort_key()) == ByteOrder::Less);
            lemma_lex_equal(ca[x].sort_key(), ca[y].sort_key());
        }
    }
    assert(ka.to_set().subset_of(kc.to_set())) by {
        assert forall|x: Seq<u8>| ka.to_set().contains(x) implies kc.to_set().contains(x) by {
            let i = choose|i: int| 0 <= i < ka.len() && ka[i] == x;
            assert(a[i] == a[i]);
            let j = choose|j: int| 0 <= j < ca.len() && canonical_anchor(a[i], ca[j]);
            assert(kc[j] == x);
        }
    }
    ka.unique_seq_to_set();
    kc.unique_seq_to_set();
    vstd::seq_lib::seq_to_set_is_finite(ka);
    vstd::seq_lib::seq_to_set_is_finite(kc);
    vstd::set_lib::lemma_subset_equality(ka.to_set(), kc.to_set());
    assert forall|x: Seq<u8>| kc.contains(x) <==> ka.contains(x) by {
        assert(kc.contains(x) <==> kc.to_set().contains(x));
        assert(ka.contains(x) <==> ka.to_set().contains(x));
    }
}

/// The snapshot does not depend on the order its anchors and roots come
/// in: the canonical forms of two orderings of the same anchors and of the
/// same roots are one and the same.
pub proof fn lemma_snapshot_order_free(
    anchors1: Seq<RetentionAnchor>,
    anchors2: Seq<RetentionAnchor>,
    roots1: Seq<GcRoot>,
    roots2: Seq<GcRoot>,
    ca1: Seq<RetentionAnchor>,
    ca2: Seq<RetentionAnchor>,
    cr1: Seq<GcRoot>,
    cr2: Seq<GcRoot>,
)
    requires
        anchors1.to_multiset() == anchors2.to_multiset(),
        roots1.to_multiset() == roots2.to_multiset(),
        canonical_snapshot(anchors1, roots1, ca1, cr1),
        canonical_snapshot(anchors2, roots2, ca2, cr2),
    ensures
        anchor_views(ca1) == anchor_views(ca2),
        cr1 == cr2,
{
    lemma_sorted_multiset_unique(cr1, cr2);
    lemma_canonical_keys(anchors1, roots1, ca1, cr1);
    lemma_canonical_keys(anchors2, roots2, ca2, cr2);
    let k1 = anchor_keys(ca1);
    let k2 = anchor_keys(ca2);
    assert forall|x: RetentionAnchor| anchors1.contains(x) <==> anchors2.contains(x) by {
        assert(anchors1.contains(x) <==> anchors1.to_multiset().count(x) > 0);
        assert(anchors2.contains(x) <==> anchors2.to_multiset().count(x) > 0);
    }
    assert forall|x: Seq<u8>| anchor_keys(anchors1).contains(x) <==> anchor_keys(anchors2).contains(x) by {
        if anchor_keys(anchors1).contains(x) {
            let i = choose|i: int| 0 <= i < anchors1.len() && anchor_keys(anchors1)[i] == x;
            assert(anchors1.contains(anchors1[i]));
            let i2 = choose|i2: int| 0 <= i2 < anchors2.len() && anchors2[i2] == anchors1[i];
            assert(anchor_keys(anchors2)[i2] == x);
        }
        if anchor_keys(anchors2).contains(x) {
            let i = choose|i: int| 0 <= i < anchors2.len() && anchor_keys(anchors2)[i] == x;
            assert(anchors2.contains(anchors2[i]));
            let i2 = choose|i2: int| 0 <= i2 < anchors1.len() && anchors1[i2] == anchors2[i];
            assert(anchor_keys(anchors1)[i2] == x);
        }
    }
    lemma_ascending_unique(k1, k2);
    assert forall|k: int| 0 <= k < ca1.len() implies anchor_views(ca1)[k] == anchor_views(ca2)[k] by {
        let key = k1[k];
        assert(k1.contains(key));
        let i = choose|i: int| 0 <= i < anchors1.len() && anchor_keys(anchors1)[i] == key;
        assert(anchors1[i] == anchors1[i]);
        let j = choose|j: int| 0 <= j < ca1.len() && canonical_anchor(anchors1[i], ca1[j]);
        if j != k {
            lemma_lex_equal(ca1[j].sort_key(), ca1[k].sort_key());
            if j < k {
                assert(lex(ca1[j].sort_key(), ca1[k].sort_key()) == ByteOrder::Less);
            } else {
                assert(lex(ca1[k].sort_key(), ca1[j].sort_key()) == ByteOrder::Less);
            }
        }
        assert(k2[k] == key);
        assert(k2.contains(key));
        assert(anchor_keys(anchors2).contains(key));
        let i2 = choose|i2: int| 0 <= i2 < anchors2.len() && anchor_keys(anchors2)[i2] == key;
        assert(anchors2[i2] == anchors2[i2]);
        let j2 = choose|j2: int| 0 <= j2 < ca2.len() && canonical_anchor(anchors2[i2], ca2[j2]);
        if j2 != k {
            lemma_lex_equal(ca2[j2].sort_key(), ca2[k].sort_key());
            if j2 < k {
                assert(lex(ca2[j2].sort_key(), ca2[k].sort_key()) == ByteOrder::Less);
            } else {
                assert(lex(ca2[k].sort_key(), ca2[j2].sort_key()) == ByteOrder::Less);
            }
        }
        assert(anchors2.contains(anchors2[i2]));
        assert(anchors1.contains(anchors2[i2]));
        let i3 = choose|i3: int| 0 <= i3 < anchors1.len() && anchors1[i3] == anchors2[i2];
        if i3 != i {
            assert(anchors1[i3].sort_key() != anchors1[i].sort_key());
        }
        lemma_sorted_multiset_unique(ca1[k].targets@, ca2[k].targets@);
    }
    assert(anchor_views(ca1) =~= anchor_views(ca2));
}

/// The inputs a snapshot is made from are accepted: within the anchor and
/// root limits, each anchor with targets, none twice, all anchors' targets
/// within their limit, and no anchor key or root twice.
pub open spec fn snapshot_accepts(anchors: Seq<RetentionAnchor>, roots: Seq<GcRoot>) -> bool {
    &&& anchors.len() <= MAX_GC_ANCHORS
    &&& roots.len() <= MAX_GC_ROOTS
    &&& anchor_fault_from(anchors, 0, 0) is None
    &&& keys_distinct(anchors)
    &&& keys_distinct(roots)
}

/// The targets of all anchors, counted.
pub open spec fn targets_total(s: Seq<RetentionAnchor>) -> nat
    decreases s.len(),
{
    if s.len() == 0 {
        0
    } else {
        s[0].targets@.len() + targets_total(s.drop_first())
    }
}

/// An anchor on its own is well formed: it has targets, none twice.
pub open spec fn anchor_ok(a: RetentionAnchor) -> bool {
    a.targets@.len() > 0 && keys_distinct(a.targets@)
}

proof fn lemma_fault_free(a: Seq<RetentionAnchor>, i: int, count: nat)
    requires
        0 <= i <= a.len(),
        count <= MAX_GC_TARGETS,
    ensures
        anchor_fault_from(a, i, count) is None <==> (forall|j: int| i <= j < a.len() ==> anchor_ok(#[trigger] a[j]))
            && count + targets_total(a.skip(i)) <= MAX_GC_TARGETS,
    decreases a.len() - i,
{
    if i == a.len() {
        assert(a.skip(i) =~= Seq::<RetentionAnchor>::empty());
    } else {
        assert(a.skip(i).drop_first() =~= a.skip(i + 1));
        assert(a.skip(i)[0] == a[i]);
        if count + a[i].targets@.len() <= MAX_GC_TARGETS {
            lemma_fault_free(a, i + 1, count + a[i].targets@.len());
        }
    }
}

proof fn lemma_total_remove(t: Seq<RetentionAnchor>, i: int)
    requires
        0 <= i < t.len(),
    ensures
        targets_total(t) == targets_total(t.remove(i)) + t[i].targets@.len(),
    decreases t.len(),
{
    if i == 0 {
        assert(t.remove(0) =~= t.drop_first());
    } else {
        lemma_total_remove(t.drop_first(), i - 1);
        assert(t.remove(i) =~= seq![t[0]] + t.drop_first().remove(i - 1));
        assert(t.remove(i)[0] == t[0]);
        assert(t.remove(i).drop_first() =~= t.drop_first().remove(i - 1));
    }
}

proof fn lemma_total_permuted(s: Seq<RetentionAnchor>, t: Seq<RetentionAnchor>)
    requires
        s.to_multiset() == t.to_multiset(),
    ensures
        targets_total(s) == targets_total(t),
    decreases s.len(),
{
    assert(s.to_multiset().len() == s.len());
    assert(t.to_multiset().len() == t.len());
    if s.len() > 0 {
        assert(s.contains(s[0]));
        assert(t.to_multiset().count(s[0]) > 0);
        let i = choose|i: int| 0 <= i < t.len() && t[i] == s[0];
        lemma_total_remove(t, i);
        assert(s.remove(0) =~= s.drop_first());
        assert(s.remove(0).to_multiset() =~= s.to_multiset().remove(s[0]));
        assert(t.remove(i).to_multiset() =~= t.to_multiset().remove(t[i]));
        lemma_total_permuted(s.drop_first(), t.remove(i));
    }
}

proof fn lemma_twice<T>(s: Seq<T>, i: int, j: int)
    requires
        0 <= i < s.len(),
        0 <= j < s.len(),
        i != j,
        s[i] == s[j],
    ensures
        s.to_multiset().count(s[i]) >= 2,
{
    let r = s.remove(i);
    assert(r.to_multiset() =~= s.to_multiset().remove(s[i]));
    let j2 = if j < i { j } else { j - 1 };
    assert(r[j2] == s[i]);
    assert(r.contains(s[i]));
    assert(r.to_multiset().count(s[i]) > 0);
}

proof fn lemma_two_places<T>(s: Seq<T>, x: T)
    requires
        s.to_multiset().count(x) >= 2,
    ensures
        exists|i: int, j: int| 0 <= i < s.len() && 0 <= j < s.len() && i != j && s[i] == x && s[j] == x,
{
    assert(s.contains(x));
    let i = choose|i: int| 0 <= i < s.len() && s[i] == x;
    let r = s.remove(i);
    assert(r.to_multiset() =~= s.to_multiset().remove(s[i]));
    assert(r.to_multiset().count(x) > 0);
    assert(r.contains(x));
    let j2 = choose|j: int| 0 <= j < r.len() && r[j] == x;
    let j = if j2 < i { j2 } else { j2 + 1 };
    assert(s[j] == x);
}

proof fn lemma_distinct_permuted<T: ByteKey>(s: Seq<T>, t: Seq<T>)
    requires
        s.to_multiset() == t.to_multiset(),
        keys_distinct(s),
    ensures
        keys_distinct(t),
{
    assert forall|i: int, j: int|
        0 <= i < t.len() && 0 <= j < t.len() && i != j implies #[trigger] t[i].sort_key() != #[trigger] t[j].sort_key() by {
        if t[i].sort_key() == t[j].sort_key() {
            if t[i] == t[j] {
                lemma_twice(t, i, j);
                lemma_two_places(s, t[i]);
                let (a, b) = choose|a: int, b: int| 0 <= a < s.len() && 0 <= b < s.len() && a != b && s[a] == t[i] && s[b] == t[i];
                assert(s[a].sort_key() != s[b].sort_key());
            } else {
                assert(t.contains(t[i]) && t.contains(t[j]));
                assert(s.to_multiset().count(t[i]) > 0 && s.to_multiset().count(t[j]) > 0);
                let a = choose|a: int| 0 <= a < s.len() && s[a] == t[i];
                let b = choose|b: int| 0 <= b < s.len() && s[b] == t[j];
                assert(s[a].sort_key() != s[b].sort_key());
            }
        }
    }
}

/// Whether the snapshot inputs are accepted does not depend on their
/// order: two orderings of the same anchors and of the same roots are both
/// accepted or both refused.
pub proof fn lemma_snapshot_acceptance_order_free(
    anchors1: Seq<RetentionAnchor>,
    anchors2: Seq<RetentionAnchor>,
    roots1: Seq<GcRoot>,
    roots2: Seq<GcRoot>,
)
    requires
        anchors1.to_multiset() == anchors2.to_multiset(),
        roots1.to_multiset() == roots2.to_multiset(),
    ensures
        snapshot_accepts(anchors1, roots1) == snapshot_accepts(anchors2, roots2),
{
    assert(anchors1.to_multiset().len() == anchors1.len());
    assert(anchors2.to_multiset().len() == anchors2.len());
    assert(roots1.to_multiset().len() == roots1.len());
    assert(roots2.to_multiset().len() == roots2.len());
    lemma_fault_free(anchors1, 0, 0);
    lemma_fault_free(anchors2, 0, 0);
    assert(anchors1.skip(0) =~= anchors1);
    assert(anchors2.skip(0) =~= anchors2);
    lemma_total_permuted(anchors1, anchors2);
    assert forall|x: RetentionAnchor| anchors1.contains(x) <==> anchors2.contains(x) by {
        assert(anchors1.contains(x) <==> anchors1.to_multiset().count(x) > 0);
        assert(anchors2.contains(x) <==> anchors2.to_multiset().count(x) > 0);
    }
    assert((forall|j: int| 0 <= j < anchors1.len() ==> anchor_ok(#[trigger] anchors1[j])) <==> (forall|j: int|
        0 <= j < anchors2.len() ==> anchor_ok(#[trigger] anchors2[j]))) by {
        if forall|j: int| 0 <= j < anchors1.len() ==> anchor_ok(#[trigger] anchors1[j]) {
            assert forall|j: int| 0 <= j < anchors2.len() implies anchor_ok(#[trigger] anchors2[j]) by {
                assert(anchors2.contains(anchors2[j]));
                let k = choose|k: int| 0 <= k < anchors1.len() && anchors1[k] == anchors2[j];
            }
        }
        if forall|j: int| 0 <= j < anchors2.len() ==> anchor_ok(#[trigger] anchors2[j]) {
            assert forall|j: int| 0 <= j < anchors1.len() implies anchor_ok(#[trigger] anchors1[j]) by {
                assert(anchors1.contains(anchors1[j]));
                let k = choose|k: int| 0 <= k < anchors2.len() && anchors2[k] == anchors1[j];
            }
        }
    }
    if keys_distinct(anchors1) {
        lemma_distinct_permuted(anchors1, anchors2);
    }
    if keys_distinct(anchors2) {
        lemma_distinct_permuted(anchors2, anchors1);
    }
    if keys_distinct(roots1) {
        lemma_distinct_permuted(roots1, roots2);
    }
    if keys_distinct(roots2) {
        lemma_distinct_permuted(roots2, roots1);
    }
}

proof fn lemma_flat_targets_views(a: Seq<RetentionAnchor>, b: Seq<RetentionAnchor>)
    requires
        anchor_views(a) == anchor_views(b),
    ensures
        crate::gc_plan::flat_targets(a) == crate::gc_plan::flat_targets(b),
    decreases a.len(),
{
    assert(a.len() == anchor_views(a).len());
    assert(b.len() == anchor_views(b).len());
    if a.len() > 0 {
        assert(anchor_views(a.drop_last()) =~= anchor_views(a).drop_last());
        assert(anchor_views(b.drop_last()) =~= anchor_views(b).drop_last());
        lemma_flat_targets_views(a.drop_last(), b.drop_last());
        assert(anchor_views(a)[a.len() - 1] == anchor_views(b)[a.len() - 1]);
        assert(a.last().targets@ == b.last().targets@);
    }
}

/// A plan does not depend on the order the snapshot's anchors and roots
/// were given in: for two orderings of the same anchors and roots, both
/// accepted, the canonical snapshots plan alike. They have the same targets,
/// roots and anchor count, so the same faults and limits, the same
/// retained roots and reachable objects, and so the same plan.
pub proof fn lemma_plan_order_free(
    anchors1: Seq<RetentionAnchor>,
    anchors2: Seq<RetentionAnchor>,
    roots1: Seq<GcRoot>,
    roots2: Seq<GcRoot>,
    ca1: Seq<RetentionAnchor>,
    ca2: Seq<RetentionAnchor>,
    cr1: Seq<GcRoot>,
    cr2: Seq<GcRoot>,
    inventory: Seq<crate::gc_plan::InventoryObject>,
)
    requires
        anchors1.to_multiset() == anchors2.to_multiset(),
        roots1.to_multiset() == roots2.to_multiset(),
        canonical_snapshot(anchors1, roots1, ca1, cr1),
        canonical_snapshot(anchors2, roots2, ca2, cr2),
    ensures
        snapshot_accepts(anchors1, roots1) == snapshot_accepts(anchors2, roots2),
        crate::gc_plan::flat_targets(ca1) == crate::gc_plan::flat_targets(ca2),
        cr1 == cr2,
        ca1.len() == ca2.len(),
        crate::gc_plan::plan_faulted(ca1, cr1, inventory) == crate::gc_plan::plan_faulted(ca2, cr2, inventory),
        crate::gc_plan::plan_over_limits(ca1, cr1, inventory) == crate::gc_plan::plan_over_limits(ca2, cr2, inventory),
        crate::gc_plan::reachable_spec(crate::gc_plan::flat_targets(ca1), cr1, inventory) == crate::gc_plan::reachable_spec(
            crate::gc_plan::flat_targets(ca2),
            cr2,
            inventory,
        ),
        crate::gc_plan::retained_spec(crate::gc_plan::flat_targets(ca1), cr1) == crate::gc_plan::retained_spec(
            crate::gc_plan::flat_targets(ca2),
            cr2,
        ),
{
    lemma_snapshot_acceptance_order_free(anchors1, anchors2, roots1, roots2);
    lemma_snapshot_order_free(anchors1, anchors2, roots1, roots2, ca1, ca2, cr1, cr2);
    lemma_flat_targets_views(ca1, ca2);
    assert(ca1.len() == anchor_views(ca1).len());
    assert(ca2.len() == anchor_views(ca2).len());
}

} // verus!
