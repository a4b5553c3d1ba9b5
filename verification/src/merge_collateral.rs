//! The collateral rule of a merge: an identity one side touched conflicts
//! when the other side added or changed something that depends on it, by
//! any impact edge but ownership.

use vstd::prelude::*;

use crate::bytes::bytes_equal;
use crate::compare::ChangeClass;
use crate::compare_fields::RootEntity;
use crate::compare_roots::{edge_views, EdgeView, ImpactEdge};
use crate::delta::EntityDelta;
use crate::digest::digests_view;
use crate::gc::contains_id;
use crate::merge::{ConflictEntry, ConflictReason, MergeError, MergeErrorCode, Work, MAX_MERGE_WORK};
use crate::merge_judge::{find_entity, kind_at, object_at, swap_objects, Judgment};

verus! {

/// The frozen tag of an ownership edge.
pub const IMPACT_KIND_OWNERSHIP: u32 = 1;

/// `b` refers to `a` by an impact edge other than ownership.
pub open spec fn dependent_step(edges: Seq<EdgeView>, a: Seq<u8>, b: Seq<u8>) -> bool {
    exists|k: int|
        0 <= k < edges.len() && (#[trigger] edges[k]).1 == a && edges[k].0 == b && edges[k].2
            != IMPACT_KIND_OWNERSHIP
}

/// `s` holds every entity that refers to `id`, or to a member of `s`, by
/// an edge other than ownership.
pub open spec fn dependents_closed(edges: Seq<EdgeView>, id: Seq<u8>, s: Set<Seq<u8>>) -> bool {
    &&& forall|b: Seq<u8>| #[trigger] dependent_step(edges, id, b) ==> s.contains(b)
    &&& forall|a: Seq<u8>, b: Seq<u8>| #[trigger] dependent_step(edges, a, b) && s.contains(a) ==> s.contains(b)
}

/// `x` depends on `id` through one or more edges other than ownership.
pub open spec fn is_dependent(edges: Seq<EdgeView>, id: Seq<u8>, x: Seq<u8>) -> bool {
    forall|s: Set<Seq<u8>>| #![trigger dependents_closed(edges, id, s)] dependents_closed(edges, id, s) ==> s.contains(x)
}

/// Some edge has `x` as its referring entity.
pub open spec fn refers(edges: Seq<EdgeView>, x: Seq<u8>) -> bool {
    exists|k: int| 0 <= k < edges.len() && (#[trigger] edges[k]).0 == x
}

/// The entities that depend on `id` through edges other than ownership.
pub open spec fn dependents_of(edges: Seq<EdgeView>, id: Seq<u8>) -> Set<Seq<u8>> {
    Set::new(|x: Seq<u8>| is_dependent(edges, id, x))
}

/// The number of edges that refer to a member of `s`.
pub open spec fn edges_into(edges: Seq<EdgeView>, s: Set<Seq<u8>>) -> nat
    decreases edges.len(),
{
    if edges.len() == 0 {
        0
    } else {
        edges_into(edges.drop_last(), s) + if s.contains(edges.last().1) {
            1nat
        } else {
            0nat
        }
    }
}

/// The work of collecting the dependents of `id`: one unit for each edge
/// that refers to `id` or to one of its dependents.
pub open spec fn dependents_work(edges: Seq<EdgeView>, id: Seq<u8>) -> nat {
    edges_into(edges, set![id]) + edges_into(edges, dependents_of(edges, id))
}

proof fn lemma_edges_into_step(edges: Seq<EdgeView>, s: Set<Seq<u8>>, k: int)
    requires
        0 <= k < edges.len(),
    ensures
        edges_into(edges.take(k + 1), s) == edges_into(edges.take(k), s) + if s.contains(edges[k].1) {
            1nat
        } else {
            0nat
        },
{
    assert(edges.take(k + 1).drop_last() =~= edges.take(k));
}

proof fn lemma_edges_into_empty(edges: Seq<EdgeView>)
    ensures
        edges_into(edges, Set::<Seq<u8>>::empty()) == 0,
    decreases edges.len(),
{
    if edges.len() > 0 {
        lemma_edges_into_empty(edges.drop_last());
    }
}

proof fn lemma_edges_into_prefix(edges: Seq<EdgeView>, s: Set<Seq<u8>>, k: int)
    requires
        0 <= k <= edges.len(),
    ensures
        edges_into(edges.take(k), s) <= edges_into(edges, s),
    decreases edges.len() - k,
{
    if k < edges.len() {
        lemma_edges_into_step(edges, s, k);
        lemma_edges_into_prefix(edges, s, k + 1);
    } else {
        assert(edges.take(k) =~= edges);
    }
}

proof fn lemma_edges_into_insert(edges: Seq<EdgeView>, s: Set<Seq<u8>>, c: Seq<u8>)
    requires
        !s.contains(c),
    ensures
        edges_into(edges, s.insert(c)) == edges_into(edges, s) + edges_into(edges, set![c]),
    decreases edges.len(),
{
    if edges.len() > 0 {
        lemma_edges_into_insert(edges.drop_last(), s, c);
    }
}

proof fn lemma_edges_into_subset(edges: Seq<EdgeView>, s: Set<Seq<u8>>, t: Set<Seq<u8>>)
    requires
        s.subset_of(t),
    ensures
        edges_into(edges, s) <= edges_into(edges, t),
    decreases edges.len(),
{
    if edges.len() > 0 {
        lemma_edges_into_subset(edges.drop_last(), s, t);
    }
}

proof fn lemma_reached_bound(edges: Seq<EdgeView>, rv: Seq<Seq<u8>>)
    requires
        rv.no_duplicates(),
        forall|m: int| 0 <= m < rv.len() ==> refers(edges, #[trigger] rv[m]),
    ensures
        rv.len() <= edges.len(),
{
    let deps = edges.map_values(|e: EdgeView| e.0);
    assert(rv.to_set().subset_of(deps.to_set())) by {
        assert forall|x: Seq<u8>| rv.to_set().contains(x) implies deps.to_set().contains(x) by {
            let m = choose|m: int| 0 <= m < rv.len() && rv[m] == x;
            assert(refers(edges, rv[m]));
            let k = choose|k: int| 0 <= k < edges.len() && (#[trigger] edges[k]).0 == rv[m];
            assert(deps[k] == x);
        }
    }
    rv.unique_seq_to_set();
    deps.lemma_cardinality_of_set();
    vstd::seq_lib::seq_to_set_is_finite(deps);
    vstd::set_lib::lemma_len_subset(rv.to_set(), deps.to_set());
}

proof fn lemma_first_step(edges: Seq<EdgeView>, id: Seq<u8>, b: Seq<u8>)
    requires
        dependent_step(edges, id, b),
    ensures
        is_dependent(edges, id, b),
{
    assert forall|s: Set<Seq<u8>>| #![trigger dependents_closed(edges, id, s)] dependents_closed(edges, id, s) implies s.contains(b) by {}
}

proof fn lemma_next_step(edges: Seq<EdgeView>, id: Seq<u8>, a: Seq<u8>, b: Seq<u8>)
    requires
        is_dependent(edges, id, a),
        dependent_step(edges, a, b),
    ensures
        is_dependent(edges, id, b),
{
    assert forall|s: Set<Seq<u8>>| #![trigger dependents_closed(edges, id, s)] dependents_closed(edges, id, s) implies s.contains(b) by {
        assert(s.contains(a));
    }
}

/// What the traversal from `id` has established once `head` entries of
/// `id` followed by `rv` have been expanded.
spec fn dependents_inv(edges: Seq<EdgeView>, id: Seq<u8>, rv: Seq<Seq<u8>>, head: int) -> bool {
    &&& 0 <= head <= rv.len() + 1
    &&& rv.no_duplicates()
    &&& forall|m: int| 0 <= m < rv.len() ==> is_dependent(edges, id, #[trigger] rv[m])
    &&& forall|m: int| 0 <= m < rv.len() ==> refers(edges, #[trigger] rv[m])
    &&& head >= 1 ==> forall|b: Seq<u8>| dependent_step(edges, id, b) ==> rv.contains(b)
    &&& forall|m: int, b: Seq<u8>| 0 <= m < head - 1 && #[trigger] dependent_step(edges, rv[m], b) ==> rv.contains(b)
}

/// Collects the entities that depend on `id` through impact edges other
/// than ownership, charging one unit of work for every edge that refers to
/// `id` or to a dependent; fails once the work passes its budget.
#[verifier::loop_isolation(false)]
#[verifier::rlimit(60)]
pub fn non_ownership_dependents(edges: &Vec<ImpactEdge>, id: &[u8; 32], work: &mut Work) -> (r: Result<
    Vec<[u8; 32]>,
    MergeError,
>)
    requires
        old(work).spent() <= MAX_MERGE_WORK,
    ensures
        final(work).spent() <= MAX_MERGE_WORK,
        old(work).spent() + dependents_work(edge_views(edges@), id@) <= MAX_MERGE_WORK ==> r is Ok
            && final(work).spent() == old(work).spent() + dependents_work(edge_views(edges@), id@),
        old(work).spent() + dependents_work(edge_views(edges@), id@) > MAX_MERGE_WORK ==> r == Err::<
            Vec<[u8; 32]>,
            MergeError,
        >(MergeError::Merge(MergeErrorCode::ResourceLimit)),
        r matches Ok(v) ==> digests_view(v@).no_duplicates() && forall|x: Seq<u8>|
            digests_view(v@).contains(x) <==> is_dependent(edge_views(edges@), id@, x),
{
    let ghost ev = edge_views(edges@);
    let ghost start = work.spent();
    let ghost deps = dependents_of(ev, id@);
    let mut reached: Vec<[u8; 32]> = Vec::new();
    let mut head: usize = 0;
    proof {
        assert(digests_view(reached@) =~= Seq::<Seq<u8>>::empty());
    }
    while head <= reached.len()
        invariant
            ev == edge_views(edges@),
            work.spent() <= MAX_MERGE_WORK,
            dependents_inv(ev, id@, digests_view(reached@), head as int),
            reached@.len() <= edges@.len(),
            start + reached@.len() <= work.spent(),
            head == 0 ==> work.spent() == start,
            head >= 1 ==> work.spent() == start + edges_into(ev, set![id@]) + edges_into(
                ev,
                digests_view(reached@).take(head - 1).to_set(),
            ),
        decreases edges@.len() + 1 - head,
    {
        let ghost rv0 = digests_view(reached@);
        let ghost before = work.spent();
        let current: [u8; 32] = if head == 0 {
            *id
        } else {
            reached[head - 1]
        };
        proof {
            assert(dependents_inv(ev, id@, rv0, head as int));
            if head >= 1 {
                assert(rv0[head - 1] == current@);
                assert(is_dependent(ev, id@, current@));
            }
        }
        let mut k: usize = 0;
        assert(digests_view(reached@).take(rv0.len() as int) =~= rv0);
        while k < edges.len()
            invariant
                ev == edge_views(edges@),
                k <= edges@.len(),
                work.spent() <= MAX_MERGE_WORK,
                work.spent() == before + edges_into(ev.take(k as int), set![current@]),
                reached@.len() <= edges@.len(),
                start + reached@.len() <= work.spent(),
                rv0.len() <= reached@.len(),
                digests_view(reached@).take(rv0.len() as int) == rv0,
                dependents_inv(ev, id@, digests_view(reached@), head as int),
                forall|j: int|
                    0 <= j < k && ev[j].1 == current@ && ev[j].2 != IMPACT_KIND_OWNERSHIP ==> digests_view(
                        reached@,
                    ).contains(#[trigger] ev[j].0),
            decreases edges.len() - k,
        {
            proof {
                lemma_edges_into_step(ev, set![current@], k as int);
            }
            if bytes_equal(edges[k].dependency.as_slice(), current.as_slice()) {
                assert(ev[k as int].1 == current@);
                let charged = work.charge(1);
                if charged.is_err() {
                    proof {
                        lemma_edges_into_prefix(ev, set![current@], k + 1);
                        lemma_dependents_work_covers(ev, id@, rv0, head as int);
                    }
                    return Err(MergeError::Merge(MergeErrorCode::ResourceLimit));
                }
                if edges[k].kind != IMPACT_KIND_OWNERSHIP && !contains_id(&reached, &edges[k].dependent) {
                    let ghost rv = digests_view(reached@);
                    let y = edges[k].dependent;
                    proof {
                        assert(ev[k as int].0 == y@);
                        assert(dependent_step(ev, current@, y@));
                        if head == 0 {
                            lemma_first_step(ev, id@, y@);
                        } else {
                            lemma_next_step(ev, id@, current@, y@);
                        }
                    }
                    reached.push(y);
                    proof {
                        let nv = digests_view(reached@);
                        assert(nv =~= rv.push(y@));
                        assert(nv.take(rv0.len() as int) =~= rv.take(rv0.len() as int));
                        assert(nv.no_duplicates()) by {
                            assert forall|a: int, b: int| 0 <= a < b < nv.len() implies nv[a] != nv[b] by {
                                if b == rv.len() {
                                    assert(nv[a] == rv[a]);
                                    if nv[a] == y@ {
                                        assert(rv.contains(y@));
                                    }
                                }
                            }
                        }
                        assert forall|m: int| 0 <= m < nv.len() implies refers(ev, #[trigger] nv[m]) by {
                            if m < rv.len() {
                                assert(nv[m] == rv[m]);
                            } else {
                                assert(ev[k as int].0 == nv[m]);
                            }
                        }
                        assert forall|m: int| 0 <= m < nv.len() implies is_dependent(ev, id@, #[trigger] nv[m]) by {
                            if m < rv.len() {
                                assert(nv[m] == rv[m]);
                            }
                        }
                        assert forall|x: Seq<u8>| rv.contains(x) implies nv.contains(x) by {
                            let m = choose|m: int| 0 <= m < rv.len() && rv[m] == x;
                            assert(nv[m] == x);
                        }
                        assert(nv[rv.len() as int] == y@);
                        assert forall|m: int, b: Seq<u8>|
                            0 <= m < head - 1 && #[trigger] dependent_step(ev, nv[m], b) implies nv.contains(b) by {
                            assert(nv[m] == rv[m]);
                        }
                        lemma_reached_bound(ev, nv);
                    }
                }
            }
            proof {
                let nv = digests_view(reached@);
                assert forall|j: int|
                    0 <= j < k + 1 && ev[j].1 == current@ && ev[j].2 != IMPACT_KIND_OWNERSHIP implies nv.contains(
                    #[trigger] ev[j].0,
                ) by {
                    if j == k {
                        assert(ev[k as int] == edges@[k as int]@);
                    }
                }
            }
            k = k + 1;
        }
        let ghost rv = digests_view(reached@);
        proof {
            assert(ev.take(k as int) =~= ev);
            assert forall|b: Seq<u8>| #[trigger] dependent_step(ev, current@, b) implies rv.contains(b) by {
                let j = choose|j: int|
                    0 <= j < ev.len() && (#[trigger] ev[j]).1 == current@ && ev[j].0 == b && ev[j].2
                        != IMPACT_KIND_OWNERSHIP;
                assert(rv.contains(ev[j].0));
            }
            if head >= 1 {
                assert(rv[head - 1] == current@);
                assert(rv0.take(head - 1) =~= rv.take(head - 1));
                assert(rv.take(head as int).to_set() =~= rv.take(head - 1).to_set().insert(current@));
                assert(!rv.take(head - 1).to_set().contains(current@)) by {
                    if rv.take(head - 1).to_set().contains(current@) {
                        let m = choose|m: int| 0 <= m < head - 1 && #[trigger] rv.take(head - 1)[m] == current@;
                        assert(rv[m] == rv[head - 1]);
                    }
                }
                lemma_edges_into_insert(ev, rv.take(head - 1).to_set(), current@);
                assert forall|m: int, b: Seq<u8>|
                    0 <= m < head && #[trigger] dependent_step(ev, rv[m], b) implies rv.contains(b) by {
                    if m == head - 1 {
                        assert(rv[m] == current@);
                    }
                }
            } else {
                assert(rv.take(0).to_set() =~= Set::<Seq<u8>>::empty());
                lemma_edges_into_empty(ev);
            }
        }
        head = head + 1;
    }
    let ghost rv = digests_view(reached@);
    proof {
        assert(rv.take(head - 1) =~= rv);
        assert(dependents_closed(ev, id@, rv.to_set())) by {
            assert forall|a: Seq<u8>, b: Seq<u8>| #[trigger] dependent_step(ev, a, b) && rv.to_set().contains(a)
                implies rv.to_set().contains(b) by {
                let m = choose|m: int| 0 <= m < rv.len() && rv[m] == a;
                assert(dependent_step(ev, rv[m], b));
            }
        }
        assert(rv.to_set() =~= deps) by {
            assert forall|x: Seq<u8>| rv.to_set().contains(x) implies deps.contains(x) by {
                let m = choose|m: int| 0 <= m < rv.len() && rv[m] == x;
            }
        }
    }
    Ok(reached)
}

proof fn lemma_dependents_work_covers(edges: Seq<EdgeView>, id: Seq<u8>, rv: Seq<Seq<u8>>, head: int)
    requires
        dependents_inv(edges, id, rv, head),
        head <= rv.len(),
    ensures
        ({
            let current = if head == 0 {
                id
            } else {
                rv[head - 1]
            };
            let done = if head == 0 {
                0
            } else {
                edges_into(edges, set![id]) + edges_into(edges, rv.take(head - 1).to_set())
            };
            done + edges_into(edges, set![current]) <= dependents_work(edges, id)
        }),
{
    let deps = dependents_of(edges, id);
    if head >= 1 {
        let s = rv.take(head - 1).to_set();
        let c = rv[head - 1];
        assert(!s.contains(c)) by {
            if s.contains(c) {
                let m = choose|m: int| 0 <= m < head - 1 && #[trigger] rv.take(head - 1)[m] == c;
                assert(rv[m] == rv[head - 1]);
            }
        }
        lemma_edges_into_insert(edges, s, c);
        assert(s.insert(c).subset_of(deps)) by {
            assert forall|x: Seq<u8>| s.insert(c).contains(x) implies deps.contains(x) by {
                if x != c {
                    let m = choose|m: int| 0 <= m < head - 1 && #[trigger] rv.take(head - 1)[m] == x;
                    assert(rv[m] == x);
                }
            }
        }
        lemma_edges_into_subset(edges, s.insert(c), deps);
    }
}

/// A side's entry touched its identity: changed, retyped or removed it.
pub open spec fn touched(c: ChangeClass) -> bool {
    c == ChangeClass::Changed || c == ChangeClass::Retyped || c == ChangeClass::Removed
}

/// A side's entry is an edit a dependent relation can rest on: it added,
/// changed or retyped its identity.
pub open spec fn edited(c: ChangeClass) -> bool {
    c == ChangeClass::Added || c == ChangeClass::Changed || c == ChangeClass::Retyped
}

/// Some entry of `other` edits a member of `ds`.
pub open spec fn edits_any(other: Seq<EntityDelta>, ds: Set<Seq<u8>>) -> bool {
    exists|k: int| 0 <= k < other.len() && edited((#[trigger] other[k]).change) && ds.contains(other[k].entity_id@)
}

/// A binding: an identity and the object it takes, `None` to remove it.
pub type Binding = ([u8; 32], Option<[u8; 32]>);

/// The judgment bound `id` to a side's outcome.
pub open spec fn bound(bindings: Seq<Binding>, id: Seq<u8>) -> bool {
    exists|k: int| 0 <= k < bindings.len() && (#[trigger] bindings[k]).0@ == id
}

/// The collateral conflict of `id`: the base kind (zero when the base lacks
/// it), ours' object from ours and theirs' from theirs.
pub open spec fn collateral_entry(
    id: [u8; 32],
    base: Seq<RootEntity>,
    ours: Seq<RootEntity>,
    theirs: Seq<RootEntity>,
) -> ConflictEntry {
    ConflictEntry {
        entity_id: id,
        reason: ConflictReason::Collateral,
        kind: match kind_at(base, id@) {
            Some(k) => k,
            None => 0,
        },
        field: 0,
        ours_object: object_at(ours, id@),
        theirs_object: object_at(theirs, id@),
        detail: 0,
    }
}

/// One entry of a side, after charging one unit of work: a bound identity
/// the side touched collects its dependents in the other side's index and
/// conflicts when the other side edits one of them.
pub open spec fn collateral_step(
    e: EntityDelta,
    other: Seq<EntityDelta>,
    edges: Seq<EdgeView>,
    bindings: Seq<Binding>,
    base: Seq<RootEntity>,
    ours: Seq<RootEntity>,
    theirs: Seq<RootEntity>,
    acc: Seq<ConflictEntry>,
    w: int,
) -> Result<(Seq<ConflictEntry>, int), MergeError> {
    let id = e.entity_id@;
    if !touched(e.change) || !bound(bindings, id) {
        Ok((acc, w))
    } else if w + dependents_work(edges, id) > MAX_MERGE_WORK {
        Err(MergeError::Merge(MergeErrorCode::ResourceLimit))
    } else if edits_any(other, dependents_of(edges, id)) {
        Ok((acc.push(collateral_entry(e.entity_id, base, ours, theirs)), w + dependents_work(edges, id)))
    } else {
        Ok((acc, w + dependents_work(edges, id)))
    }
}

/// The collateral rule over one side's entries in turn, from `acc` and
/// `spent`; the first failure decides.
pub open spec fn collateral_fold(
    this: Seq<EntityDelta>,
    other: Seq<EntityDelta>,
    edges: Seq<EdgeView>,
    bindings: Seq<Binding>,
    base: Seq<RootEntity>,
    ours: Seq<RootEntity>,
    theirs: Seq<RootEntity>,
    acc: Seq<ConflictEntry>,
    spent: int,
) -> Result<(Seq<ConflictEntry>, int), MergeError>
    decreases this.len(),
{
    if this.len() == 0 {
        Ok((acc, spent))
    } else {
        match collateral_fold(this.drop_last(), other, edges, bindings, base, ours, theirs, acc, spent) {
            Err(e) => Err(e),
            Ok((a, w)) => if w + 1 > MAX_MERGE_WORK {
                Err(MergeError::Merge(MergeErrorCode::ResourceLimit))
            } else {
                collateral_step(this.last(), other, edges, bindings, base, ours, theirs, a, w + 1)
            },
        }
    }
}

/// The collateral rule over both sides from `spent`: ours' entries against
/// theirs' edits and theirs' index, then theirs' against ours'.
pub open spec fn collateral_spec(
    delta_a: Seq<EntityDelta>,
    delta_b: Seq<EntityDelta>,
    edges_a: Seq<EdgeView>,
    edges_b: Seq<EdgeView>,
    bindings: Seq<Binding>,
    base: Seq<RootEntity>,
    ours: Seq<RootEntity>,
    theirs: Seq<RootEntity>,
    spent: int,
) -> Result<(Seq<ConflictEntry>, int), MergeError> {
    match collateral_fold(delta_a, delta_b, edges_b, bindings, base, ours, theirs, Seq::empty(), spent) {
        Err(e) => Err(e),
        Ok((acc, w)) => collateral_fold(delta_b, delta_a, edges_a, bindings, base, ours, theirs, acc, w),
    }
}

/// The work one side's pass charges: a unit per entry, and the work of
/// collecting the dependents of each bound identity the side touched.
pub open spec fn collateral_cost(this: Seq<EntityDelta>, edges: Seq<EdgeView>, bindings: Seq<Binding>) -> nat
    decreases this.len(),
{
    if this.len() == 0 {
        0
    } else {
        let e = this.last();
        collateral_cost(this.drop_last(), edges, bindings) + 1 + if touched(e.change) && bound(
            bindings,
            e.entity_id@,
        ) {
            dependents_work(edges, e.entity_id@)
        } else {
            0
        }
    }
}

/// The conflicts one side's pass finds, in entry order.
pub open spec fn collateral_found(
    this: Seq<EntityDelta>,
    other: Seq<EntityDelta>,
    edges: Seq<EdgeView>,
    bindings: Seq<Binding>,
    base: Seq<RootEntity>,
    ours: Seq<RootEntity>,
    theirs: Seq<RootEntity>,
) -> Seq<ConflictEntry>
    decreases this.len(),
{
    if this.len() == 0 {
        Seq::empty()
    } else {
        let e = this.last();
        collateral_found(this.drop_last(), other, edges, bindings, base, ours, theirs) + if touched(e.change)
            && bound(bindings, e.entity_id@) && edits_any(other, dependents_of(edges, e.entity_id@)) {
            seq![collateral_entry(e.entity_id, base, ours, theirs)]
        } else {
            Seq::empty()
        }
    }
}

proof fn lemma_collateral_closed(
    this: Seq<EntityDelta>,
    other: Seq<EntityDelta>,
    edges: Seq<EdgeView>,
    bindings: Seq<Binding>,
    base: Seq<RootEntity>,
    ours: Seq<RootEntity>,
    theirs: Seq<RootEntity>,
    acc: Seq<ConflictEntry>,
    spent: int,
)
    requires
        0 <= spent <= MAX_MERGE_WORK,
    ensures
        collateral_fold(this, other, edges, bindings, base, ours, theirs, acc, spent) == if spent + collateral_cost(
            this,
            edges,
            bindings,
        ) > MAX_MERGE_WORK {
            Err::<(Seq<ConflictEntry>, int), MergeError>(MergeError::Merge(MergeErrorCode::ResourceLimit))
        } else {
            Ok((
                acc + collateral_found(this, other, edges, bindings, base, ours, theirs),
                spent + collateral_cost(this, edges, bindings),
            ))
        },
    decreases this.len(),
{
    if this.len() == 0 {
        assert(acc + Seq::<ConflictEntry>::empty() =~= acc);
    } else {
        let d = this.drop_last();
        lemma_collateral_closed(d, other, edges, bindings, base, ours, theirs, acc, spent);
        let f = collateral_found(d, other, edges, bindings, base, ours, theirs);
        let e = this.last();
        if touched(e.change) && bound(bindings, e.entity_id@) && edits_any(other, dependents_of(edges, e.entity_id@)) {
            assert((acc + f).push(collateral_entry(e.entity_id, base, ours, theirs)) =~= acc + (f + seq![
                collateral_entry(e.entity_id, base, ours, theirs),
            ]));
        } else {
            assert(acc + f =~= acc + (f + Seq::<ConflictEntry>::empty()));
        }
    }
}

proof fn lemma_found_swapped(
    this: Seq<EntityDelta>,
    other: Seq<EntityDelta>,
    edges: Seq<EdgeView>,
    bindings: Seq<Binding>,
    base: Seq<RootEntity>,
    ours: Seq<RootEntity>,
    theirs: Seq<RootEntity>,
)
    ensures
        collateral_found(this, other, edges, bindings, base, theirs, ours) == collateral_found(
            this,
            other,
            edges,
            bindings,
            base,
            ours,
            theirs,
        ).map_values(|c: ConflictEntry| swap_objects(c)),
    decreases this.len(),
{
    if this.len() > 0 {
        let d = this.drop_last();
        lemma_found_swapped(d, other, edges, bindings, base, ours, theirs);
        let f = collateral_found(d, other, edges, bindings, base, ours, theirs);
        let e = this.last();
        let c = collateral_entry(e.entity_id, base, ours, theirs);
        assert(collateral_entry(e.entity_id, base, theirs, ours) == swap_objects(c));
        if touched(e.change) && bound(bindings, e.entity_id@) && edits_any(other, dependents_of(edges, e.entity_id@)) {
            assert((f + seq![c]).map_values(|c: ConflictEntry| swap_objects(c)) =~= f.map_values(
                |c: ConflictEntry| swap_objects(c),
            ) + seq![swap_objects(c)]);
        } else {
            assert((f + Seq::<ConflictEntry>::empty()).map_values(|c: ConflictEntry| swap_objects(c)) =~= f.map_values(
                |c: ConflictEntry| swap_objects(c),
            ) + Seq::<ConflictEntry>::empty());
        }
    }
}

/// Collateral is mirror-symmetric: run with the sides exchanged (their
/// deltas, their impact indexes and their roots), the rule fails exactly
/// when it fails run forward, charges the same work, and finds the same
/// conflicts, each with ours' and theirs' objects exchanged.
pub proof fn lemma_collateral_mirrored(
    delta_a: Seq<EntityDelta>,
    delta_b: Seq<EntityDelta>,
    edges_a: Seq<EdgeView>,
    edges_b: Seq<EdgeView>,
    bindings: Seq<Binding>,
    base: Seq<RootEntity>,
    ours: Seq<RootEntity>,
    theirs: Seq<RootEntity>,
    spent: int,
)
    requires
        0 <= spent <= MAX_MERGE_WORK,
    ensures
        ({
            let forward = collateral_spec(delta_a, delta_b, edges_a, edges_b, bindings, base, ours, theirs, spent);
            let swapped = collateral_spec(delta_b, delta_a, edges_b, edges_a, bindings, base, theirs, ours, spent);
            &&& forward is Err <==> swapped is Err
            &&& forward matches Ok((fs, w)) ==> swapped matches Ok((ss, w2)) && w2 == w && ss.to_multiset()
                == fs.map_values(|c: ConflictEntry| swap_objects(c)).to_multiset()
        }),
{
    let ca = collateral_cost(delta_a, edges_b, bindings);
    let cb = collateral_cost(delta_b, edges_a, bindings);
    let fa = collateral_found(delta_a, delta_b, edges_b, bindings, base, ours, theirs);
    let fb = collateral_found(delta_b, delta_a, edges_a, bindings, base, ours, theirs);
    let e = Seq::<ConflictEntry>::empty();
    lemma_collateral_closed(delta_a, delta_b, edges_b, bindings, base, ours, theirs, e, spent);
    lemma_collateral_closed(delta_b, delta_a, edges_a, bindings, base, theirs, ours, e, spent);
    if spent + ca <= MAX_MERGE_WORK {
        lemma_collateral_closed(delta_b, delta_a, edges_a, bindings, base, ours, theirs, e + fa, spent + ca);
    }
    lemma_found_swapped(delta_a, delta_b, edges_b, bindings, base, ours, theirs);
    lemma_found_swapped(delta_b, delta_a, edges_a, bindings, base, ours, theirs);
    let sfa = fa.map_values(|c: ConflictEntry| swap_objects(c));
    let sfb = fb.map_values(|c: ConflictEntry| swap_objects(c));
    if spent + cb <= MAX_MERGE_WORK {
        lemma_collateral_closed(delta_a, delta_b, edges_b, bindings, base, theirs, ours, e + sfb, spent + cb);
    }
    if spent + ca + cb <= MAX_MERGE_WORK {
        assert((e + fa + fb).map_values(|c: ConflictEntry| swap_objects(c)) =~= sfa + sfb);
        assert(e + fa + fb =~= fa + fb);
        assert(e + sfb + sfa =~= sfb + sfa);
        vstd::seq_lib::lemma_multiset_commutative(sfa, sfb);
        vstd::seq_lib::lemma_multiset_commutative(sfb, sfa);
    }
}

proof fn lemma_collateral_fails_on(
    this: Seq<EntityDelta>,
    more: Seq<EntityDelta>,
    other: Seq<EntityDelta>,
    edges: Seq<EdgeView>,
    bindings: Seq<Binding>,
    base: Seq<RootEntity>,
    ours: Seq<RootEntity>,
    theirs: Seq<RootEntity>,
    acc: Seq<ConflictEntry>,
    spent: int,
)
    requires
        collateral_fold(this, other, edges, bindings, base, ours, theirs, acc, spent) is Err,
    ensures
        collateral_fold(this + more, other, edges, bindings, base, ours, theirs, acc, spent) == collateral_fold(
            this,
            other,
            edges,
            bindings,
            base,
            ours,
            theirs,
            acc,
            spent,
        ),
    decreases more.len(),
{
    if more.len() == 0 {
        assert(this + more =~= this);
    } else {
        lemma_collateral_fails_on(this, more.drop_last(), other, edges, bindings, base, ours, theirs, acc, spent);
        assert((this + more).drop_last() =~= this + more.drop_last());
    }
}

fn is_bound(bindings: &Vec<Binding>, id: &[u8; 32]) -> (r: bool)
    ensures
        r == bound(bindings@, id@),
{
    let mut k: usize = 0;
    while k < bindings.len()
        invariant
            k <= bindings@.len(),
            forall|m: int| 0 <= m < k ==> bindings@[m].0@ != id@,
        decreases bindings.len() - k,
    {
        if bytes_equal(bindings[k].0.as_slice(), id.as_slice()) {
            assert(bindings@[k as int].0@ == id@);
            return true;
        }
        k = k + 1;
    }
    false
}

fn edits_any_of(other: &Vec<EntityDelta>, ds: &Vec<[u8; 32]>) -> (r: bool)
    ensures
        r == edits_any(other@, digests_view(ds@).to_set()),
{
    let mut k: usize = 0;
    while k < other.len()
        invariant
            k <= other@.len(),
            forall|m: int|
                0 <= m < k ==> !(edited((#[trigger] other@[m]).change) && digests_view(ds@).contains(
                    other@[m].entity_id@,
                )),
        decreases other.len() - k,
    {
        let c = other[k].change;
        if (c == ChangeClass::Added || c == ChangeClass::Changed || c == ChangeClass::Retyped) && contains_id(
            ds,
            &other[k].entity_id,
        ) {
            assert(edited(other@[k as int].change) && digests_view(ds@).to_set().contains(other@[k as int].entity_id@));
            return true;
        }
        k = k + 1;
    }
    false
}

fn collateral_entry_of(id: &[u8; 32], base: &Vec<RootEntity>, ours: &Vec<RootEntity>, theirs: &Vec<RootEntity>) -> (r:
    ConflictEntry)
    ensures
        r == collateral_entry(*id, base@, ours@, theirs@),
{
    let kind = match find_entity(base, id) {
        Some(i) => base[i].kind,
        None => 0,
    };
    let ours_object = match find_entity(ours, id) {
        Some(i) => ours[i].object,
        None => None,
    };
    let theirs_object = match find_entity(theirs, id) {
        Some(i) => theirs[i].object,
        None => None,
    };
    ConflictEntry {
        entity_id: *id,
        reason: ConflictReason::Collateral,
        kind,
        field: 0,
        ours_object,
        theirs_object,
        detail: 0,
    }
}

/// The collateral rule over one side's entries, appending to `out`.
#[verifier::loop_isolation(false)]
fn collateral_pass(
    this: &Vec<EntityDelta>,
    other: &Vec<EntityDelta>,
    edges: &Vec<ImpactEdge>,
    bindings: &Vec<Binding>,
    base: &Vec<RootEntity>,
    ours: &Vec<RootEntity>,
    theirs: &Vec<RootEntity>,
    out: &mut Vec<ConflictEntry>,
    work: &mut Work,
) -> (r: Result<(), MergeError>)
    requires
        old(work).spent() <= MAX_MERGE_WORK,
    ensures
        final(work).spent() <= MAX_MERGE_WORK,
        match collateral_fold(
            this@,
            other@,
            edge_views(edges@),
            bindings@,
            base@,
            ours@,
            theirs@,
            old(out)@,
            old(work).spent() as int,
        ) {
            Ok((acc, w)) => r is Ok && final(out)@ == acc && final(work).spent() == w,
            Err(e) => r == Err::<(), MergeError>(e),
        },
{
    let ghost ev = edge_views(edges@);
    let ghost acc0 = out@;
    let ghost start = work.spent() as int;
    let mut i: usize = 0;
    assert(this@.take(0) =~= Seq::<EntityDelta>::empty());
    while i < this.len()
        invariant
            i <= this@.len(),
            ev == edge_views(edges@),
            work.spent() <= MAX_MERGE_WORK,
            collateral_fold(this@.take(i as int), other@, ev, bindings@, base@, ours@, theirs@, acc0, start) == Ok::<
                (Seq<ConflictEntry>, int),
                MergeError,
            >((out@, work.spent() as int)),
        decreases this.len() - i,
    {
        let ghost t = this@.take(i + 1);
        proof {
            assert(t.drop_last() =~= this@.take(i as int));
            assert(t.last() == this@[i as int]);
            assert(this@ =~= t + this@.skip(i + 1));
        }
        let charged = work.charge(1);
        if charged.is_err() {
            proof {
                lemma_collateral_fails_on(t, this@.skip(i + 1), other@, ev, bindings@, base@, ours@, theirs@, acc0, start);
            }
            return Err(MergeError::Merge(MergeErrorCode::ResourceLimit));
        }
        let e = &this[i];
        if (e.change == ChangeClass::Changed || e.change == ChangeClass::Retyped || e.change == ChangeClass::Removed)
            && is_bound(bindings, &e.entity_id) {
            let deps = match non_ownership_dependents(edges, &e.entity_id, work) {
                Ok(v) => v,
                Err(err) => {
                    proof {
                        lemma_collateral_fails_on(t, this@.skip(i + 1), other@, ev, bindings@, base@, ours@, theirs@, acc0, start);
                    }
                    return Err(err);
                },
            };
            proof {
                assert(digests_view(deps@).to_set() =~= dependents_of(ev, e.entity_id@));
            }
            if edits_any_of(other, &deps) {
                let entry = collateral_entry_of(&e.entity_id, base, ours, theirs);
                out.push(entry);
            }
        }
        i = i + 1;
    }
    assert(this@.take(i as int) =~= this@);
    Ok(())
}

/// Applies the collateral rule to every identity the judgment bound: ours'
/// touched identities against theirs' edits of their dependents in theirs'
/// impact index, then theirs' against ours' in ours' index. Each entry
/// charges one unit of work and each collection of dependents one unit
/// per edge it examines.
pub fn collateral_conflicts(
    delta_a: &Vec<EntityDelta>,
    delta_b: &Vec<EntityDelta>,
    edges_a: &Vec<ImpactEdge>,
    edges_b: &Vec<ImpactEdge>,
    judgment: &Judgment,
    base: &Vec<RootEntity>,
    ours: &Vec<RootEntity>,
    theirs: &Vec<RootEntity>,
    work: &mut Work,
) -> (r: Result<Vec<ConflictEntry>, MergeError>)
    requires
        old(work).spent() <= MAX_MERGE_WORK,
    ensures
        final(work).spent() <= MAX_MERGE_WORK,
        match collateral_spec(
            delta_a@,
            delta_b@,
            edge_views(edges_a@),
            edge_views(edges_b@),
            judgment.bindings@,
            base@,
            ours@,
            theirs@,
            old(work).spent() as int,
        ) {
            Err(e) => r == Err::<Vec<ConflictEntry>, MergeError>(e),
            Ok((acc, w)) => r matches Ok(v) && v@ == acc && final(work).spent() == w,
        },
{
    let mut out: Vec<ConflictEntry> = Vec::new();
    collateral_pass(delta_a, delta_b, edges_b, &judgment.bindings, base, ours, theirs, &mut out, work)?;
    collateral_pass(delta_b, delta_a, edges_a, &judgment.bindings, base, ours, theirs, &mut out, work)?;
    Ok(out)
}

proof fn lemma_found_has(
    this: Seq<EntityDelta>,
    other: Seq<EntityDelta>,
    edges: Seq<EdgeView>,
    bindings: Seq<Binding>,
    base: Seq<RootEntity>,
    ours: Seq<RootEntity>,
    theirs: Seq<RootEntity>,
    k: int,
    j: int,
)
    requires
        0 <= k < this.len(),
        this[k].change == ChangeClass::Changed || this[k].change == ChangeClass::Retyped || this[k].change
            == ChangeClass::Removed,
        bound(bindings, this[k].entity_id@),
        0 <= j < other.len(),
        other[j].change == ChangeClass::Added || other[j].change == ChangeClass::Changed || other[j].change
            == ChangeClass::Retyped,
        is_dependent(edges, this[k].entity_id@, other[j].entity_id@),
    ensures
        collateral_found(this, other, edges, bindings, base, ours, theirs).contains(
            collateral_entry(this[k].entity_id, base, ours, theirs),
        ),
    decreases this.len(),
{
    let d = this.drop_last();
    let f = collateral_found(d, other, edges, bindings, base, ours, theirs);
    let e = this.last();
    let tail = if touched(e.change) && bound(bindings, e.entity_id@) && edits_any(other, dependents_of(edges, e.entity_id@)) {
        seq![collateral_entry(e.entity_id, base, ours, theirs)]
    } else {
        Seq::<ConflictEntry>::empty()
    };
    assert(collateral_found(this, other, edges, bindings, base, ours, theirs) == f + tail);
    if k < this.len() - 1 {
        assert(d[k] == this[k]);
        lemma_found_has(d, other, edges, bindings, base, ours, theirs, k, j);
        let m = choose|m: int| 0 <= m < f.len() && f[m] == collateral_entry(this[k].entity_id, base, ours, theirs);
        assert((f + tail)[m] == f[m]);
    } else {
        assert(e == this[k]);
        assert(dependents_of(edges, e.entity_id@).contains(other[j].entity_id@));
        assert(edited(other[j].change));
        assert(edits_any(other, dependents_of(edges, e.entity_id@)));
        assert((f + tail)[f.len() as int] == collateral_entry(this[k].entity_id, base, ours, theirs));
    }
}

/// The collateral rule catches every collateral edit: where one side
/// changed, retyped or removed a bound identity, and the other side added,
/// changed or retyped an entity that depends on it through edges other
/// than ownership in that side's impact index, a successful check records
/// a `Collateral` conflict for the identity, with the base's kind and ours'
/// and theirs' objects.
pub proof fn lemma_collateral_catches_dependent_edits(
    delta_a: Seq<EntityDelta>,
    delta_b: Seq<EntityDelta>,
    edges_a: Seq<EdgeView>,
    edges_b: Seq<EdgeView>,
    bindings: Seq<Binding>,
    base: Seq<RootEntity>,
    ours: Seq<RootEntity>,
    theirs: Seq<RootEntity>,
    spent: int,
    cs: Seq<ConflictEntry>,
    w: int,
)
    requires
        0 <= spent <= MAX_MERGE_WORK,
        collateral_spec(delta_a, delta_b, edges_a, edges_b, bindings, base, ours, theirs, spent) == Ok::<
            (Seq<ConflictEntry>, int),
            MergeError,
        >((cs, w)),
    ensures
        forall|k: int, j: int|
            0 <= k < delta_a.len() && (delta_a[k].change == ChangeClass::Changed || delta_a[k].change
                == ChangeClass::Retyped || delta_a[k].change == ChangeClass::Removed) && bound(
                bindings,
                delta_a[k].entity_id@,
            ) && 0 <= j < delta_b.len() && (delta_b[j].change == ChangeClass::Added || delta_b[j].change
                == ChangeClass::Changed || delta_b[j].change == ChangeClass::Retyped) && is_dependent(
                edges_b,
                #[trigger] delta_a[k].entity_id@,
                #[trigger] delta_b[j].entity_id@,
            ) ==> exists|c: ConflictEntry|
                #![trigger cs.contains(c)]
                cs.contains(c) && c.entity_id == delta_a[k].entity_id && c.reason == ConflictReason::Collateral
                    && c.ours_object == object_at(ours, delta_a[k].entity_id@) && c.theirs_object == object_at(
                    theirs,
                    delta_a[k].entity_id@,
                ),
        forall|k: int, j: int|
            0 <= k < delta_b.len() && (delta_b[k].change == ChangeClass::Changed || delta_b[k].change
                == ChangeClass::Retyped || delta_b[k].change == ChangeClass::Removed) && bound(
                bindings,
                delta_b[k].entity_id@,
            ) && 0 <= j < delta_a.len() && (delta_a[j].change == ChangeClass::Added || delta_a[j].change
                == ChangeClass::Changed || delta_a[j].change == ChangeClass::Retyped) && is_dependent(
                edges_a,
                #[trigger] delta_b[k].entity_id@,
                #[trigger] delta_a[j].entity_id@,
            ) ==> exists|c: ConflictEntry|
                #![trigger cs.contains(c)]
                cs.contains(c) && c.entity_id == delta_b[k].entity_id && c.reason == ConflictReason::Collateral
                    && c.ours_object == object_at(ours, delta_b[k].entity_id@) && c.theirs_object == object_at(
                    theirs,
                    delta_b[k].entity_id@,
                ),
{
    let e = Seq::<ConflictEntry>::empty();
    lemma_collateral_closed(delta_a, delta_b, edges_b, bindings, base, ours, theirs, e, spent);
    let fa = collateral_found(delta_a, delta_b, edges_b, bindings, base, ours, theirs);
    let ca = collateral_cost(delta_a, edges_b, bindings);
    if spent + ca <= MAX_MERGE_WORK {
        lemma_collateral_closed(delta_b, delta_a, edges_a, bindings, base, ours, theirs, e + fa, spent + ca);
    }
    let fb = collateral_found(delta_b, delta_a, edges_a, bindings, base, ours, theirs);
    assert forall|k: int, j: int|
        0 <= k < delta_a.len() && (delta_a[k].change == ChangeClass::Changed || delta_a[k].change
            == ChangeClass::Retyped || delta_a[k].change == ChangeClass::Removed) && bound(
            bindings,
            delta_a[k].entity_id@,
        ) && 0 <= j < delta_b.len() && (delta_b[j].change == ChangeClass::Added || delta_b[j].change
            == ChangeClass::Changed || delta_b[j].change == ChangeClass::Retyped) && is_dependent(
            edges_b,
            #[trigger] delta_a[k].entity_id@,
            #[trigger] delta_b[j].entity_id@,
        ) implies exists|c: ConflictEntry|
            #![trigger cs.contains(c)]
            cs.contains(c) && c.entity_id == delta_a[k].entity_id && c.reason == ConflictReason::Collateral
                && c.ours_object == object_at(ours, delta_a[k].entity_id@) && c.theirs_object == object_at(
                theirs,
                delta_a[k].entity_id@,
            ) by {
        lemma_found_has(delta_a, delta_b, edges_b, bindings, base, ours, theirs, k, j);
        let c = collateral_entry(delta_a[k].entity_id, base, ours, theirs);
        let m = choose|m: int| 0 <= m < fa.len() && fa[m] == c;
        assert(cs == e + fa + fb);
        assert((e + fa + fb)[m] == c);
        assert(cs.contains(c));
    }
    assert forall|k: int, j: int|
        0 <= k < delta_b.len() && (delta_b[k].change == ChangeClass::Changed || delta_b[k].change
            == ChangeClass::Retyped || delta_b[k].change == ChangeClass::Removed) && bound(
            bindings,
            delta_b[k].entity_id@,
        ) && 0 <= j < delta_a.len() && (delta_a[j].change == ChangeClass::Added || delta_a[j].change
            == ChangeClass::Changed || delta_a[j].change == ChangeClass::Retyped) && is_dependent(
            edges_a,
            #[trigger] delta_b[k].entity_id@,
            #[trigger] delta_a[j].entity_id@,
        ) implies exists|c: ConflictEntry|
            #![trigger cs.contains(c)]
            cs.contains(c) && c.entity_id == delta_b[k].entity_id && c.reason == ConflictReason::Collateral
                && c.ours_object == object_at(ours, delta_b[k].entity_id@) && c.theirs_object == object_at(
                theirs,
                delta_b[k].entity_id@,
            ) by {
        lemma_found_has(delta_b, delta_a, edges_a, bindings, base, ours, theirs, k, j);
        let c = collateral_entry(delta_b[k].entity_id, base, ours, theirs);
        let m = choose|m: int| 0 <= m < fb.len() && fb[m] == c;
        assert(cs == e + fa + fb);
        assert((e + fa + fb)[(fa.len() + m) as int] == c);
        assert(cs.contains(c));
    }
}

} // verus!
