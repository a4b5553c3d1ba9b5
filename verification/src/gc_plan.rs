//! Planning a collection: anchors seed the retained roots and objects, the
//! reference closure decides reachability, and every inventory object
//! outside it, and only those, becomes a deletion candidate.

use vstd::prelude::*;

use crate::bytes::bytes_equal;
use crate::digest::digests_view;
use crate::ordered::{ids_ascending, sorted_set};
use crate::gc::{
    closed, contains_id, copy_ids, has_refs, in_closure, lookup, lookup_node, node_views,
    edge_total, reference_closure, ClosureFault, GcErrorCode, GraphNode, NodeView, RetentionAnchorKey,
    RetentionKind, MAX_GC_ALLOCATION, MAX_GC_DEPENDENCY_EDGES, MAX_GC_OBJECT_REFERENCE_EDGES, MAX_GC_REPORT_ENTRIES,
};

verus! {

/// One exact retention target.
#[derive(Clone, Copy, Debug, PartialEq, Eq)]
pub enum RetentionTarget {
    /// Exact semantic root.
    StateRoot([u8; 32]),
    /// Exact immutable object.
    Object([u8; 32]),
}

/// A target as values: whether it names a state root, and its identity.
pub type TargetView = (bool, Seq<u8>);

/// The value of a target.
pub open spec fn target_view(t: RetentionTarget) -> TargetView {
    match t {
        RetentionTarget::StateRoot(r) => (true, r@),
        RetentionTarget::Object(o) => (false, o@),
    }
}

/// One caller-owned retention anchor.
#[derive(Clone, Debug, PartialEq, Eq)]
pub struct RetentionAnchor {
    /// Closed kind.
    pub kind: RetentionKind,
    /// Opaque caller-owned identity.
    pub anchor_id: [u8; 32],
    /// The roots and objects it retains.
    pub targets: Vec<RetentionTarget>,
}

/// The targets of all anchors, anchor by anchor.
pub open spec fn flat_targets(anchors: Seq<RetentionAnchor>) -> Seq<TargetView>
    decreases anchors.len(),
{
    if anchors.len() == 0 {
        Seq::empty()
    } else {
        flat_targets(anchors.drop_last()) + anchors.last().targets@.map_values(
            |t: RetentionTarget| target_view(t),
        )
    }
}

/// One root of the caller's catalog: its identity, its dependencies and
/// the objects it binds (contract, test and entity objects).
#[derive(Clone, Debug, PartialEq, Eq)]
pub struct GcRoot {
    /// The root's identity.
    pub root: [u8; 32],
    /// Roots it depends on.
    pub dependency_roots: Vec<[u8; 32]>,
    /// Objects it binds.
    pub objects: Vec<[u8; 32]>,
}

/// One verified inventory object: identity, stored size and references
/// (`None` when the reference shape is malformed).
#[derive(Clone, Debug, PartialEq, Eq)]
pub struct InventoryObject {
    /// The object's identity.
    pub object_id: [u8; 32],
    /// Stored size in bytes.
    pub bytes: u64,
    /// Objects it references.
    pub references: Option<Vec<[u8; 32]>>,
    /// Length of its path in the object store, counted against the
    /// allocation estimate.
    pub path_len: usize,
}

/// The dependency graph of a root catalog.
pub open spec fn root_graph(roots: Seq<GcRoot>) -> Seq<NodeView> {
    roots.map_values(|r: GcRoot| (r.root@, Some(digests_view(r.dependency_roots@))))
}

/// The binding table of a root catalog.
pub open spec fn root_objects(roots: Seq<GcRoot>) -> Seq<NodeView> {
    roots.map_values(|r: GcRoot| (r.root@, Some(digests_view(r.objects@))))
}

/// The reference graph of an inventory.
pub open spec fn object_graph(inventory: Seq<InventoryObject>) -> Seq<NodeView> {
    inventory.map_values(
        |o: InventoryObject|
            (
                o.object_id@,
                match o.references {
                    Some(r) => Some(digests_view(r@)),
                    None => None,
                },
            ),
    )
}

/// The identities of inventory objects.
pub open spec fn inventory_ids(inventory: Seq<InventoryObject>) -> Seq<Seq<u8>> {
    inventory.map_values(|o: InventoryObject| o.object_id@)
}

/// The failure a target causes, if any: a root outside the catalog or an
/// object outside the inventory.
pub open spec fn target_fault(t: TargetView, catalog: Seq<NodeView>, inventory: Seq<Seq<u8>>) -> Option<
    GcErrorCode,
> {
    if t.0 {
        if lookup(catalog, t.1) is Some {
            None
        } else {
            Some(GcErrorCode::RootMissing)
        }
    } else {
        if inventory.contains(t.1) {
            None
        } else {
            Some(GcErrorCode::AnchorUnresolved)
        }
    }
}

/// The root identities the targets name.
pub open spec fn root_seeds(ts: Seq<TargetView>) -> Set<Seq<u8>> {
    Set::new(|x: Seq<u8>| ts.contains((true, x)))
}

/// The object identities the targets name.
pub open spec fn object_seeds(ts: Seq<TargetView>) -> Set<Seq<u8>> {
    Set::new(|x: Seq<u8>| ts.contains((false, x)))
}

/// The objects the anchors and the retained roots retain directly.
pub open spec fn retained_objects(
    ts: Seq<TargetView>,
    bindings: Seq<NodeView>,
    retained: Set<Seq<u8>>,
) -> Set<Seq<u8>> {
    Set::new(
        |x: Seq<u8>|
            ts.contains((false, x)) || exists|r: Seq<u8>|
                retained.contains(r) && (lookup(bindings, r) matches Some(Some(os)) && os.contains(x)),
    )
}

/// Collects the anchors' keys and their root and object targets, failing
/// on the first target that does not resolve.
fn seed_anchor_targets(
    anchors: &Vec<RetentionAnchor>,
    roots: &Vec<GcRoot>,
    inventory: &Vec<InventoryObject>,
) -> (r: Result<(Vec<RetentionAnchorKey>, Vec<[u8; 32]>, Vec<[u8; 32]>), GcErrorCode>)
    ensures
        ({
            let ts = flat_targets(anchors@);
            let catalog = root_graph(roots@);
            let inv = inventory_ids(inventory@);
            match r {
                Ok((keys, rs, os)) => {
                    &&& keys@.len() == anchors@.len()
                    &&& forall|i: int| 0 <= i < keys@.len() ==> (#[trigger] keys@[i]).kind == anchors@[i].kind
                        && keys@[i].anchor_id == anchors@[i].anchor_id
                    &&& forall|k: int| 0 <= k < ts.len() ==> target_fault(#[trigger] ts[k], catalog, inv)
                        is None
                    &&& digests_view(rs@).to_set() == root_seeds(ts)
                    &&& digests_view(os@).to_set() == object_seeds(ts)
                },
                Err(e) => exists|k: int|
                    0 <= k < ts.len() && target_fault(ts[k], catalog, inv) == Some(e) && forall|j: int|
                        0 <= j < k ==> target_fault(#[trigger] ts[j], catalog, inv) is None,
            }
        }),
{
    let ghost catalog = root_graph(roots@);
    let ghost inv = inventory_ids(inventory@);
    let mut keys: Vec<RetentionAnchorKey> = Vec::new();
    let mut rs: Vec<[u8; 32]> = Vec::new();
    let mut os: Vec<[u8; 32]> = Vec::new();
    let mut i: usize = 0;
    proof {
        assert(anchors@.take(0) =~= Seq::<RetentionAnchor>::empty());
        assert(flat_targets(anchors@.take(0)) =~= Seq::<TargetView>::empty());
    }
    while i < anchors.len()
        invariant
            i <= anchors@.len(),
            catalog == root_graph(roots@),
            inv == inventory_ids(inventory@),
            keys@.len() == i,
            forall|m: int| 0 <= m < i ==> (#[trigger] keys@[m]).kind == anchors@[m].kind
                && keys@[m].anchor_id == anchors@[m].anchor_id,
            forall|k: int| 0 <= k < flat_targets(anchors@.take(i as int)).len() ==> target_fault(
                #[trigger] flat_targets(anchors@.take(i as int))[k],
                catalog,
                inv,
            ) is None,
            forall|x: Seq<u8>| digests_view(rs@).contains(x) <==> flat_targets(anchors@.take(i as int)).contains((true, x)),
            forall|x: Seq<u8>| digests_view(os@).contains(x) <==> flat_targets(anchors@.take(i as int)).contains((false, x)),
        decreases anchors.len() - i,
    {
        let anchor = &anchors[i];
        keys.push(RetentionAnchorKey { kind: anchor.kind, anchor_id: anchor.anchor_id });
        let ghost prefix = flat_targets(anchors@.take(i as int));
        let ghost own = anchor.targets@.map_values(|t: RetentionTarget| target_view(t));
        proof {
            let t1 = anchors@.take(i + 1);
            assert(t1.drop_last() =~= anchors@.take(i as int));
            assert(t1.last() == anchors@[i as int]);
        }
        assert(flat_targets(anchors@.take(i + 1)) == prefix + own);
        let mut j: usize = 0;
        while j < anchor.targets.len()
            invariant
                j <= anchor.targets@.len(),
                i < anchors@.len(),
                flat_targets(anchors@.take(i + 1)) == prefix + own,
                anchor == &anchors@[i as int],
                own == anchor.targets@.map_values(|t: RetentionTarget| target_view(t)),
                catalog == root_graph(roots@),
                inv == inventory_ids(inventory@),
                forall|k: int| 0 <= k < (prefix + own.take(j as int)).len() ==> target_fault(
                    #[trigger] (prefix + own.take(j as int))[k],
                    catalog,
                    inv,
                ) is None,
                forall|x: Seq<u8>| digests_view(rs@).contains(x) <==> (prefix + own.take(j as int)).contains((true, x)),
                forall|x: Seq<u8>| digests_view(os@).contains(x) <==> (prefix + own.take(j as int)).contains((false, x)),
            decreases anchor.targets.len() - j,
        {
            let t = anchor.targets[j];
            let ghost tv = target_view(t);
            let ghost before = prefix + own.take(j as int);
            let ghost after = prefix + own.take(j + 1);
            assert(own[j as int] == tv);
            assert(after =~= before.push(tv));
            assert(flat_targets(anchors@.take(i + 1)).take(before.len() + 1int) =~= after);
            match t {
                RetentionTarget::StateRoot(root) => {
                    if !root_in_catalog(roots, &root) {
                        proof {
                            assert(target_fault(tv, catalog, inv) == Some(GcErrorCode::RootMissing));
                            lemma_fault_at(anchors@, i as int, before, tv, catalog, inv);
                        }
                        return Err(GcErrorCode::RootMissing);
                    }
                    let ghost old_rs = digests_view(rs@);
                    rs.push(root);
                    proof {
                        assert(digests_view(rs@) =~= old_rs.push(root@));
                        assert forall|x: Seq<u8>| digests_view(os@).contains(x) <==> after.contains((false, x)) by {
                            lemma_push_has(before, tv, (false, x));
                        }
                        assert forall|x: Seq<u8>| digests_view(rs@).contains(x) <==> after.contains((true, x)) by {
                            lemma_push_has(before, tv, (true, x));
                            lemma_push_has(old_rs, root@, x);
                        }
                    }
                },
                RetentionTarget::Object(object) => {
                    if !in_inventory(inventory, &object) {
                        proof {
                            assert(target_fault(tv, catalog, inv) == Some(GcErrorCode::AnchorUnresolved));
                            lemma_fault_at(anchors@, i as int, before, tv, catalog, inv);
                        }
                        return Err(GcErrorCode::AnchorUnresolved);
                    }
                    let ghost old_os = digests_view(os@);
                    os.push(object);
                    proof {
                        assert(digests_view(os@) =~= old_os.push(object@));
                        assert forall|x: Seq<u8>| digests_view(rs@).contains(x) <==> after.contains((true, x)) by {
                            lemma_push_has(before, tv, (true, x));
                        }
                        assert forall|x: Seq<u8>| digests_view(os@).contains(x) <==> after.contains((false, x)) by {
                            lemma_push_has(before, tv, (false, x));
                            lemma_push_has(old_os, object@, x);
                        }
                    }
                },
            }
            proof {
                assert forall|k: int| 0 <= k < after.len() implies target_fault(#[trigger] after[k], catalog, inv)
                    is None by {
                    if k < before.len() {
                        assert(after[k] == before[k]);
                    }
                }
            }
            j = j + 1;
        }
        assert(own.take(j as int) =~= own);
        i = i + 1;
    }
    assert(anchors@.take(i as int) =~= anchors@);
    proof {
        let ts = flat_targets(anchors@);
        assert(digests_view(rs@).to_set() =~= root_seeds(ts));
        assert(digests_view(os@).to_set() =~= object_seeds(ts));
    }
    Ok((keys, rs, os))
}

proof fn lemma_flat_prefix(anchors: Seq<RetentionAnchor>, i: int)
    requires
        0 <= i <= anchors.len(),
    ensures
        flat_targets(anchors.take(i)).len() <= flat_targets(anchors).len(),
        flat_targets(anchors).take(flat_targets(anchors.take(i)).len() as int) == flat_targets(
            anchors.take(i),
        ),
    decreases anchors.len(),
{
    if i == anchors.len() {
        assert(anchors.take(i) =~= anchors);
        assert(flat_targets(anchors).take(flat_targets(anchors).len() as int) =~= flat_targets(anchors));
    } else {
        let d = anchors.drop_last();
        assert(d.take(i) =~= anchors.take(i));
        lemma_flat_prefix(d, i);
        let f = flat_targets(anchors);
        let fd = flat_targets(d);
        let n = flat_targets(anchors.take(i)).len() as int;
        assert(f.take(n) =~= fd.take(n));
    }
}

proof fn lemma_fault_at(
    anchors: Seq<RetentionAnchor>,
    i: int,
    before: Seq<TargetView>,
    tv: TargetView,
    catalog: Seq<NodeView>,
    inv: Seq<Seq<u8>>,
)
    requires
        0 <= i < anchors.len(),
        flat_targets(anchors.take(i + 1)).len() > before.len(),
        flat_targets(anchors.take(i + 1)).take(before.len() + 1int) == before.push(tv),
        forall|k: int| 0 <= k < before.len() ==> target_fault(#[trigger] before[k], catalog, inv) is None,
        target_fault(tv, catalog, inv) is Some,
    ensures
        ({
            let ts = flat_targets(anchors);
            exists|k: int|
                0 <= k < ts.len() && target_fault(ts[k], catalog, inv) == target_fault(tv, catalog, inv)
                    && forall|j: int| 0 <= j < k ==> target_fault(#[trigger] ts[j], catalog, inv) is None
        }),
{
    let ts = flat_targets(anchors);
    lemma_flat_prefix(anchors, i + 1);
    let p = flat_targets(anchors.take(i + 1));
    let k = before.len() as int;
    assert(ts.take(p.len() as int) == p);
    assert(ts[k] == p[k]);
    assert(p.take(k + 1)[k] == tv);
    assert(ts[k] == tv);
    assert forall|j: int| 0 <= j < k implies target_fault(#[trigger] ts[j], catalog, inv) is None by {
        assert(ts[j] == p[j]);
        assert(p.take(k + 1)[j] == before[j]);
    }
}

proof fn lemma_push_has<A>(s: Seq<A>, t: A, x: A)
    ensures
        s.push(t).contains(x) <==> (s.contains(x) || x == t),
{
    if s.contains(x) {
        let m = choose|m: int| 0 <= m < s.len() && s[m] == x;
        assert(s.push(t)[m] == x);
    }
    if x == t {
        assert(s.push(t)[s.len() as int] == t);
    }
    if s.push(t).contains(x) {
        let m = choose|m: int| 0 <= m < s.push(t).len() && s.push(t)[m] == x;
        if m < s.len() {
            assert(s[m] == x);
        }
    }
}

fn root_in_catalog(roots: &Vec<GcRoot>, id: &[u8; 32]) -> (r: bool)
    ensures
        r == (lookup(root_graph(roots@), id@) is Some),
{
    let ghost ns = root_graph(roots@);
    let mut i: usize = 0;
    proof {
        assert(ns.skip(0) =~= ns);
    }
    while i < roots.len()
        invariant
            i <= roots@.len(),
            ns == root_graph(roots@),
            lookup(ns, id@) == lookup(ns.skip(i as int), id@),
        decreases roots.len() - i,
    {
        proof {
            let rest = ns.skip(i as int);
            assert(rest[0] == ns[i as int]);
            assert(rest.drop_first() =~= ns.skip(i + 1));
        }
        if bytes_equal(roots[i].root.as_slice(), id.as_slice()) {
            return true;
        }
        i = i + 1;
    }
    false
}

fn in_inventory(inventory: &Vec<InventoryObject>, id: &[u8; 32]) -> (r: bool)
    ensures
        r == inventory_ids(inventory@).contains(id@),
{
    let mut k: usize = 0;
    while k < inventory.len()
        invariant
            k <= inventory@.len(),
            forall|m: int| 0 <= m < k ==> inventory@[m].object_id@ != id@,
        decreases inventory.len() - k,
    {
        if bytes_equal(inventory[k].object_id.as_slice(), id.as_slice()) {
            assert(inventory_ids(inventory@)[k as int] == id@);
            return true;
        }
        k = k + 1;
    }
    proof {
        if inventory_ids(inventory@).contains(id@) {
            let m = choose|m: int| 0 <= m < inventory_ids(inventory@).len() && inventory_ids(inventory@)[m] == id@;
            assert(inventory@[m].object_id@ == id@);
        }
    }
    false
}

/// A planned collection: what was examined, retained and reachable, the
/// inventory, and the objects that may be deleted.
#[derive(Clone, Debug, PartialEq, Eq)]
pub struct GcPlan {
    /// Keys of the examined anchors, in anchor order.
    pub examined_anchors: Vec<RetentionAnchorKey>,
    /// Retained roots, dependency closure included.
    pub retained_roots: Vec<[u8; 32]>,
    /// The reachable object closure.
    pub reachable_objects: Vec<[u8; 32]>,
    /// The inventory, in inventory order.
    pub inventory_objects: Vec<[u8; 32]>,
    /// Inventory objects outside the reachable closure, in inventory order.
    pub deletion_candidates: Vec<[u8; 32]>,
    /// Total inventory bytes.
    pub inventory_bytes: u64,
    /// Total candidate bytes.
    pub candidate_bytes: u64,
}

/// The roots retained from the anchors' root targets: their closure under
/// dependencies.
pub open spec fn retained_spec(ts: Seq<TargetView>, roots: Seq<GcRoot>) -> Set<Seq<u8>> {
    Set::new(|r: Seq<u8>| in_closure(root_graph(roots), root_seeds(ts), r))
}

/// The objects reachable from what the anchors and retained roots retain.
pub open spec fn reachable_spec(
    ts: Seq<TargetView>,
    roots: Seq<GcRoot>,
    inventory: Seq<InventoryObject>,
) -> Set<Seq<u8>> {
    Set::new(
        |x: Seq<u8>|
            in_closure(
                object_graph(inventory),
                retained_objects(ts, root_objects(roots), retained_spec(ts, roots)),
                x,
            ),
    )
}

/// Total stored bytes of inventory objects that satisfy `keep`.
pub open spec fn bytes_where(inventory: Seq<InventoryObject>, keep: spec_fn(Seq<u8>) -> bool) -> nat
    decreases inventory.len(),
{
    if inventory.len() == 0 {
        0
    } else {
        bytes_where(inventory.drop_last(), keep) + if keep(inventory.last().object_id@) {
            inventory.last().bytes as nat
        } else {
            0
        }
    }
}

fn root_nodes(roots: &Vec<GcRoot>, dependencies: bool) -> (r: Vec<GraphNode>)
    ensures
        node_views(r@) == if dependencies {
            root_graph(roots@)
        } else {
            root_objects(roots@)
        },
{
    let mut out: Vec<GraphNode> = Vec::new();
    let mut i: usize = 0;
    let ghost target = if dependencies {
        root_graph(roots@)
    } else {
        root_objects(roots@)
    };
    while i < roots.len()
        invariant
            i <= roots@.len(),
            target == if dependencies {
                root_graph(roots@)
            } else {
                root_objects(roots@)
            },
            node_views(out@) == target.take(i as int),
        decreases roots.len() - i,
    {
        let refs = if dependencies {
            copy_ids(&roots[i].dependency_roots)
        } else {
            copy_ids(&roots[i].objects)
        };
        let node = GraphNode { id: roots[i].root, references: Some(refs) };
        let ghost before = node_views(out@);
        out.push(node);
        proof {
            assert(node_views(out@) =~= before.push(node@));
            assert(target.take(i + 1) =~= target.take(i as int).push(target[i as int]));
        }
        i = i + 1;
    }
    assert(target.take(i as int) =~= target);
    out
}

fn object_nodes(inventory: &Vec<InventoryObject>) -> (r: Vec<GraphNode>)
    ensures
        node_views(r@) == object_graph(inventory@),
{
    let mut out: Vec<GraphNode> = Vec::new();
    let mut i: usize = 0;
    let ghost target = object_graph(inventory@);
    while i < inventory.len()
        invariant
            i <= inventory@.len(),
            target == object_graph(inventory@),
            node_views(out@) == target.take(i as int),
        decreases inventory.len() - i,
    {
        let refs = match &inventory[i].references {
            Some(r) => Some(copy_ids(r)),
            None => None,
        };
        let node = GraphNode { id: inventory[i].object_id, references: refs };
        let ghost before = node_views(out@);
        out.push(node);
        proof {
            assert(node_views(out@) =~= before.push(node@));
            assert(target.take(i + 1) =~= target.take(i as int).push(target[i as int]));
        }
        i = i + 1;
    }
    assert(target.take(i as int) =~= target);
    out
}

proof fn lemma_closure_exact(ns: Seq<NodeView>, seeds: Set<Seq<u8>>, rs: Set<Seq<u8>>)
    requires
        seeds.subset_of(rs),
        closed(ns, rs),
        forall|x: Seq<u8>| rs.contains(x) ==> in_closure(ns, seeds, x),
    ensures
        forall|x: Seq<u8>| rs.contains(x) <==> in_closure(ns, seeds, x),
{
    assert forall|x: Seq<u8>| in_closure(ns, seeds, x) implies rs.contains(x) by {
        assert(closed(ns, rs));
    }
}

/// The objects retained directly: the anchors' object targets and the
/// objects the retained roots bind.
pub open spec fn object_seed_spec(ts: Seq<TargetView>, roots: Seq<GcRoot>) -> Set<Seq<u8>> {
    retained_objects(ts, root_objects(roots), retained_spec(ts, roots))
}

/// The inventory objects outside the reachable closure.
pub open spec fn candidate_spec(ts: Seq<TargetView>, roots: Seq<GcRoot>, inventory: Seq<InventoryObject>) -> Set<
    Seq<u8>,
> {
    Set::new(|x: Seq<u8>| inventory_ids(inventory).contains(x) && !reachable_spec(ts, roots, inventory).contains(x))
}

/// A fault of the inputs that stops a plan: a target that does not
/// resolve, a retained root without a catalog entry, or a reachable object
/// outside the inventory or with malformed references.
pub open spec fn plan_faulted(
    anchors: Seq<RetentionAnchor>,
    roots: Seq<GcRoot>,
    inventory: Seq<InventoryObject>,
) -> bool {
    let ts = flat_targets(anchors);
    let catalog = root_graph(roots);
    let og = object_graph(inventory);
    ||| exists|k: int| 0 <= k < ts.len() && target_fault(#[trigger] ts[k], catalog, inventory_ids(inventory)) is Some
    ||| exists|x: Seq<u8>| in_closure(catalog, root_seeds(ts), x) && !has_refs(catalog, x)
    ||| exists|x: Seq<u8>| in_closure(og, object_seed_spec(ts, roots), x) && !has_refs(og, x)
}

/// Some duplicate-free list of members of the closure of `seeds`, each
/// with references, follows more than `max` references.
pub open spec fn edges_over(ns: Seq<NodeView>, seeds: Set<Seq<u8>>, distinct: bool, max: int) -> bool {
    exists|s: Seq<Seq<u8>>|
        {
            &&& s.no_duplicates()
            &&& forall|i: int| 0 <= i < s.len() ==> in_closure(ns, seeds, #[trigger] s[i]) && has_refs(ns, s[i])
            &&& edge_total(ns, s, distinct) > max
        }
}

/// The identities a report lists: the anchors, the retained roots, the
/// reachable objects, the inventory entries and the candidates.
pub open spec fn report_entries(
    anchors: Seq<RetentionAnchor>,
    roots: Seq<GcRoot>,
    inventory: Seq<InventoryObject>,
) -> nat {
    let ts = flat_targets(anchors);
    anchors.len() + retained_spec(ts, roots).len() + reachable_spec(ts, roots, inventory).len() + inventory.len()
        + candidate_spec(ts, roots, inventory).len()
}

/// A limit the plan would pass: the inventory's or the candidates' bytes
/// overflow, the dependency or reference edges followed pass their
/// budgets, the report lists more than `MAX_GC_REPORT_ENTRIES`
/// identities, or its estimated allocation passes `MAX_GC_ALLOCATION`.
pub open spec fn plan_over_limits(
    anchors: Seq<RetentionAnchor>,
    roots: Seq<GcRoot>,
    inventory: Seq<InventoryObject>,
) -> bool {
    let ts = flat_targets(anchors);
    let reachable = reachable_spec(ts, roots, inventory);
    ||| bytes_where(inventory, |x: Seq<u8>| true) > u64::MAX
    ||| edges_over(root_graph(roots), root_seeds(ts), false, MAX_GC_DEPENDENCY_EDGES as int)
    ||| edges_over(object_graph(inventory), object_seed_spec(ts, roots), true, MAX_GC_OBJECT_REFERENCE_EDGES as int)
    ||| bytes_where(inventory, |x: Seq<u8>| !reachable.contains(x)) > u64::MAX
    ||| report_entries(anchors, roots, inventory) > MAX_GC_REPORT_ENTRIES
    ||| allocation_estimate(report_entries(anchors, roots, inventory), inventory) > MAX_GC_ALLOCATION
}

proof fn lemma_bytes_prefix(inventory: Seq<InventoryObject>, keep: spec_fn(Seq<u8>) -> bool, k: int)
    requires
        0 <= k <= inventory.len(),
    ensures
        bytes_where(inventory.take(k), keep) <= bytes_where(inventory, keep),
    decreases inventory.len() - k,
{
    if k < inventory.len() {
        lemma_bytes_prefix(inventory, keep, k + 1);
        assert(inventory.take(k + 1).drop_last() =~= inventory.take(k));
    } else {
        assert(inventory.take(k) =~= inventory);
    }
}

proof fn lemma_ascending_len(v: Seq<Seq<u8>>, s: Set<Seq<u8>>)
    requires
        ids_ascending(v),
        forall|x: Seq<u8>| v.contains(x) <==> s.contains(x),
    ensures
        v.len() == s.len(),
        s.finite(),
{
    assert(v.no_duplicates()) by {
        assert forall|a: int, b: int| 0 <= a < b < v.len() implies v[a] != v[b] by {
            if v[a] == v[b] {
                crate::bytes::lemma_lex_equal(v[a], v[b]);
            }
        }
    }
    assert(v.to_set() =~= s);
    v.unique_seq_to_set();
}

/// No budget is passed by a closure whose computed members follow at most
/// `max` references.
proof fn lemma_edges_within(ns: Seq<NodeView>, seeds: Set<Seq<u8>>, v: Seq<Seq<u8>>, distinct: bool, max: int)
    requires
        v.no_duplicates(),
        edge_total(ns, v, distinct) <= max,
        forall|x: Seq<u8>| in_closure(ns, seeds, x) ==> v.contains(x),
    ensures
        !edges_over(ns, seeds, distinct, max),
{
    if edges_over(ns, seeds, distinct, max) {
        let s = choose|s: Seq<Seq<u8>>|
            {
                &&& s.no_duplicates()
                &&& forall|i: int| 0 <= i < s.len() ==> in_closure(ns, seeds, #[trigger] s[i]) && has_refs(ns, s[i])
                &&& edge_total(ns, s, distinct) > max
            };
        assert forall|i: int| 0 <= i < s.len() implies v.contains(#[trigger] s[i]) by {
            assert(in_closure(ns, seeds, s[i]));
        }
        crate::gc::lemma_edge_total_subset(ns, s, v, distinct);
    }
}

/// Plans a collection over a validated root catalog and a verified
/// inventory: the anchors' roots are closed under dependencies, the
/// anchors' objects and the retained roots' objects under references, and
/// every inventory object outside that closure becomes a candidate.
#[verifier::rlimit(80)]
#[verifier::loop_isolation(false)]
pub fn plan_gc(
    anchors: &Vec<RetentionAnchor>,
    roots: &Vec<GcRoot>,
    inventory: &Vec<InventoryObject>,
) -> (r: Result<GcPlan, GcErrorCode>)
    ensures
        r matches Ok(p) ==> {
            let ts = flat_targets(anchors@);
            let reachable = reachable_spec(ts, roots@, inventory@);
            &&& forall|x: Seq<u8>| digests_view(p.retained_roots@).contains(x) <==> retained_spec(ts, roots@).contains(x)
            &&& forall|x: Seq<u8>| digests_view(p.reachable_objects@).contains(x) <==> reachable.contains(x)
            &&& forall|x: Seq<u8>| digests_view(p.inventory_objects@).contains(x) <==> inventory_ids(inventory@).contains(x)
            &&& forall|x: Seq<u8>| digests_view(p.deletion_candidates@).contains(x) <==> (inventory_ids(inventory@).contains(x)
                && !reachable.contains(x))
            &&& ids_ascending(digests_view(p.retained_roots@))
            &&& ids_ascending(digests_view(p.reachable_objects@))
            &&& ids_ascending(digests_view(p.inventory_objects@))
            &&& ids_ascending(digests_view(p.deletion_candidates@))
            &&& p.inventory_bytes == bytes_where(inventory@, |x: Seq<u8>| true)
            &&& p.candidate_bytes == bytes_where(inventory@, |x: Seq<u8>| !reachable.contains(x))
            &&& p.examined_anchors@.len() == anchors@.len()
            &&& forall|i: int| 0 <= i < anchors@.len() ==> (#[trigger] p.examined_anchors@[i]).kind == anchors@[i].kind
                && p.examined_anchors@[i].anchor_id == anchors@[i].anchor_id
        },
        r matches Err(e) ==> {
            let ts = flat_targets(anchors@);
            let catalog = root_graph(roots@);
            let og = object_graph(inventory@);
            let object_seeds = retained_objects(ts, root_objects(roots@), retained_spec(ts, roots@));
            match e {
                GcErrorCode::RootMissing | GcErrorCode::AnchorUnresolved => exists|k: int|
                    0 <= k < ts.len() && target_fault(ts[k], catalog, inventory_ids(inventory@)) == Some(e)
                        && forall|j: int|
                        0 <= j < k ==> target_fault(#[trigger] ts[j], catalog, inventory_ids(inventory@)) is None,
                GcErrorCode::DependencyMissing => exists|x: Seq<u8>|
                    in_closure(catalog, root_seeds(ts), x) && !has_refs(catalog, x),
                GcErrorCode::ObjectMissing => exists|x: Seq<u8>|
                    in_closure(og, object_seeds, x) && lookup(og, x) is None,
                GcErrorCode::ObjectReferenceMalformed => exists|x: Seq<u8>|
                    in_closure(og, object_seeds, x) && lookup(og, x) == Some(None::<Seq<Seq<u8>>>),
                GcErrorCode::ResourceLimit => plan_over_limits(anchors@, roots@, inventory@),
                _ => false,
            }
        },
        r is Ok <==> !plan_faulted(anchors@, roots@, inventory@) && !plan_over_limits(anchors@, roots@, inventory@),
{
    let ghost ts = flat_targets(anchors@);
    let ghost inv = inventory_ids(inventory@);
    let mut inventory_bytes: u64 = 0;
    let mut inventory_objects: Vec<[u8; 32]> = Vec::new();
    let mut i: usize = 0;
    while i < inventory.len()
        invariant
            i <= inventory@.len(),
            inventory_bytes == bytes_where(inventory@.take(i as int), |x: Seq<u8>| true),
            digests_view(inventory_objects@) == inventory_ids(inventory@).take(i as int),
        decreases inventory.len() - i,
    {
        proof {
            let t = inventory@.take(i + 1);
            assert(t.drop_last() =~= inventory@.take(i as int));
        }
        if inventory[i].bytes > u64::MAX - inventory_bytes {
            proof {
                lemma_bytes_prefix(inventory@, |x: Seq<u8>| true, i + 1);
            }
            return Err(GcErrorCode::ResourceLimit);
        }
        inventory_bytes = inventory_bytes + inventory[i].bytes;
        let ghost before = digests_view(inventory_objects@);
        inventory_objects.push(inventory[i].object_id);
        proof {
            assert(digests_view(inventory_objects@) =~= before.push(inventory@[i as int].object_id@));
            assert(inventory_ids(inventory@).take(i + 1) =~= inventory_ids(inventory@).take(i as int).push(
                inventory@[i as int].object_id@,
            ));
        }
        i = i + 1;
    }
    assert(inventory@.take(i as int) =~= inventory@);
    assert(inventory_ids(inventory@).take(i as int) =~= inventory_ids(inventory@));
    let (examined_anchors, root_seed_ids, object_seed_ids) = seed_anchor_targets(anchors, roots, inventory)?;
    let dependency_nodes = root_nodes(roots, true);
    let retained_roots = match reference_closure(
        &dependency_nodes,
        &root_seed_ids,
        MAX_GC_DEPENDENCY_EDGES,
        false,
    ) {
        Ok(v) => v,
        Err(ClosureFault::TooManyEdges) => {
            proof {
                assert(node_views(dependency_nodes@) == root_graph(roots@));
                assert(digests_view(root_seed_ids@).to_set() == root_seeds(ts));
            }
            return Err(GcErrorCode::ResourceLimit);
        },
        Err(fault) => {
            proof {
                let ns = node_views(dependency_nodes@);
                let seeded = digests_view(root_seed_ids@).to_set();
                assert(ns == root_graph(roots@));
                assert(seeded == root_seeds(ts));
                let x = if fault == ClosureFault::Missing {
                    choose|x: Seq<u8>| in_closure(ns, seeded, x) && lookup(ns, x) is None
                } else {
                    choose|x: Seq<u8>| in_closure(ns, seeded, x) && lookup(ns, x) == Some(None::<Seq<Seq<u8>>>)
                };
                assert(in_closure(root_graph(roots@), root_seeds(ts), x) && !has_refs(root_graph(roots@), x));
            }
            return Err(GcErrorCode::DependencyMissing);
        },
    };
    let ghost retained_set = retained_spec(ts, roots@);
    proof {
        assert(digests_view(root_seed_ids@).to_set() == root_seeds(ts));
        lemma_closure_exact(root_graph(roots@), root_seeds(ts), digests_view(retained_roots@).to_set());
        assert forall|x: Seq<u8>| digests_view(retained_roots@).contains(x) <==> retained_set.contains(x) by {
            assert(digests_view(retained_roots@).to_set().contains(x) <==> digests_view(retained_roots@).contains(x));
        }
        assert forall|x: Seq<u8>| in_closure(root_graph(roots@), root_seeds(ts), x) implies has_refs(root_graph(roots@), x)
            && digests_view(retained_roots@).contains(x) by {
            assert(digests_view(retained_roots@).to_set().contains(x));
        }
        lemma_edges_within(
            root_graph(roots@),
            root_seeds(ts),
            digests_view(retained_roots@),
            false,
            MAX_GC_DEPENDENCY_EDGES as int,
        );
    }
    let binding_nodes = root_nodes(roots, false);
    let mut seeds = copy_ids(&object_seed_ids);
    let ghost bindings = root_objects(roots@);
    let ghost rv = digests_view(retained_roots@);
    let mut k: usize = 0;
    proof {
        assert forall|x: Seq<u8>| digests_view(seeds@).contains(x) <==> (ts.contains((false, x)) || exists|m: int|
            0 <= m < 0 && (lookup(bindings, #[trigger] rv[m]) matches Some(Some(os)) && os.contains(x))) by {
            assert(digests_view(object_seed_ids@).to_set().contains(x) <==> object_seeds(ts).contains(x));
        }
    }
    while k < retained_roots.len()
        invariant
            k <= retained_roots@.len(),
            rv == digests_view(retained_roots@),
            node_views(binding_nodes@) == bindings,
            bindings == root_objects(roots@),
            forall|x: Seq<u8>| digests_view(seeds@).contains(x) <==> (ts.contains((false, x)) || exists|m: int|
                0 <= m < k && (lookup(bindings, #[trigger] rv[m]) matches Some(Some(os)) && os.contains(x))),
        decreases retained_roots.len() - k,
    {
        assert(rv[k as int] == retained_roots@[k as int]@);
        match lookup_node(&binding_nodes, &retained_roots[k]) {
            None => {
                assert forall|x: Seq<u8>| digests_view(seeds@).contains(x) <==> (ts.contains((false, x)) || exists|m: int|
                    0 <= m < k + 1 && (lookup(bindings, #[trigger] rv[m]) matches Some(Some(os)) && os.contains(x))) by {
                    if exists|m: int| 0 <= m < k + 1 && (lookup(bindings, #[trigger] rv[m]) matches Some(Some(os)) && os.contains(x)) {
                        let m = choose|m: int| 0 <= m < k + 1 && (lookup(bindings, #[trigger] rv[m]) matches Some(Some(os)) && os.contains(x));
                        assert(m < k);
                    }
                }
            },
            Some(index) => {
                assert(node_views(binding_nodes@)[index as int] == binding_nodes@[index as int]@);
                let objects = match &binding_nodes[index].references {
                    Some(os) => copy_ids(os),
                    None => Vec::new(),
                };
                let ghost ov = digests_view(objects@);
                assert(lookup(bindings, rv[k as int]) matches Some(Some(os)) ==> os == ov);
                assert(lookup(bindings, rv[k as int]) is Some);
                let ghost seeds_before = digests_view(seeds@);
                let mut j: usize = 0;
                while j < objects.len()
                    invariant
                        j <= objects@.len(),
                        ov == digests_view(objects@),
                        forall|x: Seq<u8>| #[trigger] digests_view(seeds@).contains(x) <==> (seeds_before.contains(x)
                            || ov.take(j as int).contains(x)),
                    decreases objects.len() - j,
                {
                    let ghost sb = digests_view(seeds@);
                    seeds.push(objects[j]);
                    proof {
                        assert(digests_view(seeds@) =~= sb.push(ov[j as int]));
                        assert(ov.take(j + 1) =~= ov.take(j as int).push(ov[j as int]));
                        assert forall|x: Seq<u8>| #[trigger] digests_view(seeds@).contains(x) <==> (seeds_before.contains(x)
                            || ov.take(j + 1).contains(x)) by {
                            lemma_push_has(sb, ov[j as int], x);
                            lemma_push_has(ov.take(j as int), ov[j as int], x);
                        }
                    }
                    j = j + 1;
                }
                proof {
                    assert(ov.take(j as int) =~= ov);
                    assert forall|x: Seq<u8>| digests_view(seeds@).contains(x) <==> (ts.contains((false, x)) || exists|m: int|
                        0 <= m < k + 1 && (lookup(bindings, #[trigger] rv[m]) matches Some(Some(os)) && os.contains(x))) by {
                        let before_holds = exists|m: int|
                            0 <= m < k && (lookup(bindings, #[trigger] rv[m]) matches Some(Some(os)) && os.contains(x));
                        assert(seeds_before.contains(x) <==> (ts.contains((false, x)) || before_holds));
                        if exists|m: int| 0 <= m < k + 1 && (lookup(bindings, #[trigger] rv[m]) matches Some(Some(os)) && os.contains(x)) {
                            let m = choose|m: int| 0 <= m < k + 1 && (lookup(bindings, #[trigger] rv[m]) matches Some(Some(os)) && os.contains(x));
                            if m == k {
                                assert(ov.contains(x));
                            } else {
                                assert(before_holds);
                            }
                        }
                        if ov.contains(x) {
                            assert(lookup(bindings, rv[k as int]) matches Some(Some(os)) && os.contains(x));
                        }
                        if before_holds {
                            let m = choose|m: int| 0 <= m < k && (lookup(bindings, #[trigger] rv[m]) matches Some(Some(os)) && os.contains(x));
                            assert(0 <= m < k + 1);
                        }
                    }
                }
            },
        }
        k = k + 1;
    }
    let ghost object_seed_set = retained_objects(ts, bindings, retained_set);
    proof {
        assert forall|x: Seq<u8>| digests_view(seeds@).to_set().contains(x) <==> object_seed_set.contains(x) by {
            if exists|r: Seq<u8>| retained_set.contains(r) && (lookup(bindings, r) matches Some(Some(os)) && os.contains(x)) {
                let r = choose|r: Seq<u8>| retained_set.contains(r) && (lookup(bindings, r) matches Some(Some(os)) && os.contains(x));
                assert(rv.contains(r));
                let m = choose|m: int| 0 <= m < rv.len() && rv[m] == r;
                assert(lookup(bindings, rv[m]) matches Some(Some(os)) && os.contains(x));
            }
            if exists|m: int| 0 <= m < rv.len() && (lookup(bindings, #[trigger] rv[m]) matches Some(Some(os)) && os.contains(x)) {
                let m = choose|m: int| 0 <= m < rv.len() && (lookup(bindings, #[trigger] rv[m]) matches Some(Some(os)) && os.contains(x));
                assert(rv.contains(rv[m]));
                assert(retained_set.contains(rv[m]));
            }
        }
        assert(digests_view(seeds@).to_set() =~= object_seed_set);
    }
    let nodes = object_nodes(inventory);
    let reachable_objects = match reference_closure(&nodes, &seeds, MAX_GC_OBJECT_REFERENCE_EDGES, true) {
        Ok(v) => v,
        Err(ClosureFault::TooManyEdges) => {
            proof {
                assert(node_views(nodes@) == object_graph(inventory@));
            }
            return Err(GcErrorCode::ResourceLimit);
        },
        Err(ClosureFault::Missing) => {
            proof {
                let ns = node_views(nodes@);
                assert(ns == object_graph(inventory@));
                let x = choose|x: Seq<u8>| in_closure(ns, object_seed_set, x) && lookup(ns, x) is None;
                assert(in_closure(object_graph(inventory@), object_seed_spec(ts, roots@), x) && !has_refs(
                    object_graph(inventory@),
                    x,
                ));
            }
            return Err(GcErrorCode::ObjectMissing);
        },
        Err(ClosureFault::Malformed) => {
            proof {
                let ns = node_views(nodes@);
                assert(ns == object_graph(inventory@));
                let x = choose|x: Seq<u8>| in_closure(ns, object_seed_set, x) && lookup(ns, x) == Some(None::<Seq<Seq<u8>>>);
                assert(in_closure(object_graph(inventory@), object_seed_spec(ts, roots@), x) && !has_refs(
                    object_graph(inventory@),
                    x,
                ));
            }
            return Err(GcErrorCode::ObjectReferenceMalformed);
        },
    };
    let ghost reachable = reachable_spec(ts, roots@, inventory@);
    proof {
        lemma_closure_exact(object_graph(inventory@), object_seed_set, digests_view(reachable_objects@).to_set());
        assert forall|x: Seq<u8>| digests_view(reachable_objects@).contains(x) <==> reachable.contains(x) by {
            assert(digests_view(reachable_objects@).to_set().contains(x) <==> digests_view(reachable_objects@).contains(x));
        }
        assert(object_seed_set == object_seed_spec(ts, roots@));
        assert forall|x: Seq<u8>| in_closure(object_graph(inventory@), object_seed_set, x) implies has_refs(
            object_graph(inventory@),
            x,
        ) && digests_view(reachable_objects@).contains(x) by {
            assert(digests_view(reachable_objects@).to_set().contains(x));
        }
        lemma_edges_within(
            object_graph(inventory@),
            object_seed_set,
            digests_view(reachable_objects@),
            true,
            MAX_GC_OBJECT_REFERENCE_EDGES as int,
        );
    }
    let mut deletion_candidates: Vec<[u8; 32]> = Vec::new();
    let mut candidate_bytes: u64 = 0;
    let mut c: usize = 0;
    while c < inventory.len()
        invariant
            c <= inventory@.len(),
            inv == inventory_ids(inventory@),
            forall|x: Seq<u8>| digests_view(reachable_objects@).contains(x) <==> reachable.contains(x),
            forall|x: Seq<u8>| #[trigger] digests_view(deletion_candidates@).contains(x) <==> (inv.take(c as int).contains(x)
                && !reachable.contains(x)),
            candidate_bytes == bytes_where(inventory@.take(c as int), |x: Seq<u8>| !reachable.contains(x)),
        decreases inventory.len() - c,
    {
        let id = inventory[c].object_id;
        let reached = contains_id(&reachable_objects, &id);
        let ghost before = digests_view(deletion_candidates@);
        proof {
            let t = inventory@.take(c + 1);
            assert(t.drop_last() =~= inventory@.take(c as int));
            assert(inv.take(c + 1) =~= inv.take(c as int).push(id@));
        }
        assert(inventory@[c as int].object_id@ == id@);
        if !reached {
            if inventory[c].bytes > u64::MAX - candidate_bytes {
                proof {
                    lemma_bytes_prefix(inventory@, |x: Seq<u8>| !reachable.contains(x), c + 1);
                }
                return Err(GcErrorCode::ResourceLimit);
            }
            candidate_bytes = candidate_bytes + inventory[c].bytes;
            deletion_candidates.push(id);
            proof {
                assert(digests_view(deletion_candidates@) =~= before.push(id@));
            }
        }
        proof {
            assert(!reachable.contains(id@) <==> !reached);
            assert forall|x: Seq<u8>| #[trigger] digests_view(deletion_candidates@).contains(x) <==> (inv.take(c + 1).contains(x)
                && !reachable.contains(x)) by {
                lemma_push_has(inv.take(c as int), id@, x);
                if !reached {
                    lemma_push_has(before, id@, x);
                }
            }
        }
        c = c + 1;
    }
    assert(inventory@.take(c as int) =~= inventory@);
    assert(inv.take(c as int) =~= inv);
    let retained_roots = sorted_set(&retained_roots);
    let reachable_objects = sorted_set(&reachable_objects);
    let inventory_objects = sorted_set(&inventory_objects);
    let deletion_candidates = sorted_set(&deletion_candidates);
    proof {
        lemma_ascending_len(digests_view(retained_roots@), retained_spec(ts, roots@));
        lemma_ascending_len(digests_view(reachable_objects@), reachable);
        assert forall|x: Seq<u8>| digests_view(deletion_candidates@).contains(x) <==> candidate_spec(
            ts,
            roots@,
            inventory@,
        ).contains(x) by {}
        lemma_ascending_len(digests_view(deletion_candidates@), candidate_spec(ts, roots@, inventory@));
        assert(report_entries(anchors@, roots@, inventory@) == examined_anchors@.len() + retained_roots@.len()
            + reachable_objects@.len() + inventory@.len() + deletion_candidates@.len());
    }
    let listed: u128 = examined_anchors.len() as u128 + retained_roots.len() as u128 + reachable_objects.len() as u128
        + inventory.len() as u128 + deletion_candidates.len() as u128;
    if listed > MAX_GC_REPORT_ENTRIES as u128 {
        return Err(GcErrorCode::ResourceLimit);
    }
    let total = listed as usize;
    if !allocation_fits(total, inventory) {
        return Err(GcErrorCode::ResourceLimit);
    }
    Ok(GcPlan {
        examined_anchors,
        retained_roots,
        reachable_objects,
        inventory_objects,
        deletion_candidates,
        inventory_bytes,
        candidate_bytes,
    })
}

/// The allocation a report of `entries` identities and the inventory's
/// paths is estimated to need: 128 bytes per identity plus every path.
pub open spec fn allocation_estimate(entries: nat, inventory: Seq<InventoryObject>) -> nat
    decreases inventory.len(),
{
    if inventory.len() == 0 {
        entries * 128
    } else {
        allocation_estimate(entries, inventory.drop_last()) + (inventory.last().path_len as nat)
    }
}

/// Returns whether the estimated allocation stays within
/// `MAX_GC_ALLOCATION`.
pub fn allocation_fits(entries: usize, inventory: &Vec<InventoryObject>) -> (r: bool)
    requires
        entries <= MAX_GC_REPORT_ENTRIES,
    ensures
        r == (allocation_estimate(entries as nat, inventory@) <= MAX_GC_ALLOCATION),
{
    let mut total: usize = entries * 128;
    let mut i: usize = 0;
    while i < inventory.len()
        invariant
            i <= inventory@.len(),
            entries <= MAX_GC_REPORT_ENTRIES,
            total == allocation_estimate(entries as nat, inventory@.take(i as int)),
            total <= MAX_GC_ALLOCATION,
        decreases inventory.len() - i,
    {
        proof {
            assert(inventory@.take(i + 1).drop_last() =~= inventory@.take(i as int));
        }
        if inventory[i].path_len > MAX_GC_ALLOCATION - total {
            proof {
                lemma_estimate_grows(entries as nat, inventory@, i + 1);
            }
            return false;
        }
        total = total + inventory[i].path_len;
        i = i + 1;
    }
    proof {
        assert(inventory@.take(0) =~= Seq::<InventoryObject>::empty());
        assert(inventory@.take(i as int) =~= inventory@);
    }
    true
}

proof fn lemma_estimate_grows(entries: nat, inventory: Seq<InventoryObject>, k: int)
    requires
        0 <= k <= inventory.len(),
    ensures
        allocation_estimate(entries, inventory.take(k)) <= allocation_estimate(entries, inventory),
    decreases inventory.len() - k,
{
    if k < inventory.len() {
        lemma_estimate_grows(entries, inventory, k + 1);
        assert(inventory.take(k + 1).drop_last() =~= inventory.take(k));
    } else {
        assert(inventory.take(k) =~= inventory);
    }
}

/// A deletion candidate of a successful plan is never reachable from what
/// the anchors retain, and every unreachable inventory object is a
/// candidate.
pub proof fn lemma_candidates_unreachable(
    anchors: Seq<RetentionAnchor>,
    roots: Seq<GcRoot>,
    inventory: Seq<InventoryObject>,
    candidates: Seq<Seq<u8>>,
)
    requires
        forall|x: Seq<u8>| candidates.contains(x) <==> (inventory_ids(inventory).contains(x)
            && !reachable_spec(flat_targets(anchors), roots, inventory).contains(x)),
    ensures
        ({
            let ts = flat_targets(anchors);
            let seeds = retained_objects(ts, root_objects(roots), retained_spec(ts, roots));
            &&& forall|x: Seq<u8>| candidates.contains(x) ==> !in_closure(object_graph(inventory), seeds, x)
            &&& forall|x: Seq<u8>| inventory_ids(inventory).contains(x) && !in_closure(object_graph(inventory), seeds, x)
                ==> candidates.contains(x)
        }),
{
}

/// Checks a plan before any deletion: a candidate that the plan also lists
/// as reachable stops the run.
pub fn check_deletion_plan(plan: &GcPlan) -> (r: Result<(), GcErrorCode>)
    ensures
        (forall|i: int| 0 <= i < plan.deletion_candidates@.len() ==> !digests_view(plan.reachable_objects@).contains(
            #[trigger] plan.deletion_candidates@[i]@,
        )) ==> r is Ok,
        !(forall|i: int| 0 <= i < plan.deletion_candidates@.len() ==> !digests_view(plan.reachable_objects@).contains(
            #[trigger] plan.deletion_candidates@[i]@,
        )) ==> r == Err::<(), GcErrorCode>(GcErrorCode::ReachabilityViolation),
{
    let mut i: usize = 0;
    while i < plan.deletion_candidates.len()
        invariant
            i <= plan.deletion_candidates@.len(),
            forall|m: int| 0 <= m < i ==> !digests_view(plan.reachable_objects@).contains(
                #[trigger] plan.deletion_candidates@[m]@,
            ),
        decreases plan.deletion_candidates.len() - i,
    {
        if contains_id(&plan.reachable_objects, &plan.deletion_candidates[i]) {
            return Err(GcErrorCode::ReachabilityViolation);
        }
        i = i + 1;
    }
    Ok(())
}

/// The dependency edges of a root catalog, root by root in catalog order,
/// each root's dependencies in recorded order.
pub open spec fn flat_dependencies(roots: Seq<GcRoot>) -> Seq<Seq<u8>>
    decreases roots.len(),
{
    if roots.len() == 0 {
        Seq::empty()
    } else {
        flat_dependencies(roots.drop_last()) + digests_view(roots.last().dependency_roots@)
    }
}

/// The identities of a root catalog.
pub open spec fn catalog_ids(roots: Seq<GcRoot>) -> Seq<Seq<u8>> {
    roots.map_values(|r: GcRoot| r.root@)
}

/// The outcome of checking a catalog's dependency edges one by one, each
/// counted against `MAX_GC_DEPENDENCY_EDGES` before its dependency is
/// looked up: a dependency outside the catalog within the budget, else an
/// edge over the budget, else none.
pub open spec fn dependency_check_spec(roots: Seq<GcRoot>) -> Option<GcErrorCode> {
    let deps = flat_dependencies(roots);
    if exists|q: int| 0 <= q < deps.len() && q < MAX_GC_DEPENDENCY_EDGES && !catalog_ids(roots).contains(#[trigger] deps[q]) {
        Some(GcErrorCode::DependencyMissing)
    } else if deps.len() > MAX_GC_DEPENDENCY_EDGES {
        Some(GcErrorCode::ResourceLimit)
    } else {
        None
    }
}

fn catalog_has(roots: &Vec<GcRoot>, id: &[u8; 32]) -> (r: bool)
    ensures
        r == catalog_ids(roots@).contains(id@),
{
    let mut k: usize = 0;
    while k < roots.len()
        invariant
            k <= roots@.len(),
            forall|m: int| 0 <= m < k ==> roots@[m].root@ != id@,
        decreases roots.len() - k,
    {
        if bytes_equal(roots[k].root.as_slice(), id.as_slice()) {
            assert(catalog_ids(roots@)[k as int] == id@);
            return true;
        }
        k = k + 1;
    }
    proof {
        if catalog_ids(roots@).contains(id@) {
            let m = choose|m: int| 0 <= m < catalog_ids(roots@).len() && catalog_ids(roots@)[m] == id@;
            assert(roots@[m].root@ == id@);
        }
    }
    false
}

/// Checks every dependency edge of a validated root catalog, in catalog
/// order: each edge counts against `MAX_GC_DEPENDENCY_EDGES`, and each
/// dependency must be a root of the catalog.
#[verifier::loop_isolation(false)]
pub fn check_root_dependencies(roots: &Vec<GcRoot>) -> (r: Result<(), GcErrorCode>)
    ensures
        match dependency_check_spec(roots@) {
            None => r is Ok,
            Some(e) => r == Err::<(), GcErrorCode>(e),
        },
{
    let ghost ids = catalog_ids(roots@);
    let ghost all = flat_dependencies(roots@);
    proof {
        lemma_flat_dependencies_prefix(roots@, roots@.len() as int);
    }
    let mut count: usize = 0;
    let mut i: usize = 0;
    assert(roots@.take(0) =~= Seq::<GcRoot>::empty());
    while i < roots.len()
        invariant
            i <= roots@.len(),
            count <= MAX_GC_DEPENDENCY_EDGES,
            count == flat_dependencies(roots@.take(i as int)).len(),
            all.take(count as int) == flat_dependencies(roots@.take(i as int)),
            count <= all.len(),
            forall|q: int| 0 <= q < count ==> ids.contains(#[trigger] all[q]),
        decreases roots.len() - i,
    {
        let ghost before = count as int;
        proof {
            assert(roots@.take(i + 1).drop_last() =~= roots@.take(i as int));
            lemma_flat_dependencies_prefix(roots@, i + 1);
        }
        let deps = &roots[i].dependency_roots;
        let ghost dv = digests_view(deps@);
        assert(flat_dependencies(roots@.take(i + 1)) == flat_dependencies(roots@.take(i as int)) + dv);
        let mut j: usize = 0;
        while j < deps.len()
            invariant
                j <= deps@.len(),
                dv == digests_view(deps@),
                count == before + j,
                count <= MAX_GC_DEPENDENCY_EDGES,
                all.take(before + dv.len()) == flat_dependencies(roots@.take(i as int)) + dv,
                before + dv.len() <= all.len(),
                forall|q: int| 0 <= q < count ==> ids.contains(#[trigger] all[q]),
            decreases deps.len() - j,
        {
            assert(all[before + j] == dv[j as int]) by {
                assert(all.take(before + dv.len())[before + j] == dv[j as int]);
            }
            if count >= MAX_GC_DEPENDENCY_EDGES {
                return Err(GcErrorCode::ResourceLimit);
            }
            count = count + 1;
            if !catalog_has(roots, &deps[j]) {
                assert(!ids.contains(all[before + j]));
                return Err(GcErrorCode::DependencyMissing);
            }
            j = j + 1;
        }
        i = i + 1;
    }
    assert(roots@.take(i as int) =~= roots@);
    Ok(())
}

proof fn lemma_flat_dependencies_prefix(roots: Seq<GcRoot>, i: int)
    requires
        0 <= i <= roots.len(),
    ensures
        flat_dependencies(roots.take(i)).len() <= flat_dependencies(roots).len(),
        flat_dependencies(roots).take(flat_dependencies(roots.take(i)).len() as int) == flat_dependencies(
            roots.take(i),
        ),
    decreases roots.len(),
{
    if i == roots.len() {
        assert(roots.take(i) =~= roots);
        assert(flat_dependencies(roots).take(flat_dependencies(roots).len() as int) =~= flat_dependencies(roots));
    } else {
        let d = roots.drop_last();
        assert(d.take(i) =~= roots.take(i));
        lemma_flat_dependencies_prefix(d, i);
        let f = flat_dependencies(roots);
        let fd = flat_dependencies(d);
        let n = flat_dependencies(roots.take(i)).len() as int;
        assert(f.take(n) =~= fd.take(n));
    }
}

} // verus!
