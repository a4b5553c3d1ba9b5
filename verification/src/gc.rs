//! Garbage collection: failure codes, retention anchors, witness recovery,
//! and the reachability closure that decides what may be deleted.

use vstd::prelude::*;

use crate::bytes::bytes_equal;
use crate::digest::digests_view;

verus! {

/// Maximum retention anchors.
pub const MAX_GC_ANCHORS: usize = 65_536;
/// Maximum total anchor targets.
pub const MAX_GC_TARGETS: usize = 262_144;
/// Maximum roots in the caller-owned catalog.
pub const MAX_GC_ROOTS: usize = 65_536;
/// Maximum traversed root-dependency edges.
pub const MAX_GC_DEPENDENCY_EDGES: usize = 1_000_000;
/// Maximum traversed object-reference edges.
pub const MAX_GC_OBJECT_REFERENCE_EDGES: usize = 1_000_000;
/// Maximum inventory objects.
pub const MAX_GC_INVENTORY_OBJECTS: usize = 262_144;
/// Maximum identity entries across successful report lists.
pub const MAX_GC_REPORT_ENTRIES: usize = 786_432;
/// Approximate collection allocation budget.
pub const MAX_GC_ALLOCATION: usize = 134_217_728;

/// Stable garbage-collection failure code.
#[derive(Clone, Copy, Debug, PartialEq, Eq, Structural)]
pub enum GcErrorCode {
    /// `GC_RESOURCE_LIMIT`.
    ResourceLimit,
    /// `GC_ANCHOR_MALFORMED`.
    AnchorMalformed,
    /// `GC_ANCHOR_UNRESOLVED`.
    AnchorUnresolved,
    /// `GC_ROOT_MISSING`.
    RootMissing,
    /// `GC_ROOT_INVALID`.
    RootInvalid,
    /// `GC_DEPENDENCY_MISSING`.
    DependencyMissing,
    /// `GC_OBJECT_REFERENCE_MALFORMED`.
    ObjectReferenceMalformed,
    /// `GC_OBJECT_MISSING`.
    ObjectMissing,
    /// `GC_INVENTORY_INVALID`.
    InventoryInvalid,
    /// Reserved `GC_DRY_RUN_REQUIRED`.
    DryRunRequired,
    /// `GC_EXCLUSIVE_LOCK_REQUIRED`.
    ExclusiveLockRequired,
    /// `GC_DELETE_IO`.
    DeleteIo,
    /// `GC_REACHABILITY_VIOLATION`.
    ReachabilityViolation,
    /// `GC_INTERNAL_INVARIANT`.
    InternalInvariant,
}

impl GcErrorCode {
    /// The stable symbol of each code.
    pub open spec fn symbol(self) -> Seq<char> {
        match self {
            GcErrorCode::ResourceLimit => "GC_RESOURCE_LIMIT"@,
            GcErrorCode::AnchorMalformed => "GC_ANCHOR_MALFORMED"@,
            GcErrorCode::AnchorUnresolved => "GC_ANCHOR_UNRESOLVED"@,
            GcErrorCode::RootMissing => "GC_ROOT_MISSING"@,
            GcErrorCode::RootInvalid => "GC_ROOT_INVALID"@,
            GcErrorCode::DependencyMissing => "GC_DEPENDENCY_MISSING"@,
            GcErrorCode::ObjectReferenceMalformed => "GC_OBJECT_REFERENCE_MALFORMED"@,
            GcErrorCode::ObjectMissing => "GC_OBJECT_MISSING"@,
            GcErrorCode::InventoryInvalid => "GC_INVENTORY_INVALID"@,
            GcErrorCode::DryRunRequired => "GC_DRY_RUN_REQUIRED"@,
            GcErrorCode::ExclusiveLockRequired => "GC_EXCLUSIVE_LOCK_REQUIRED"@,
            GcErrorCode::DeleteIo => "GC_DELETE_IO"@,
            GcErrorCode::ReachabilityViolation => "GC_REACHABILITY_VIOLATION"@,
            GcErrorCode::InternalInvariant => "GC_INTERNAL_INVARIANT"@,
        }
    }

    /// Returns the exact stable symbol.
    pub fn as_str(self) -> (s: &'static str)
        ensures
            s@ == self.symbol(),
    {
        match self {
            GcErrorCode::ResourceLimit => "GC_RESOURCE_LIMIT",
            GcErrorCode::AnchorMalformed => "GC_ANCHOR_MALFORMED",
            GcErrorCode::AnchorUnresolved => "GC_ANCHOR_UNRESOLVED",
            GcErrorCode::RootMissing => "GC_ROOT_MISSING",
            GcErrorCode::RootInvalid => "GC_ROOT_INVALID",
            GcErrorCode::DependencyMissing => "GC_DEPENDENCY_MISSING",
            GcErrorCode::ObjectReferenceMalformed => "GC_OBJECT_REFERENCE_MALFORMED",
            GcErrorCode::ObjectMissing => "GC_OBJECT_MISSING",
            GcErrorCode::InventoryInvalid => "GC_INVENTORY_INVALID",
            GcErrorCode::DryRunRequired => "GC_DRY_RUN_REQUIRED",
            GcErrorCode::ExclusiveLockRequired => "GC_EXCLUSIVE_LOCK_REQUIRED",
            GcErrorCode::DeleteIo => "GC_DELETE_IO",
            GcErrorCode::ReachabilityViolation => "GC_REACHABILITY_VIOLATION",
            GcErrorCode::InternalInvariant => "GC_INTERNAL_INVARIANT",
        }
    }
}

/// Closed retention-anchor kind.
#[derive(Clone, Copy, Debug, PartialEq, Eq, Structural)]
pub enum RetentionKind {
    /// Caller-resolved retained ref.
    Ref,
    /// Caller-resolved retained tag.
    Tag,
    /// Caller-declared active lease.
    Lease,
    /// Caller-resolved retained transaction.
    Transaction,
    /// Caller-resolved retained pack manifest.
    PackManifest,
    /// Caller-declared protected root.
    ProtectedRoot,
    /// Caller-declared active session pin.
    SessionPin,
}

impl RetentionKind {
    /// The frozen tag of each kind.
    pub open spec fn tag_spec(self) -> u8 {
        match self {
            RetentionKind::Ref => 1,
            RetentionKind::Tag => 2,
            RetentionKind::Lease => 3,
            RetentionKind::Transaction => 4,
            RetentionKind::PackManifest => 5,
            RetentionKind::ProtectedRoot => 6,
            RetentionKind::SessionPin => 7,
        }
    }

    /// Returns the frozen tag.
    pub fn tag(self) -> (t: u8)
        ensures
            t == self.tag_spec(),
    {
        match self {
            RetentionKind::Ref => 1,
            RetentionKind::Tag => 2,
            RetentionKind::Lease => 3,
            RetentionKind::Transaction => 4,
            RetentionKind::PackManifest => 5,
            RetentionKind::ProtectedRoot => 6,
            RetentionKind::SessionPin => 7,
        }
    }
}

/// Canonical key emitted for an examined anchor.
#[derive(Clone, Copy, Debug, PartialEq, Eq)]
pub struct RetentionAnchorKey {
    /// Closed kind.
    pub kind: RetentionKind,
    /// Opaque caller-owned identity.
    pub anchor_id: [u8; 32],
}

/// Successful collection decision.
#[derive(Clone, Copy, Debug, PartialEq, Eq, Structural)]
pub enum GcDecision {
    /// Mark and report only; nothing was changed.
    DryRun,
    /// Every planned unreachable object was deleted and synced.
    Collected,
    /// Host deletion or sync failed after zero or more completed deletions.
    PartialDeleteFailure,
}

/// Result of recovering one durable collection witness.
#[derive(Clone, Copy, Debug, PartialEq, Eq, Structural)]
pub enum GcWitnessRecoveryStatus {
    /// Removed a complete exact witness.
    RemovedExact,
    /// Removed an empty or strict-prefix witness.
    RemovedIncomplete,
    /// Observed no witness.
    Absent,
}

/// The exact witness bytes.
pub open spec fn witness_bytes() -> Seq<u8> {
    crate::pack_tree::ascii_bytes("SLEYGC01"@)
}

/// Classifying the bytes of a witness file: the exact witness, a strict
/// prefix of it (empty included), or anything else, which is refused.
pub open spec fn witness_spec(bytes: Seq<u8>) -> Result<GcWitnessRecoveryStatus, GcErrorCode> {
    if bytes.len() > 8 || bytes != witness_bytes().take(bytes.len() as int) {
        Err(GcErrorCode::ExclusiveLockRequired)
    } else if bytes.len() == 8 {
        Ok(GcWitnessRecoveryStatus::RemovedExact)
    } else {
        Ok(GcWitnessRecoveryStatus::RemovedIncomplete)
    }
}

/// Classifies the complete contents of a witness file.
pub fn classify_witness(bytes: &[u8]) -> (r: Result<GcWitnessRecoveryStatus, GcErrorCode>)
    ensures
        r == witness_spec(bytes@),
{
    let text = "SLEYGC01";
    proof {
        reveal_strlit("SLEYGC01");
        vstd::string::is_ascii_spec_bytes(text);
    }
    let witness = text.as_bytes();
    assert(witness@ =~= witness_bytes());
    if bytes.len() > 8 {
        return Err(GcErrorCode::ExclusiveLockRequired);
    }
    let prefix = crate::bytes::copy_range(witness, 0, bytes.len());
    assert(prefix@ =~= witness_bytes().take(bytes@.len() as int));
    if !bytes_equal(bytes, prefix.as_slice()) {
        return Err(GcErrorCode::ExclusiveLockRequired);
    }
    if bytes.len() == 8 {
        Ok(GcWitnessRecoveryStatus::RemovedExact)
    } else {
        Ok(GcWitnessRecoveryStatus::RemovedIncomplete)
    }
}

/// `b` is a lower-case hexadecimal digit.
pub open spec fn lower_hex(b: u8) -> bool {
    (48 <= b <= 57) || (97 <= b <= 102)
}

/// The value of a lower-case hexadecimal digit.
pub open spec fn nibble(b: u8) -> u8 {
    if 48 <= b <= 57 {
        (b - 48) as u8
    } else {
        (b - 87) as u8
    }
}

/// Whether `byte` is a lower-case hexadecimal digit.
pub fn is_lower_hex(byte: u8) -> (r: bool)
    ensures
        r == lower_hex(byte),
{
    (byte >= 48 && byte <= 57) || (byte >= 97 && byte <= 102)
}

/// The value of one lower-case hexadecimal digit.
pub fn hex_nibble(byte: u8) -> (r: Result<u8, GcErrorCode>)
    ensures
        lower_hex(byte) ==> r == Ok::<u8, GcErrorCode>(nibble(byte)),
        !lower_hex(byte) ==> r == Err::<u8, GcErrorCode>(GcErrorCode::InventoryInvalid),
{
    if byte >= 48 && byte <= 57 {
        Ok(byte - 48)
    } else if byte >= 97 && byte <= 102 {
        Ok(byte - 87)
    } else {
        Err(GcErrorCode::InventoryInvalid)
    }
}

/// The identity spelled by 64 lower-case hexadecimal digits.
pub open spec fn hex_id(text: Seq<u8>) -> Seq<u8> {
    Seq::new(32, |i: int| (nibble(text[2 * i]) * 16 + nibble(text[2 * i + 1])) as u8)
}

/// The spelling is 64 lower-case hexadecimal digits.
pub open spec fn hex_id_valid(text: Seq<u8>) -> bool {
    text.len() == 64 && forall|i: int| 0 <= i < 64 ==> lower_hex(#[trigger] text[i])
}

/// Parses an object identity from its 64-digit lower-case hexadecimal
/// inventory name.
pub fn parse_object_id(hex: &str) -> (r: Result<[u8; 32], GcErrorCode>)
    ensures
        hex_id_valid(vstd::string::StringSliceAdditionalSpecFns::spec_bytes(hex)) ==> r is Ok && r->Ok_0@ == hex_id(vstd::string::StringSliceAdditionalSpecFns::spec_bytes(hex)),
        !hex_id_valid(vstd::string::StringSliceAdditionalSpecFns::spec_bytes(hex)) ==> r == Err::<[u8; 32], GcErrorCode>(
            GcErrorCode::InventoryInvalid,
        ),
{
    let text = hex.as_bytes();
    if text.len() != 64 {
        return Err(GcErrorCode::InventoryInvalid);
    }
    let mut k: usize = 0;
    while k < 64
        invariant
            k <= 64,
            text@.len() == 64,
            text@ == vstd::string::StringSliceAdditionalSpecFns::spec_bytes(hex),
            forall|i: int| 0 <= i < k ==> lower_hex(#[trigger] text@[i]),
        decreases 64 - k,
    {
        if !is_lower_hex(text[k]) {
            assert(!lower_hex(text@[k as int]));
            return Err(GcErrorCode::InventoryInvalid);
        }
        k = k + 1;
    }
    let mut bytes = [0u8; 32];
    let mut index: usize = 0;
    while index < 32
        invariant
            index <= 32,
            text@.len() == 64,
            text@ == vstd::string::StringSliceAdditionalSpecFns::spec_bytes(hex),
            forall|i: int| 0 <= i < 64 ==> lower_hex(#[trigger] text@[i]),
            forall|j: int|
                0 <= j < index ==> bytes@[j] == (nibble(text@[2 * j]) * 16 + nibble(
                    text@[2 * j + 1],
                )) as u8,
        decreases 32 - index,
    {
        let high = hex_nibble(text[2 * index]).unwrap();
        let low = hex_nibble(text[2 * index + 1]).unwrap();
        assert(high < 16 && low < 16);
        bytes[index] = high * 16 + low;
        index = index + 1;
    }
    assert(bytes@ =~= hex_id(text@));
    Ok(bytes)
}

// ---------------------------------------------------------------------------
// Reachability.
// ---------------------------------------------------------------------------

/// One node of a reference graph: its identity and the identities it
/// references (`None` when its reference shape is malformed).
pub struct GraphNode {
    /// The node's identity.
    pub id: [u8; 32],
    /// The identities it references.
    pub references: Option<Vec<[u8; 32]>>,
}

/// A graph node as values.
pub type NodeView = (Seq<u8>, Option<Seq<Seq<u8>>>);

impl View for GraphNode {
    type V = NodeView;

    open spec fn view(&self) -> NodeView {
        (
            self.id@,
            match self.references {
                Some(r) => Some(digests_view(r@)),
                None => None,
            },
        )
    }
}

/// The views of graph nodes.
pub open spec fn node_views(ns: Seq<GraphNode>) -> Seq<NodeView> {
    ns.map_values(|n: GraphNode| n@)
}

/// The entry for `x`: `None` when no node has that identity, else the first
/// such node's references.
pub open spec fn lookup(ns: Seq<NodeView>, x: Seq<u8>) -> Option<Option<Seq<Seq<u8>>>>
    decreases ns.len(),
{
    if ns.len() == 0 {
        None
    } else if ns[0].0 == x {
        Some(ns[0].1)
    } else {
        lookup(ns.drop_first(), x)
    }
}

/// `x` has a node with well-formed references.
pub open spec fn has_refs(ns: Seq<NodeView>, x: Seq<u8>) -> bool {
    lookup(ns, x) matches Some(Some(_))
}

/// `x` references `y`.
pub open spec fn successor(ns: Seq<NodeView>, x: Seq<u8>, y: Seq<u8>) -> bool {
    lookup(ns, x) matches Some(Some(refs)) && refs.contains(y)
}

/// Every reference of a member of `s` is a member of `s`.
pub open spec fn closed(ns: Seq<NodeView>, s: Set<Seq<u8>>) -> bool {
    forall|x: Seq<u8>, y: Seq<u8>| #[trigger] successor(ns, x, y) && s.contains(x) ==> s.contains(y)
}

/// `x` belongs to every closed set containing the seeds: it is reachable
/// from them.
pub open spec fn in_closure(ns: Seq<NodeView>, seeds: Set<Seq<u8>>, x: Seq<u8>) -> bool {
    forall|s: Set<Seq<u8>>| #![trigger closed(ns, s)] seeds.subset_of(s) && closed(ns, s) ==> s.contains(x)
}

/// How many references of `x` a traversal follows: its distinct
/// references where `distinct`, every listed one otherwise.
pub open spec fn edge_count(ns: Seq<NodeView>, x: Seq<u8>, distinct: bool) -> nat {
    match lookup(ns, x) {
        Some(Some(refs)) => if distinct {
            refs.to_set().len()
        } else {
            refs.len()
        },
        _ => 0,
    }
}

/// The references followed when visiting each member of `s` once.
pub open spec fn edge_total(ns: Seq<NodeView>, s: Seq<Seq<u8>>, distinct: bool) -> nat
    decreases s.len(),
{
    if s.len() == 0 {
        0
    } else {
        edge_total(ns, s.drop_last(), distinct) + edge_count(ns, s.last(), distinct)
    }
}

proof fn lemma_edge_total_remove(ns: Seq<NodeView>, v: Seq<Seq<u8>>, i: int, distinct: bool)
    requires
        0 <= i < v.len(),
    ensures
        edge_total(ns, v, distinct) == edge_total(ns, v.remove(i), distinct) + edge_count(ns, v[i], distinct),
    decreases v.len(),
{
    if i == v.len() - 1 {
        assert(v.remove(i) =~= v.drop_last());
    } else {
        lemma_edge_total_remove(ns, v.drop_last(), i, distinct);
        assert(v.remove(i).drop_last() =~= v.drop_last().remove(i));
        assert(v.remove(i).last() == v.last());
    }
}

/// Visiting fewer distinct nodes follows no more references: the
/// references of a duplicate-free list inside another duplicate-free list
/// number at most the other's.
pub proof fn lemma_edge_total_subset(ns: Seq<NodeView>, s: Seq<Seq<u8>>, v: Seq<Seq<u8>>, distinct: bool)
    requires
        s.no_duplicates(),
        v.no_duplicates(),
        forall|i: int| 0 <= i < s.len() ==> v.contains(#[trigger] s[i]),
    ensures
        edge_total(ns, s, distinct) <= edge_total(ns, v, distinct),
    decreases s.len(),
{
    if s.len() > 0 {
        let x = s.last();
        assert(v.contains(s[s.len() - 1]));
        let i = choose|i: int| 0 <= i < v.len() && v[i] == x;
        lemma_edge_total_remove(ns, v, i, distinct);
        let v2 = v.remove(i);
        let d = s.drop_last();
        assert(v2.no_duplicates()) by {
            assert forall|a: int, b: int| 0 <= a < b < v2.len() implies v2[a] != v2[b] by {
                let a2 = if a < i { a } else { a + 1 };
                let b2 = if b < i { b } else { b + 1 };
                assert(v2[a] == v[a2]);
                assert(v2[b] == v[b2]);
            }
        }
        assert forall|k: int| 0 <= k < d.len() implies v2.contains(#[trigger] d[k]) by {
            let y = d[k];
            assert(y == s[k]);
            assert(y != x) by {
                assert(s[k] != s[s.len() - 1]);
            }
            assert(v.contains(s[k]));
            let m = choose|m: int| 0 <= m < v.len() && v[m] == y;
            assert(m != i);
            if m < i {
                assert(v2[m] == y);
            } else {
                assert(v2[m - 1] == y);
            }
        }
        assert(d.no_duplicates()) by {
            assert forall|a: int, b: int| 0 <= a < b < d.len() implies d[a] != d[b] by {
                assert(d[a] == s[a] && d[b] == s[b]);
            }
        }
        lemma_edge_total_subset(ns, d, v2, distinct);
    }
}

/// Why a closure could not be computed.
#[derive(Clone, Copy, Debug, PartialEq, Eq, Structural)]
pub enum ClosureFault {
    /// A reachable identity has no node.
    Missing,
    /// A reachable node's reference shape is malformed.
    Malformed,
    /// The references followed passed the edge budget.
    TooManyEdges,
}

pub(crate) fn lookup_node(nodes: &Vec<GraphNode>, x: &[u8; 32]) -> (r: Option<usize>)
    ensures
        match lookup(node_views(nodes@), x@) {
            None => r is None,
            Some(refs) => r is Some && r->0 < nodes@.len() && node_views(nodes@)[r->0 as int].1
                == refs,
        },
{
    let ghost ns = node_views(nodes@);
    let mut i: usize = 0;
    proof {
        assert(ns.skip(0) =~= ns);
    }
    while i < nodes.len()
        invariant
            i <= nodes@.len(),
            ns == node_views(nodes@),
            lookup(ns, x@) == lookup(ns.skip(i as int), x@),
        decreases nodes.len() - i,
    {
        proof {
            let rest = ns.skip(i as int);
            assert(rest[0] == nodes@[i as int]@);
            assert(rest.drop_first() =~= ns.skip(i + 1));
        }
        if bytes_equal(nodes[i].id.as_slice(), x.as_slice()) {
            return Some(i);
        }
        i = i + 1;
    }
    None
}

pub(crate) fn contains_id(ids: &Vec<[u8; 32]>, x: &[u8; 32]) -> (r: bool)
    ensures
        r == digests_view(ids@).contains(x@),
{
    let mut k: usize = 0;
    while k < ids.len()
        invariant
            k <= ids@.len(),
            forall|m: int| 0 <= m < k ==> ids@[m]@ != x@,
        decreases ids.len() - k,
    {
        if bytes_equal(ids[k].as_slice(), x.as_slice()) {
            assert(digests_view(ids@)[k as int] == x@);
            return true;
        }
        k = k + 1;
    }
    proof {
        if digests_view(ids@).contains(x@) {
            let m = choose|m: int| 0 <= m < digests_view(ids@).len() && digests_view(ids@)[m] == x@;
            assert(ids@[m]@ == x@);
        }
    }
    false
}

fn distinct_ids(ids: &Vec<[u8; 32]>) -> (r: Vec<[u8; 32]>)
    ensures
        forall|y: Seq<u8>| digests_view(r@).contains(y) <==> digests_view(ids@).contains(y),
        digests_view(r@).no_duplicates(),
{
    let mut out: Vec<[u8; 32]> = Vec::new();
    let mut k: usize = 0;
    while k < ids.len()
        invariant
            k <= ids@.len(),
            forall|y: Seq<u8>| digests_view(out@).contains(y) <==> digests_view(ids@).take(k as int).contains(y),
            digests_view(out@).no_duplicates(),
        decreases ids.len() - k,
    {
        let ghost before = digests_view(out@);
        let present = contains_id(&out, &ids[k]);
        if !present {
            out.push(ids[k]);
        }
        proof {
            let t1 = digests_view(ids@).take(k + 1);
            let t0 = digests_view(ids@).take(k as int);
            assert(t1 =~= t0.push(ids@[k as int]@));
            if !present {
                assert(digests_view(out@) =~= before.push(ids@[k as int]@));
            }
            let e = ids@[k as int]@;
            assert(t1[k as int] == e);
            assert forall|y: Seq<u8>| digests_view(out@).contains(y) implies t1.contains(y) by {
                if before.contains(y) {
                    assert(t0.contains(y));
                    let m = choose|m: int| 0 <= m < t0.len() && t0[m] == y;
                    assert(t1[m] == y);
                } else {
                    let m = choose|m: int| 0 <= m < digests_view(out@).len() && digests_view(out@)[m] == y;
                    if m < before.len() {
                        assert(before[m] == y);
                    }
                    assert(y == e);
                }
            }
            assert forall|y: Seq<u8>| t1.contains(y) implies digests_view(out@).contains(y) by {
                let m = choose|m: int| 0 <= m < t1.len() && t1[m] == y;
                if m < k {
                    assert(t0[m] == y);
                    assert(t0.contains(y));
                    assert(before.contains(y));
                    let q = choose|q: int| 0 <= q < before.len() && before[q] == y;
                    assert(digests_view(out@)[q] == y);
                } else {
                    assert(y == e);
                    if present {
                        assert(before.contains(e));
                    } else {
                        assert(digests_view(out@)[before.len() as int] == e);
                    }
                }
            }
        }
        k = k + 1;
    }
    assert(digests_view(ids@).take(k as int) =~= digests_view(ids@));
    out
}

/// Every element of `work` lies in every closed set containing the seeds.
pub open spec fn all_in_closure(ns: Seq<NodeView>, seeds: Set<Seq<u8>>, work: Seq<Seq<u8>>) -> bool {
    forall|i: int| 0 <= i < work.len() ==> in_closure(ns, seeds, #[trigger] work[i])
}

proof fn lemma_successor_in_closure(ns: Seq<NodeView>, seeds: Set<Seq<u8>>, x: Seq<u8>, y: Seq<u8>)
    requires
        in_closure(ns, seeds, x),
        successor(ns, x, y),
    ensures
        in_closure(ns, seeds, y),
{
    assert forall|s: Set<Seq<u8>>| #![trigger closed(ns, s)] seeds.subset_of(s) && closed(ns, s) implies s.contains(y) by {
        assert(s.contains(x));
    }
}

/// The traversal state: `work` holds every identity queued so far, the
/// first `head` of them processed; `visited` holds each processed identity
/// once.
spec fn traversal_inv(
    ns: Seq<NodeView>,
    seeds: Seq<Seq<u8>>,
    work: Seq<Seq<u8>>,
    visited: Seq<Seq<u8>>,
    head: int,
) -> bool {
    &&& 0 <= head <= work.len()
    &&& seeds.len() <= work.len()
    &&& work.take(seeds.len() as int) == seeds
    &&& forall|i: int| 0 <= i < head ==> visited.contains(#[trigger] work[i])
    &&& forall|v: Seq<u8>|
        #![trigger visited.contains(v)]
        visited.contains(v) ==> work.take(head).contains(v) && (lookup(ns, v) matches Some(
            Some(refs),
        ) && forall|y: Seq<u8>| refs.contains(y) ==> work.contains(y))
    &&& all_in_closure(ns, seeds.to_set(), work)
    &&& visited.no_duplicates()
}

proof fn lemma_skip_visited(
    ns: Seq<NodeView>,
    seeds: Seq<Seq<u8>>,
    work: Seq<Seq<u8>>,
    visited: Seq<Seq<u8>>,
    head: int,
)
    requires
        traversal_inv(ns, seeds, work, visited, head),
        head < work.len(),
        visited.contains(work[head]),
    ensures
        traversal_inv(ns, seeds, work, visited, head + 1),
{
    assert forall|v: Seq<u8>| #![trigger visited.contains(v)] visited.contains(v) implies work.take(head + 1).contains(v) by {
        let t0 = work.take(head);
        assert(t0.contains(v));
        let m = choose|m: int| 0 <= m < t0.len() && t0[m] == v;
        assert(work.take(head + 1)[m] == v);
    }
}

proof fn lemma_visit(
    ns: Seq<NodeView>,
    seeds: Seq<Seq<u8>>,
    work: Seq<Seq<u8>>,
    visited: Seq<Seq<u8>>,
    head: int,
    refs: Seq<Seq<u8>>,
    original: Seq<Seq<u8>>,
)
    requires
        traversal_inv(ns, seeds, work, visited, head),
        head < work.len(),
        !visited.contains(work[head]),
        lookup(ns, work[head]) == Some(Some(original)),
        forall|y: Seq<u8>| refs.contains(y) <==> original.contains(y),
    ensures
        traversal_inv(ns, seeds, work + refs, visited.push(work[head]), head + 1),
{
    let x = work[head];
    let w2 = work + refs;
    let v2 = visited.push(x);
    let seed_set = seeds.to_set();
    assert(w2.take(seeds.len() as int) =~= work.take(seeds.len() as int));
    assert forall|i: int| 0 <= i < head + 1 implies v2.contains(#[trigger] w2[i]) by {
        if i < head {
            assert(w2[i] == work[i]);
            assert(visited.contains(work[i]));
            let m = choose|m: int| 0 <= m < visited.len() && visited[m] == work[i];
            assert(v2[m] == work[i]);
        } else {
            assert(w2[i] == x);
            assert(v2[visited.len() as int] == x);
        }
    }
    assert forall|v: Seq<u8>| #![trigger v2.contains(v)] v2.contains(v) implies w2.take(head + 1).contains(v)
        && (lookup(ns, v) matches Some(Some(rs)) && forall|y: Seq<u8>| rs.contains(y) ==> w2.contains(y)) by {
        let m = choose|m: int| 0 <= m < v2.len() && v2[m] == v;
        if m < visited.len() {
            assert(visited[m] == v);
            assert(visited.contains(v));
            let t0 = work.take(head);
            assert(t0.contains(v));
            let k = choose|k: int| 0 <= k < t0.len() && t0[k] == v;
            assert(w2.take(head + 1)[k] == v);
            if let Some(Some(rs)) = lookup(ns, v) {
                assert forall|y: Seq<u8>| rs.contains(y) implies w2.contains(y) by {
                    assert(work.contains(y));
                    let q = choose|q: int| 0 <= q < work.len() && work[q] == y;
                    assert(w2[q] == y);
                }
            }
        } else {
            assert(v == x);
            assert(w2.take(head + 1)[head] == x);
            assert forall|y: Seq<u8>| original.contains(y) implies w2.contains(y) by {
                assert(refs.contains(y));
                let q = choose|q: int| 0 <= q < refs.len() && refs[q] == y;
                assert(w2[work.len() + q] == y);
            }
        }
    }
    assert(in_closure(ns, seed_set, x));
    assert forall|i: int| 0 <= i < w2.len() implies in_closure(ns, seed_set, #[trigger] w2[i]) by {
        if i < work.len() {
            assert(w2[i] == work[i]);
        } else {
            let y = refs[i - work.len()];
            assert(w2[i] == y);
            assert(refs.contains(y));
            assert(original.contains(y));
            assert(successor(ns, x, y));
            lemma_successor_in_closure(ns, seed_set, x, y);
        }
    }
    assert(v2.no_duplicates()) by {
        assert forall|a: int, b: int| 0 <= a < b < v2.len() implies v2[a] != v2[b] by {
            if b == visited.len() {
                assert(visited[a] == v2[a]);
                if v2[a] == x {
                    assert(visited.contains(x));
                }
            }
        }
    }
}

proof fn lemma_visited_reached(
    ns: Seq<NodeView>,
    seeds: Seq<Seq<u8>>,
    work: Seq<Seq<u8>>,
    visited: Seq<Seq<u8>>,
    head: int,
)
    requires
        traversal_inv(ns, seeds, work, visited, head),
    ensures
        forall|i: int| 0 <= i < visited.len() ==> in_closure(ns, seeds.to_set(), #[trigger] visited[i])
            && has_refs(ns, visited[i]),
{
    assert forall|i: int| 0 <= i < visited.len() implies in_closure(ns, seeds.to_set(), #[trigger] visited[i])
        && has_refs(ns, visited[i]) by {
        let v = visited[i];
        assert(visited.contains(v));
        let t = work.take(head);
        assert(t.contains(v));
        let k = choose|k: int| 0 <= k < t.len() && t[k] == v;
        assert(work[k] == v);
    }
}

proof fn lemma_visit_order(visited: Seq<Seq<u8>>, x: Seq<u8>)
    requires
        visited.no_duplicates(),
        !visited.contains(x),
    ensures
        visited.push(x).no_duplicates(),
{
    let v2 = visited.push(x);
    assert forall|a: int, b: int| 0 <= a < b < v2.len() implies v2[a] != v2[b] by {
        if b == visited.len() {
            assert(visited[a] == v2[a]);
            if v2[a] == x {
                assert(visited.contains(x));
            }
        }
    }
}

proof fn lemma_traversal_done(
    ns: Seq<NodeView>,
    seeds: Seq<Seq<u8>>,
    work: Seq<Seq<u8>>,
    visited: Seq<Seq<u8>>,
)
    requires
        traversal_inv(ns, seeds, work, visited, work.len() as int),
    ensures
        seeds.to_set().subset_of(visited.to_set()),
        closed(ns, visited.to_set()),
        forall|x: Seq<u8>| visited.to_set().contains(x) ==> in_closure(ns, seeds.to_set(), x),
        forall|x: Seq<u8>| visited.to_set().contains(x) ==> has_refs(ns, x),
{
    let head = work.len() as int;
    assert forall|x: Seq<u8>| seeds.to_set().contains(x) implies visited.to_set().contains(x) by {
        let i = choose|i: int| 0 <= i < seeds.len() && seeds[i] == x;
        assert(work.take(seeds.len() as int)[i] == x);
        assert(work[i] == x);
        assert(visited.contains(work[i]));
    }
    assert forall|x: Seq<u8>, y: Seq<u8>| #[trigger] successor(ns, x, y) && visited.to_set().contains(x) implies visited.to_set().contains(y) by {
        assert(visited.contains(x));
        assert(work.contains(y));
        let i = choose|i: int| 0 <= i < work.len() && work[i] == y;
        assert(visited.contains(work[i]));
    }
    assert forall|x: Seq<u8>| visited.to_set().contains(x) implies in_closure(ns, seeds.to_set(), x) by {
        assert(visited.contains(x));
        let t = work.take(head);
        assert(t.contains(x));
        let i = choose|i: int| 0 <= i < t.len() && t[i] == x;
        assert(work[i] == x);
    }
    assert forall|x: Seq<u8>| visited.to_set().contains(x) implies has_refs(ns, x) by {
        assert(visited.contains(x));
    }
}

pub(crate) fn copy_ids(ids: &Vec<[u8; 32]>) -> (r: Vec<[u8; 32]>)
    ensures
        r@ == ids@,
{
    let mut out: Vec<[u8; 32]> = Vec::new();
    let mut k: usize = 0;
    while k < ids.len()
        invariant
            k <= ids@.len(),
            out@ == ids@.take(k as int),
        decreases ids.len() - k,
    {
        out.push(ids[k]);
        assert(out@ =~= ids@.take(k + 1));
        k = k + 1;
    }
    assert(out@ =~= ids@);
    out
}

/// Computes the identities reachable from `seeds` by following references,
/// visiting each identity once. Fails when a reachable identity has no
/// node, when a reachable node is malformed, or when more than `max_edges`
/// references would be followed (counting each visited node's references
/// once each where `distinct`, as listed otherwise).
#[verifier::rlimit(60)]
pub fn reference_closure(
    nodes: &Vec<GraphNode>,
    seeds: &Vec<[u8; 32]>,
    max_edges: usize,
    distinct: bool,
) -> (r:
    Result<Vec<[u8; 32]>, ClosureFault>)
    ensures
        ({
            let ns = node_views(nodes@);
            let seed_set = digests_view(seeds@).to_set();
            match r {
                Ok(v) => {
                    let rs = digests_view(v@).to_set();
                    &&& seed_set.subset_of(rs)
                    &&& closed(ns, rs)
                    &&& forall|x: Seq<u8>| rs.contains(x) ==> in_closure(ns, seed_set, x)
                    &&& forall|x: Seq<u8>| rs.contains(x) ==> has_refs(ns, x)
                    &&& digests_view(v@).no_duplicates()
                    &&& edge_total(ns, digests_view(v@), distinct) <= max_edges
                },
                Err(ClosureFault::Missing) => exists|x: Seq<u8>|
                    in_closure(ns, seed_set, x) && lookup(ns, x) is None,
                Err(ClosureFault::Malformed) => exists|x: Seq<u8>|
                    in_closure(ns, seed_set, x) && lookup(ns, x) == Some(None::<Seq<Seq<u8>>>),
                Err(ClosureFault::TooManyEdges) => exists|s: Seq<Seq<u8>>|
                    {
                        &&& s.no_duplicates()
                        &&& forall|i: int| 0 <= i < s.len() ==> in_closure(ns, seed_set, #[trigger] s[i])
                            && has_refs(ns, s[i])
                        &&& edge_total(ns, s, distinct) > max_edges
                    },
            }
        }),
{
    let ghost ns = node_views(nodes@);
    let ghost sv = digests_view(seeds@);
    let mut work: Vec<[u8; 32]> = Vec::new();
    let mut k: usize = 0;
    while k < seeds.len()
        invariant
            k <= seeds@.len(),
            work@ == seeds@.take(k as int),
        decreases seeds.len() - k,
    {
        work.push(seeds[k]);
        assert(work@ =~= seeds@.take(k + 1));
        k = k + 1;
    }
    assert(work@ =~= seeds@);
    let mut visited: Vec<[u8; 32]> = Vec::new();
    let mut head: usize = 0;
    let mut edges: usize = 0;
    proof {
        let wv = digests_view(work@);
        assert(wv =~= sv);
        assert(wv.take(sv.len() as int) =~= sv);
        assert forall|i: int| 0 <= i < wv.len() implies in_closure(ns, sv.to_set(), #[trigger] wv[i]) by {
            assert forall|s: Set<Seq<u8>>| #![trigger closed(ns, s)] sv.to_set().subset_of(s) && closed(ns, s) implies s.contains(wv[i]) by {
                assert(sv.to_set().contains(sv[i]));
            }
        }
        assert(digests_view(visited@) =~= Seq::<Seq<u8>>::empty());
    }
    while head < work.len()
        invariant
            ns == node_views(nodes@),
            sv == digests_view(seeds@),
            edges <= max_edges,
            work@.len() == seeds@.len() + edges,
            traversal_inv(ns, sv, digests_view(work@), digests_view(visited@), head as int),
            edges == edge_total(ns, digests_view(visited@), distinct),
        decreases seeds@.len() + max_edges - head,
    {
        let x = work[head];
        let ghost wv = digests_view(work@);
        let ghost vv = digests_view(visited@);
        assert(wv[head as int] == x@);
        if contains_id(&visited, &x) {
            proof {
                lemma_skip_visited(ns, sv, wv, vv, head as int);
            }
            head = head + 1;
            continue;
        }
        assert(in_closure(ns, sv.to_set(), x@));
        let index = match lookup_node(nodes, &x) {
            Some(i) => i,
            None => {
                return Err(ClosureFault::Missing);
            },
        };
        assert(ns[index as int] == nodes@[index as int]@);
        let refs = match &nodes[index].references {
            Some(refs) => if distinct {
                distinct_ids(refs)
            } else {
                copy_ids(refs)
            },
            None => {
                return Err(ClosureFault::Malformed);
            },
        };
        let ghost original = ns[index as int].1->0;
        let ghost rv = digests_view(refs@);
        proof {
            if distinct {
                rv.unique_seq_to_set();
                assert(rv.to_set() =~= original.to_set());
            } else {
                assert(rv =~= original);
            }
            assert(edge_count(ns, x@, distinct) == refs@.len());
            assert(vv.push(x@).drop_last() =~= vv);
        }
        if refs.len() > max_edges - edges {
            proof {
                lemma_visited_reached(ns, sv, wv, vv, head as int);
                lemma_visit_order(vv, x@);
                let s = vv.push(x@);
                assert(forall|i: int| 0 <= i < s.len() ==> in_closure(ns, sv.to_set(), #[trigger] s[i])
                    && has_refs(ns, s[i]));
            }
            return Err(ClosureFault::TooManyEdges);
        }
        let mut j: usize = 0;
        while j < refs.len()
            invariant
                j <= refs@.len(),
                rv == digests_view(refs@),
                digests_view(work@) == wv + rv.take(j as int),
                forall|y: Seq<u8>| rv.contains(y) <==> original.contains(y),
                ns == node_views(nodes@),
                sv == digests_view(seeds@),
                lookup(ns, x@) == Some(Some(original)),
                in_closure(ns, sv.to_set(), x@),
            decreases refs.len() - j,
        {
            let y = refs[j];
            proof {
                assert(rv[j as int] == y@);
                assert(rv.contains(y@));
                assert(successor(ns, x@, y@));
                lemma_successor_in_closure(ns, sv.to_set(), x@, y@);
            }
            match lookup_node(nodes, &y) {
                Some(_) => {},
                None => {
                    assert(in_closure(ns, sv.to_set(), y@) && lookup(ns, y@) is None);
                    return Err(ClosureFault::Missing);
                },
            }
            let ghost prev = digests_view(work@);
            work.push(y);
            proof {
                assert(digests_view(work@) =~= prev.push(y@));
                assert(rv.take(j + 1) =~= rv.take(j as int).push(y@));
                assert(digests_view(work@) =~= wv + rv.take(j + 1));
            }
            j = j + 1;
        }
        assert(rv.take(j as int) =~= rv);
        visited.push(x);
        proof {
            assert(digests_view(visited@) =~= vv.push(x@));
            lemma_visit(ns, sv, wv, vv, head as int, rv, original);
        }
        edges = edges + refs.len();
        head = head + 1;
    }
    proof {
        lemma_traversal_done(ns, sv, digests_view(work@), digests_view(visited@));
    }
    Ok(visited)
}

} // verus!
