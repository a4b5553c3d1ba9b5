//! Closure checks of a repository pack: every root dependency is itself
//! included, the objects are exactly those the roots need, and the embedded
//! schema epochs are exactly the ones the pack is read under.

use vstd::prelude::*;

use crate::bytes::bytes_equal;
use crate::digest::digests_view;
use crate::pack::{PackEpochEntry, PackError, PackErrorCode, PackFault, PackObjectEntry};

verus! {

/// What the closure checks read of one accepted state root.
pub struct RootSummary {
    /// The root's own identity.
    pub root: [u8; 32],
    /// Roots this root depends on.
    pub dependency_roots: Vec<[u8; 32]>,
    /// The contract object.
    pub contract_root: [u8; 32],
    /// The test object.
    pub test_root: [u8; 32],
    /// The objects bound to the root's entities.
    pub entity_objects: Vec<[u8; 32]>,
}

/// A root summary as values: identity, dependencies, contract, test and
/// entity objects.
pub type RootView = (Seq<u8>, Seq<Seq<u8>>, Seq<u8>, Seq<u8>, Seq<Seq<u8>>);

impl View for RootSummary {
    type V = RootView;

    open spec fn view(&self) -> RootView {
        (
            self.root@,
            digests_view(self.dependency_roots@),
            self.contract_root@,
            self.test_root@,
            digests_view(self.entity_objects@),
        )
    }
}

/// The views of a sequence of root summaries.
pub open spec fn root_views(rs: Seq<RootSummary>) -> Seq<RootView> {
    rs.map_values(|r: RootSummary| r@)
}

/// `id` is the identity of one of the roots.
pub open spec fn is_root(rs: Seq<RootView>, id: Seq<u8>) -> bool {
    exists|i: int| 0 <= i < rs.len() && (#[trigger] rs[i]).0 == id
}

/// Every dependency of every root is one of the roots.
pub open spec fn dependencies_closed(rs: Seq<RootView>) -> bool {
    forall|i: int, j: int|
        0 <= i < rs.len() && 0 <= j < rs[i].1.len() ==> is_root(rs, #[trigger] rs[i].1[j])
}

/// `id` is contained in `ids`.
pub open spec fn has_id(ids: Seq<Seq<u8>>, id: Seq<u8>) -> bool {
    exists|k: int| 0 <= k < ids.len() && ids[k] == id
}

fn contains_id(ids: &Vec<[u8; 32]>, id: &[u8; 32]) -> (r: bool)
    ensures
        r == has_id(digests_view(ids@), id@),
{
    let ghost v = digests_view(ids@);
    let mut k: usize = 0;
    while k < ids.len()
        invariant
            k <= ids.len(),
            v == digests_view(ids@),
            forall|m: int| 0 <= m < k ==> v[m] != id@,
        decreases ids.len() - k,
    {
        if bytes_equal(ids[k].as_slice(), id.as_slice()) {
            assert(v[k as int] == id@);
            return true;
        }
        k = k + 1;
    }
    false
}

fn is_root_id(roots: &Vec<RootSummary>, id: &[u8; 32]) -> (r: bool)
    ensures
        r == is_root(root_views(roots@), id@),
{
    let ghost rs = root_views(roots@);
    let mut i: usize = 0;
    while i < roots.len()
        invariant
            i <= roots.len(),
            rs == root_views(roots@),
            forall|m: int| 0 <= m < i ==> rs[m].0 != id@,
        decreases roots.len() - i,
    {
        if bytes_equal(roots[i].root.as_slice(), id.as_slice()) {
            assert(rs[i as int].0 == id@);
            return true;
        }
        i = i + 1;
    }
    false
}

/// Checks that every root dependency is one of the roots.
pub fn validate_dependency_closure(roots: &Vec<RootSummary>) -> (r: Result<(), PackError>)
    ensures
        dependencies_closed(root_views(roots@)) ==> r is Ok,
        !dependencies_closed(root_views(roots@)) ==> r is Err && r->Err_0@ == PackFault::Pack(
            PackErrorCode::RootInvalid,
        ),
{
    let ghost rs = root_views(roots@);
    let mut i: usize = 0;
    while i < roots.len()
        invariant
            i <= roots.len(),
            rs == root_views(roots@),
            forall|a: int, b: int|
                0 <= a < i && 0 <= b < rs[a].1.len() ==> is_root(rs, #[trigger] rs[a].1[b]),
        decreases roots.len() - i,
    {
        let deps = &roots[i].dependency_roots;
        let mut j: usize = 0;
        while j < deps.len()
            invariant
                i < roots.len(),
                j <= deps.len(),
                rs == root_views(roots@),
                deps == &roots@[i as int].dependency_roots,
                rs[i as int].1 == digests_view(deps@),
                forall|a: int, b: int|
                    0 <= a < i && 0 <= b < rs[a].1.len() ==> is_root(rs, #[trigger] rs[a].1[b]),
                forall|b: int| 0 <= b < j ==> is_root(rs, #[trigger] rs[i as int].1[b]),
            decreases deps.len() - j,
        {
            if !is_root_id(roots, &deps[j]) {
                assert(rs[i as int].1[j as int] == deps@[j as int]@);
                return Err(PackError::pack(PackErrorCode::RootInvalid));
            }
            assert(rs[i as int].1[j as int] == deps@[j as int]@);
            j = j + 1;
        }
        i = i + 1;
    }
    Ok(())
}

/// `id` is an object some root needs: its contract, its test or an entity
/// object.
pub open spec fn is_required(rs: Seq<RootView>, id: Seq<u8>) -> bool {
    exists|i: int|
        0 <= i < rs.len() && ((#[trigger] rs[i]).2 == id || rs[i].3 == id || has_id(rs[i].4, id))
}

fn is_required_id(roots: &Vec<RootSummary>, id: &[u8; 32]) -> (r: bool)
    ensures
        r == is_required(root_views(roots@), id@),
{
    let ghost rs = root_views(roots@);
    let mut i: usize = 0;
    while i < roots.len()
        invariant
            i <= roots.len(),
            rs == root_views(roots@),
            forall|m: int|
                0 <= m < i ==> !((#[trigger] rs[m]).2 == id@ || rs[m].3 == id@ || has_id(
                    rs[m].4,
                    id@,
                )),
        decreases roots.len() - i,
    {
        let root = &roots[i];
        assert(rs[i as int] == root@);
        if bytes_equal(root.contract_root.as_slice(), id.as_slice()) || bytes_equal(
            root.test_root.as_slice(),
            id.as_slice(),
        ) || contains_id(&root.entity_objects, id) {
            return true;
        }
        i = i + 1;
    }
    false
}

/// The identities of the object entries.
pub open spec fn object_ids(objects: Seq<PackObjectEntry>) -> Seq<Seq<u8>> {
    objects.map_values(|o: PackObjectEntry| o.object_id@)
}

/// Some object a root needs is not among the objects.
pub open spec fn object_missing(rs: Seq<RootView>, ids: Seq<Seq<u8>>) -> bool {
    exists|id: Seq<u8>| is_required(rs, id) && !has_id(ids, id)
}

/// Some object is not needed by any root.
pub open spec fn object_unexpected(rs: Seq<RootView>, ids: Seq<Seq<u8>>) -> bool {
    exists|k: int| 0 <= k < ids.len() && !is_required(rs, #[trigger] ids[k])
}

fn object_present(objects: &Vec<PackObjectEntry>, id: &[u8; 32]) -> (r: bool)
    ensures
        r == has_id(object_ids(objects@), id@),
{
    let ghost ids = object_ids(objects@);
    let mut k: usize = 0;
    while k < objects.len()
        invariant
            k <= objects.len(),
            ids == object_ids(objects@),
            forall|m: int| 0 <= m < k ==> ids[m] != id@,
        decreases objects.len() - k,
    {
        if bytes_equal(objects[k].object_id.as_slice(), id.as_slice()) {
            assert(ids[k as int] == id@);
            return true;
        }
        k = k + 1;
    }
    false
}

/// Checks that the objects are exactly those the roots need: a missing one
/// is reported before a surplus one.
pub fn validate_object_closure(roots: &Vec<RootSummary>, objects: &Vec<PackObjectEntry>) -> (r:
    Result<(), PackError>)
    ensures
        ({
            let rs = root_views(roots@);
            let ids = object_ids(objects@);
            &&& object_missing(rs, ids) ==> r is Err && r->Err_0@ == PackFault::Pack(
                PackErrorCode::ObjectMissing,
            )
            &&& !object_missing(rs, ids) && object_unexpected(rs, ids) ==> r is Err && r->Err_0@
                == PackFault::Pack(PackErrorCode::ObjectUnexpected)
            &&& !object_missing(rs, ids) && !object_unexpected(rs, ids) ==> r is Ok
        }),
{
    let ghost rs = root_views(roots@);
    let ghost ids = object_ids(objects@);
    let mut i: usize = 0;
    while i < roots.len()
        invariant
            i <= roots.len(),
            rs == root_views(roots@),
            ids == object_ids(objects@),
            forall|id: Seq<u8>|
                #![trigger has_id(ids, id)]
                (exists|m: int|
                    0 <= m < i && ((#[trigger] rs[m]).2 == id || rs[m].3 == id || has_id(
                        rs[m].4,
                        id,
                    ))) ==> has_id(ids, id),
        decreases roots.len() - i,
    {
        let root = &roots[i];
        assert(rs[i as int] == root@);
        if !object_present(objects, &root.contract_root) {
            assert(is_required(rs, root.contract_root@));
            return Err(PackError::pack(PackErrorCode::ObjectMissing));
        }
        if !object_present(objects, &root.test_root) {
            assert(is_required(rs, root.test_root@));
            return Err(PackError::pack(PackErrorCode::ObjectMissing));
        }
        let entities = &root.entity_objects;
        let mut j: usize = 0;
        while j < entities.len()
            invariant
                i < roots.len(),
                j <= entities.len(),
                rs == root_views(roots@),
                ids == object_ids(objects@),
                rs[i as int] == root@,
                entities == &root.entity_objects,
                forall|b: int| 0 <= b < j ==> has_id(ids, #[trigger] digests_view(entities@)[b]),
            decreases entities.len() - j,
        {
            if !object_present(objects, &entities[j]) {
                let ghost e = entities@[j as int]@;
                assert(digests_view(entities@)[j as int] == e);
                assert(has_id(rs[i as int].4, e));
                assert(is_required(rs, e));
                return Err(PackError::pack(PackErrorCode::ObjectMissing));
            }
            j = j + 1;
        }
        proof {
            assert forall|id: Seq<u8>|
                #![trigger has_id(ids, id)]
                (exists|m: int|
                    0 <= m < i + 1 && ((#[trigger] rs[m]).2 == id || rs[m].3 == id || has_id(
                        rs[m].4,
                        id,
                    ))) implies has_id(ids, id) by {
                let m = choose|m: int|
                    0 <= m < i + 1 && ((#[trigger] rs[m]).2 == id || rs[m].3 == id || has_id(
                        rs[m].4,
                        id,
                    ));
                if m == i && has_id(rs[m].4, id) {
                    let b = choose|b: int| 0 <= b < rs[m].4.len() && rs[m].4[b] == id;
                    assert(has_id(ids, digests_view(entities@)[b]));
                }
            }
        }
        i = i + 1;
    }
    assert(!object_missing(rs, ids));
    let mut k: usize = 0;
    while k < objects.len()
        invariant
            k <= objects.len(),
            rs == root_views(roots@),
            ids == object_ids(objects@),
            !object_missing(rs, ids),
            forall|m: int| 0 <= m < k ==> is_required(rs, #[trigger] ids[m]),
        decreases objects.len() - k,
    {
        if !is_required_id(roots, &objects[k].object_id) {
            assert(ids[k as int] == objects@[k as int].object_id@);
            return Err(PackError::pack(PackErrorCode::ObjectUnexpected));
        }
        assert(ids[k as int] == objects@[k as int].object_id@);
        k = k + 1;
    }
    Ok(())
}

/// The embedded schema epochs are exactly the envelope epoch and the root
/// epoch, each once, and each bootstrap preimage derives its declared id.
pub open spec fn epochs_valid(
    ids: Seq<Seq<u8>>,
    envelope_epoch: Seq<u8>,
    root_epoch: Seq<u8>,
    derived: Seq<Option<Seq<u8>>>,
) -> bool {
    &&& ids.len() == if envelope_epoch == root_epoch { 1int } else { 2int }
    &&& forall|k: int| 0 <= k < ids.len() ==> (#[trigger] ids[k] == envelope_epoch || ids[k]
        == root_epoch)
    &&& has_id(ids, envelope_epoch)
    &&& has_id(ids, root_epoch)
    &&& forall|k: int| 0 <= k < ids.len() ==> #[trigger] derived[k] == Some(ids[k])
}

/// The declared identities of the epoch entries.
pub open spec fn epoch_ids(epochs: Seq<PackEpochEntry>) -> Seq<Seq<u8>> {
    epochs.map_values(|e: PackEpochEntry| e.schema_epoch_id@)
}

/// The views of optional identities.
pub open spec fn optional_ids(ds: Seq<Option<[u8; 32]>>) -> Seq<Option<Seq<u8>>> {
    ds.map_values(
        |d: Option<[u8; 32]>|
            match d {
                Some(x) => Some(x@),
                None => None,
            },
    )
}

/// Checks the embedded schema epochs. `derived[k]` is the epoch identity
/// that the bootstrap preimage of entry `k` derives, or `None` where it
/// does not import.
pub fn validate_epochs(
    epochs: &Vec<PackEpochEntry>,
    envelope_epoch: &[u8; 32],
    root_epoch: &[u8; 32],
    derived: &Vec<Option<[u8; 32]>>,
) -> (r: Result<(), PackError>)
    requires
        derived@.len() == epochs@.len(),
    ensures
        epochs_valid(
            epoch_ids(epochs@),
            envelope_epoch@,
            root_epoch@,
            optional_ids(derived@),
        ) ==> r is Ok,
        !epochs_valid(epoch_ids(epochs@), envelope_epoch@, root_epoch@, optional_ids(derived@))
            ==> r is Err && r->Err_0@ == PackFault::Pack(PackErrorCode::SchemaUnsupported),
{
    let ghost ids = epoch_ids(epochs@);
    let ghost ds = optional_ids(derived@);
    let same = bytes_equal(envelope_epoch.as_slice(), root_epoch.as_slice());
    let expected_len: usize = if same { 1 } else { 2 };
    if epochs.len() != expected_len {
        return Err(PackError::pack(PackErrorCode::SchemaUnsupported));
    }
    let mut k: usize = 0;
    let mut seen_envelope = false;
    let mut seen_root = false;
    while k < epochs.len()
        invariant
            k <= epochs.len(),
            derived@.len() == epochs@.len(),
            ids == epoch_ids(epochs@),
            ds == optional_ids(derived@),
            forall|m: int| 0 <= m < k ==> (#[trigger] ids[m] == envelope_epoch@ || ids[m]
                == root_epoch@),
            forall|m: int| 0 <= m < k ==> #[trigger] ds[m] == Some(ids[m]),
            seen_envelope == has_id(ids.take(k as int), envelope_epoch@),
            seen_root == has_id(ids.take(k as int), root_epoch@),
        decreases epochs.len() - k,
    {
        let id = &epochs[k].schema_epoch_id;
        assert(ids[k as int] == id@);
        let is_envelope = bytes_equal(id.as_slice(), envelope_epoch.as_slice());
        let is_root = bytes_equal(id.as_slice(), root_epoch.as_slice());
        if !is_envelope && !is_root {
            return Err(PackError::pack(PackErrorCode::SchemaUnsupported));
        }
        let matches = match &derived[k] {
            Some(d) => bytes_equal(d.as_slice(), id.as_slice()),
            None => false,
        };
        if !matches {
            assert(ds[k as int] != Some(ids[k as int]));
            return Err(PackError::pack(PackErrorCode::SchemaUnsupported));
        }
        proof {
            let t = ids.take(k as int);
            let t1 = ids.take(k + 1);
            assert(t1 =~= t.push(id@));
            if has_id(t, envelope_epoch@) {
                let w = choose|w: int| 0 <= w < t.len() && t[w] == envelope_epoch@;
                assert(t1[w] == envelope_epoch@);
            }
            if has_id(t1, envelope_epoch@) && !is_envelope {
                let w = choose|w: int| 0 <= w < t1.len() && t1[w] == envelope_epoch@;
                assert(t[w] == envelope_epoch@);
            }
            if is_envelope {
                assert(t1[k as int] == envelope_epoch@);
            }
            if has_id(t, root_epoch@) {
                let w = choose|w: int| 0 <= w < t.len() && t[w] == root_epoch@;
                assert(t1[w] == root_epoch@);
            }
            if has_id(t1, root_epoch@) && !is_root {
                let w = choose|w: int| 0 <= w < t1.len() && t1[w] == root_epoch@;
                assert(t[w] == root_epoch@);
            }
            if is_root {
                assert(t1[k as int] == root_epoch@);
            }
        }
        seen_envelope = seen_envelope || is_envelope;
        seen_root = seen_root || is_root;
        k = k + 1;
    }
    assert(ids.take(k as int) =~= ids);
    if !seen_envelope || !seen_root {
        return Err(PackError::pack(PackErrorCode::SchemaUnsupported));
    }
    Ok(())
}

} // verus!
