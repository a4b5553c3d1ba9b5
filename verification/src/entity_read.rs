//! The entity-read adapter's view of a verified revision: the read checks
//! run against the workspace, root, schema epoch, bindings and tombstones
//! of the one revision the response is read from.

use vstd::prelude::*;

verus! {

/// What an entity read takes from a verified revision: its state-root
/// record's workspace, root, schema epoch and entity bindings, and the
/// entities the revision tombstoned.
pub struct RevisionRecord {
    /// Workspace of the state-root record.
    pub workspace_id: [u8; 32],
    /// The state root.
    pub root: [u8; 32],
    /// Schema epoch of the state-root record.
    pub schema_epoch_id: [u8; 32],
    /// Entity bindings of the record: identity and bound object.
    pub entity_bindings: Vec<([u8; 32], [u8; 32])>,
    /// Tombstoned entities.
    pub tombstones: Vec<[u8; 32]>,
}

/// The narrow revision view the entity-read checks run against.
pub struct EntityReadRevision {
    /// Workspace the read must belong to.
    pub workspace: [u8; 32],
    /// Root the read is answered from.
    pub root: [u8; 32],
    /// Schema epoch every read object must carry.
    pub epoch: [u8; 32],
    /// Entity bindings of the root.
    pub bindings: Vec<([u8; 32], [u8; 32])>,
    /// Tombstoned entities.
    pub tombstones: Vec<[u8; 32]>,
}

fn copy_bindings(bs: &Vec<([u8; 32], [u8; 32])>) -> (r: Vec<([u8; 32], [u8; 32])>)
    ensures
        r@ == bs@,
{
    let mut out: Vec<([u8; 32], [u8; 32])> = Vec::new();
    let mut k: usize = 0;
    while k < bs.len()
        invariant
            k <= bs@.len(),
            out@ == bs@.take(k as int),
        decreases bs.len() - k,
    {
        out.push(bs[k]);
        assert(out@ =~= bs@.take(k + 1));
        k = k + 1;
    }
    assert(out@ =~= bs@);
    out
}

/// Projects a verified revision onto the entity-read view: the workspace,
/// root and schema epoch are the revision record's, the bindings its
/// entity bindings, and the tombstones the revision's.
pub fn revision_view(revision: &RevisionRecord) -> (v: EntityReadRevision)
    ensures
        v.workspace == revision.workspace_id,
        v.root == revision.root,
        v.epoch == revision.schema_epoch_id,
        v.bindings@ == revision.entity_bindings@,
        v.tombstones@ == revision.tombstones@,
{
    EntityReadRevision {
        workspace: revision.workspace_id,
        root: revision.root,
        epoch: revision.schema_epoch_id,
        bindings: copy_bindings(&revision.entity_bindings),
        tombstones: crate::gc::copy_ids(&revision.tombstones),
    }
}

} // verus!
