use sley_repo::entity_read::{revision_view, RevisionRecord};

fn epoch() -> [u8; 32] {
    [0x5e; 32]
}

#[test]
fn adapter_epoch_comes_from_the_verified_revision() {
    let revision = RevisionRecord {
        workspace_id: [1; 32],
        root: [2; 32],
        schema_epoch_id: epoch(),
        entity_bindings: vec![([3; 32], [4; 32])],
        tombstones: vec![[5; 32]],
    };
    let view = revision_view(&revision);
    assert_eq!(view.epoch, epoch());
    assert_eq!(view.workspace, [1; 32]);
    assert_eq!(view.root, [2; 32]);
    assert_eq!(view.bindings, vec![([3; 32], [4; 32])]);
    assert_eq!(view.tombstones, vec![[5; 32]]);
}
