use sley_repo::compare::ChangeClass;
use sley_repo::merge::{
    anchor_conflicts, conflict_kind, find_common_ancestor, judge_identity, verify_merge_ancestor,
    AncestryEntry, ConflictReason, IdentityDecision, MergeErrorCode, SideChange, Work,
    MAX_ANCESTRY_NODES, MAX_MERGE_WORK,
};

fn entry(byte: u8, parent: Option<u8>) -> AncestryEntry {
    AncestryEntry {
        transaction_id: [byte; 32],
        state_root: [byte.wrapping_add(100); 32],
        parent_transaction_ids: parent.map(|p| [p; 32]).into_iter().collect(),
    }
}

#[test]
fn common_ancestor_is_the_first_shared_entry() {
    let ours = vec![
        entry(5, Some(4)),
        entry(4, Some(2)),
        entry(2, Some(1)),
        entry(1, None),
    ];
    let theirs = vec![
        entry(7, Some(6)),
        entry(6, Some(2)),
        entry(2, Some(1)),
        entry(1, None),
    ];
    assert_eq!(
        find_common_ancestor(&ours, &theirs).unwrap().transaction_id,
        [2; 32]
    );
    let unrelated = vec![entry(9, None)];
    assert_eq!(
        find_common_ancestor(&ours, &unrelated).unwrap_err().code(),
        Some(MergeErrorCode::NoCommonAncestor)
    );
}

#[test]
fn oversized_ancestries_fail_before_search() {
    let big = vec![entry(1, None); MAX_ANCESTRY_NODES + 1];
    assert_eq!(
        find_common_ancestor(&big, &big).unwrap_err().code(),
        Some(MergeErrorCode::ResourceLimit)
    );
}

#[test]
fn verified_ancestor_must_be_the_common_ancestor() {
    let ours = vec![entry(5, Some(2)), entry(2, None)];
    let theirs = vec![entry(6, Some(2)), entry(2, None)];
    let common = verify_merge_ancestor(Some([2; 32]), Some([5; 32]), Some([6; 32]), &ours, &theirs)
        .unwrap();
    assert_eq!(common.state_root, [102; 32]);
    assert_eq!(
        verify_merge_ancestor(Some([5; 32]), Some([5; 32]), Some([6; 32]), &ours, &theirs)
            .unwrap_err()
            .code(),
        Some(MergeErrorCode::AncestorMismatch)
    );
    assert_eq!(
        verify_merge_ancestor(Some([2; 32]), Some([6; 32]), Some([6; 32]), &ours, &theirs)
            .unwrap_err()
            .code(),
        Some(MergeErrorCode::InternalInvariant)
    );
}

fn side(change: ChangeClass, object: Option<u8>) -> Option<SideChange> {
    Some(SideChange {
        change,
        target_object: object.map(|b| [b; 32]),
    })
}

#[test]
fn identity_judgment_covers_every_pairing() {
    assert_eq!(
        judge_identity(side(ChangeClass::Changed, Some(1)), None).unwrap(),
        IdentityDecision::Bind(Some([1; 32]))
    );
    assert_eq!(
        judge_identity(None, side(ChangeClass::Removed, None)).unwrap(),
        IdentityDecision::Bind(None)
    );
    assert_eq!(
        judge_identity(side(ChangeClass::Changed, Some(3)), side(ChangeClass::Changed, Some(3)))
            .unwrap(),
        IdentityDecision::Bind(Some([3; 32]))
    );
    assert_eq!(
        judge_identity(side(ChangeClass::Removed, None), side(ChangeClass::Changed, Some(3)))
            .unwrap(),
        IdentityDecision::Conflict(ConflictReason::DeleteEdit)
    );
    assert_eq!(
        judge_identity(side(ChangeClass::Added, Some(1)), side(ChangeClass::Added, Some(2)))
            .unwrap(),
        IdentityDecision::Conflict(ConflictReason::AddAdd)
    );
    assert_eq!(
        judge_identity(side(ChangeClass::Retyped, Some(1)), side(ChangeClass::Changed, Some(2)))
            .unwrap(),
        IdentityDecision::Conflict(ConflictReason::KindEdit)
    );
    assert_eq!(
        judge_identity(
            side(ChangeClass::MetadataOnly, Some(1)),
            side(ChangeClass::Changed, Some(2))
        )
        .unwrap(),
        IdentityDecision::BindOverridingMetadata(Some([2; 32]))
    );
    assert_eq!(
        judge_identity(
            side(ChangeClass::MetadataOnly, Some(1)),
            side(ChangeClass::MetadataOnly, Some(2))
        )
        .unwrap(),
        IdentityDecision::Conflict(ConflictReason::MetadataEdit)
    );
    assert_eq!(
        judge_identity(side(ChangeClass::Changed, Some(1)), side(ChangeClass::Changed, Some(2)))
            .unwrap(),
        IdentityDecision::Compose
    );
    assert_eq!(
        judge_identity(None, None).unwrap_err().code(),
        Some(MergeErrorCode::InternalInvariant)
    );
}

#[test]
fn identity_judgment_is_the_same_under_swap() {
    let changes = [
        side(ChangeClass::Added, Some(1)),
        side(ChangeClass::Removed, None),
        side(ChangeClass::Changed, Some(2)),
        side(ChangeClass::Retyped, Some(3)),
        side(ChangeClass::MetadataOnly, Some(4)),
        None,
    ];
    for a in changes {
        for b in changes {
            assert_eq!(judge_identity(a, b), judge_identity(b, a));
        }
    }
}

#[test]
fn conflict_kind_prefers_the_ancestor_then_the_lesser_side() {
    assert_eq!(conflict_kind(Some(7), Some(3), Some(4)), 7);
    assert_eq!(conflict_kind(None, Some(9), Some(4)), 4);
    assert_eq!(conflict_kind(None, Some(4), Some(9)), 4);
    assert_eq!(conflict_kind(None, Some(5), None), 5);
    assert_eq!(conflict_kind(None, None, None), 0);
}

#[test]
fn anchor_conflicts_name_the_moved_class() {
    let base = [1u8; 32];
    let moved = [2u8; 32];
    let none = anchor_conflicts((&base, &base, &base), (&base, &base, &base), (&base, &base, &base));
    assert!(none.is_empty());
    let contract_only =
        anchor_conflicts((&base, &base, &base), (&moved, &base, &base), (&base, &base, &base));
    assert_eq!(contract_only.len(), 1);
    assert_eq!(contract_only[0].reason, ConflictReason::RootAnchor);
    assert_eq!(contract_only[0].detail, 1);
    let both =
        anchor_conflicts((&base, &base, &base), (&moved, &base, &base), (&base, &moved, &moved));
    assert_eq!(both.len(), 2);
    assert_eq!(both[0].detail, 3);
    assert_eq!(both[1].reason, ConflictReason::PolicyRoot);
    assert_eq!(both[1].entity_id, [0; 32]);
}

#[test]
fn work_budget_refuses_overdraft() {
    let mut work = Work::new();
    assert!(work.charge(MAX_MERGE_WORK).is_ok());
    assert_eq!(
        work.charge(1).unwrap_err().code(),
        Some(MergeErrorCode::ResourceLimit)
    );
}
