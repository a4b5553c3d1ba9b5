use sley_repo::compare::{CompareError, CompareErrorCode};
use sley_repo::delta::SemanticDelta;
use sley_repo::merge::{MergeError, MergeErrorCode};
use sley_repo::merge_sides::{check_dependency_roots_kept, check_sides_agree, merge_deltas, merged_bindings};

fn id(byte: u8) -> [u8; 32] {
    [byte; 32]
}

fn delta(added: &[u8], removed: &[u8]) -> SemanticDelta {
    SemanticDelta {
        workspace_id: id(1),
        root_schema_epoch: id(2),
        base_root: id(3),
        target_root: id(4),
        entities: Vec::new(),
        fields: Vec::new(),
        bodies: Vec::new(),
        relations: Vec::new(),
        dependency_roots_added: added.iter().map(|b| id(*b)).collect(),
        dependency_roots_removed: removed.iter().map(|b| id(*b)).collect(),
        entry_points_added: Vec::new(),
        entry_points_removed: Vec::new(),
        collateral: Vec::new(),
    }
}

#[test]
fn sides_must_share_the_workspace_before_the_epoch() {
    assert_eq!(check_sides_agree(&id(1), &id(1), &id(1), &id(2), &id(2), &id(2)), Ok(()));
    assert_eq!(
        check_sides_agree(&id(1), &id(1), &id(9), &id(2), &id(8), &id(2)),
        Err(MergeError::Merge(MergeErrorCode::WorkspaceMismatch))
    );
    assert_eq!(
        check_sides_agree(&id(1), &id(1), &id(1), &id(2), &id(8), &id(2)),
        Err(MergeError::Merge(MergeErrorCode::EpochMismatch))
    );
}

#[test]
fn a_dependency_root_change_on_either_side_is_unsupported() {
    assert_eq!(check_dependency_roots_kept(&delta(&[], &[]), &delta(&[], &[])), Ok(()));
    assert_eq!(
        check_dependency_roots_kept(&delta(&[], &[]), &delta(&[], &[5])),
        Err(MergeError::Merge(MergeErrorCode::DependencyRootChangeUnsupported))
    );
    assert_eq!(
        check_dependency_roots_kept(&delta(&[6], &[]), &delta(&[], &[])),
        Err(MergeError::Merge(MergeErrorCode::DependencyRootChangeUnsupported))
    );
}

#[test]
fn the_merged_set_applies_bindings_then_composed_objects_over_the_ancestor() {
    // Ancestor binds 1, 2, 3; the judgment removes 2, takes a new object for
    // 3 and adds 4; 1 is composed.
    let base = vec![(id(3), id(33)), (id(1), id(11)), (id(2), id(12))];
    let judged = vec![(id(2), None), (id(3), Some(id(43))), (id(4), Some(id(44)))];
    let composed = vec![(id(1), id(51))];
    assert_eq!(
        merged_bindings(&base, &judged, &composed),
        vec![(id(1), id(51)), (id(3), id(43)), (id(4), id(44))]
    );
}

#[test]
fn a_failed_comparison_fails_the_merge_as_compare_failed() {
    let failure = CompareError::Compare(CompareErrorCode::WorkspaceMismatch);
    let err = merge_deltas(Err(failure), Ok(delta(&[], &[]))).unwrap_err();
    assert_eq!(err, MergeError::Compare(failure));
    assert_eq!(err.code(), Some(MergeErrorCode::CompareFailed));
    assert_eq!(err.symbol(), "MERGE_COMPARE_FAILED");
    assert_eq!(err.source_code(), Some("COMPARE_WORKSPACE_MISMATCH".to_string()));
    let err = merge_deltas(Ok(delta(&[], &[])), Err(failure)).unwrap_err();
    assert_eq!(err.code(), Some(MergeErrorCode::CompareFailed));
    assert_eq!(
        merge_deltas(Ok(delta(&[7], &[])), Ok(delta(&[], &[]))).unwrap_err(),
        MergeError::Merge(MergeErrorCode::DependencyRootChangeUnsupported)
    );
    assert!(merge_deltas(Ok(delta(&[], &[])), Ok(delta(&[], &[]))).is_ok());
    let extraction = MergeError::Extraction("IMPACT_ROOT_INCOMPLETE".to_string());
    assert_eq!(extraction.code(), Some(MergeErrorCode::CompareFailed));
    assert_eq!(extraction.source_code(), Some("IMPACT_ROOT_INCOMPLETE".to_string()));
}
