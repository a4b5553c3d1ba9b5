use sley_repo::gc::{
    classify_witness, hex_nibble, is_lower_hex, parse_object_id, GcErrorCode,
    GcWitnessRecoveryStatus, RetentionKind,
};
use sley_repo::gc_snapshot::RetentionSnapshot;
use sley_repo::gc_plan::{
    allocation_fits, check_deletion_plan, plan_gc, GcRoot, InventoryObject, RetentionAnchor,
    RetentionTarget,
};

fn object(byte: u8, bytes: u64, references: &[u8]) -> InventoryObject {
    InventoryObject {
        object_id: [byte; 32],
        bytes,
        references: Some(references.iter().map(|b| [*b; 32]).collect()),
        path_len: 80,
    }
}

fn root(byte: u8, dependencies: &[u8], objects: &[u8]) -> GcRoot {
    GcRoot {
        root: [byte; 32],
        dependency_roots: dependencies.iter().map(|b| [*b; 32]).collect(),
        objects: objects.iter().map(|b| [*b; 32]).collect(),
    }
}

fn anchor(kind: RetentionKind, id: u8, targets: Vec<RetentionTarget>) -> RetentionAnchor {
    RetentionAnchor {
        kind,
        anchor_id: [id; 32],
        targets,
    }
}

/// Objects 1 (bound by root 50) -> 2 (its child); object 3 unreachable.
fn inventory() -> Vec<InventoryObject> {
    vec![object(3, 30, &[]), object(1, 10, &[2]), object(2, 20, &[])]
}

#[test]
fn plan_marks_root_and_transitive_object_references() {
    let anchors = vec![anchor(
        RetentionKind::Ref,
        1,
        vec![RetentionTarget::StateRoot([50; 32])],
    )];
    let roots = vec![root(50, &[], &[1])];
    let plan = plan_gc(&anchors, &roots, &inventory()).unwrap();
    assert_eq!(plan.retained_roots, vec![[50; 32]]);
    assert_eq!(plan.reachable_objects, vec![[1; 32], [2; 32]]);
    assert_eq!(plan.inventory_objects, vec![[1; 32], [2; 32], [3; 32]]);
    assert_eq!(plan.deletion_candidates, vec![[3; 32]]);
    assert_eq!(plan.inventory_bytes, 60);
    assert_eq!(plan.candidate_bytes, 30);
    assert_eq!(plan.examined_anchors.len(), 1);
    assert!(check_deletion_plan(&plan).is_ok());
}

#[test]
fn every_anchor_kind_retains_the_same_closure() {
    for (index, kind) in [
        RetentionKind::Ref,
        RetentionKind::Tag,
        RetentionKind::Lease,
        RetentionKind::Transaction,
        RetentionKind::PackManifest,
        RetentionKind::ProtectedRoot,
        RetentionKind::SessionPin,
    ]
    .into_iter()
    .enumerate()
    {
        let anchors = vec![anchor(
            kind,
            u8::try_from(index).unwrap(),
            vec![RetentionTarget::StateRoot([50; 32])],
        )];
        let plan = plan_gc(&anchors, &vec![root(50, &[], &[1])], &inventory()).unwrap();
        assert_eq!(plan.reachable_objects, vec![[1; 32], [2; 32]]);
        assert_eq!(plan.deletion_candidates, vec![[3; 32]]);
    }
}

#[test]
fn dependency_roots_retain_transitively_in_canonical_order() {
    let anchors = vec![anchor(
        RetentionKind::Tag,
        2,
        vec![RetentionTarget::StateRoot([60; 32])],
    )];
    let roots = vec![root(60, &[50], &[]), root(50, &[], &[1])];
    let plan = plan_gc(&anchors, &roots, &inventory()).unwrap();
    assert_eq!(plan.retained_roots, vec![[50; 32], [60; 32]]);
    assert_eq!(plan.deletion_candidates, vec![[3; 32]]);
}

#[test]
fn missing_dependency_root_fails_closed() {
    let anchors = vec![anchor(
        RetentionKind::Ref,
        3,
        vec![RetentionTarget::StateRoot([60; 32])],
    )];
    let roots = vec![root(60, &[50], &[])];
    assert_eq!(
        plan_gc(&anchors, &roots, &inventory()).unwrap_err().as_str(),
        "GC_DEPENDENCY_MISSING"
    );
}

#[test]
fn unresolved_object_anchor_fails_closed() {
    let anchors = vec![anchor(
        RetentionKind::ProtectedRoot,
        4,
        vec![RetentionTarget::Object([0xfe; 32])],
    )];
    assert_eq!(
        plan_gc(&anchors, &Vec::new(), &inventory()).unwrap_err().as_str(),
        "GC_ANCHOR_UNRESOLVED"
    );
}

#[test]
fn root_anchor_outside_the_catalog_fails_closed() {
    let anchors = vec![anchor(
        RetentionKind::Ref,
        5,
        vec![RetentionTarget::StateRoot([77; 32])],
    )];
    assert_eq!(
        plan_gc(&anchors, &Vec::new(), &inventory()).unwrap_err(),
        GcErrorCode::RootMissing
    );
}

#[test]
fn empty_anchor_set_marks_all_inventory_objects_as_candidates() {
    let plan = plan_gc(&Vec::new(), &Vec::new(), &inventory()).unwrap();
    assert!(plan.examined_anchors.is_empty());
    assert!(plan.retained_roots.is_empty());
    assert!(plan.reachable_objects.is_empty());
    assert_eq!(plan.deletion_candidates, plan.inventory_objects);
    assert_eq!(plan.deletion_candidates.len(), 3);
}

#[test]
fn missing_transitive_object_fails_closed() {
    let anchors = vec![anchor(
        RetentionKind::Lease,
        6,
        vec![RetentionTarget::Object([1; 32])],
    )];
    let inventory = vec![object(1, 10, &[9])];
    assert_eq!(
        plan_gc(&anchors, &Vec::new(), &inventory).unwrap_err(),
        GcErrorCode::ObjectMissing
    );
}

#[test]
fn malformed_reference_shape_fails_before_deletion() {
    let anchors = vec![anchor(
        RetentionKind::Lease,
        7,
        vec![RetentionTarget::Object([1; 32])],
    )];
    let mut inventory = inventory();
    inventory[2].references = None;
    assert_eq!(
        plan_gc(&anchors, &Vec::new(), &inventory).unwrap_err(),
        GcErrorCode::ObjectReferenceMalformed
    );
}

#[test]
fn reachable_candidate_in_a_corrupted_plan_trips_the_guard() {
    let anchors = vec![anchor(
        RetentionKind::Lease,
        13,
        vec![RetentionTarget::StateRoot([50; 32])],
    )];
    let mut plan = plan_gc(&anchors, &vec![root(50, &[], &[1])], &inventory()).unwrap();
    assert!(plan
        .reachable_objects
        .iter()
        .all(|object| !plan.deletion_candidates.contains(object)));
    plan.deletion_candidates.push([1; 32]);
    assert_eq!(
        check_deletion_plan(&plan).unwrap_err().as_str(),
        "GC_REACHABILITY_VIOLATION"
    );
}

#[test]
fn allocation_estimate_counts_identities_and_paths() {
    let inventory = vec![object(1, 1, &[])];
    assert!(allocation_fits(10, &inventory));
    let mut huge = object(2, 1, &[]);
    huge.path_len = 134_217_728;
    assert!(!allocation_fits(1, &vec![huge]));
}

#[test]
fn witness_bytes_are_classified_exactly() {
    assert_eq!(
        classify_witness(b"SLEYGC01"),
        Ok(GcWitnessRecoveryStatus::RemovedExact)
    );
    assert_eq!(
        classify_witness(b"SLEY"),
        Ok(GcWitnessRecoveryStatus::RemovedIncomplete)
    );
    assert_eq!(
        classify_witness(b""),
        Ok(GcWitnessRecoveryStatus::RemovedIncomplete)
    );
    assert_eq!(
        classify_witness(b"SLEYGC02"),
        Err(GcErrorCode::ExclusiveLockRequired)
    );
    assert_eq!(
        classify_witness(b"SLEYGC01x"),
        Err(GcErrorCode::ExclusiveLockRequired)
    );
}

#[test]
fn object_ids_parse_from_lower_hex_names() {
    let name = "00ff".repeat(16);
    let mut expected = [0u8; 32];
    for (index, byte) in expected.iter_mut().enumerate() {
        *byte = if index % 2 == 0 { 0x00 } else { 0xff };
    }
    assert_eq!(parse_object_id(&name), Ok(expected));
    assert_eq!(
        parse_object_id(&"00FF".repeat(16)),
        Err(GcErrorCode::InventoryInvalid)
    );
    assert_eq!(parse_object_id("00"), Err(GcErrorCode::InventoryInvalid));
    assert!(is_lower_hex(b'a'));
    assert!(!is_lower_hex(b'g'));
    assert_eq!(hex_nibble(b'f'), Ok(15));
    assert_eq!(hex_nibble(b'G'), Err(GcErrorCode::InventoryInvalid));
}

#[test]
fn duplicate_and_empty_anchors_fail_closed() {
    let target = RetentionTarget::Object([1; 32]);
    assert_eq!(
        RetentionSnapshot::new(
            vec![anchor(RetentionKind::Ref, 1, vec![target, target])],
            Vec::new(),
        )
        .unwrap_err()
        .as_str(),
        "GC_ANCHOR_MALFORMED"
    );
    assert_eq!(
        RetentionSnapshot::new(vec![anchor(RetentionKind::Ref, 1, Vec::new())], Vec::new(),)
            .unwrap_err()
            .as_str(),
        "GC_ANCHOR_MALFORMED"
    );
}

#[test]
fn duplicate_anchor_keys_and_roots_fail_closed() {
    let one = RetentionTarget::Object([1; 32]);
    let two = RetentionTarget::Object([2; 32]);
    assert_eq!(
        RetentionSnapshot::new(
            vec![
                anchor(RetentionKind::Tag, 1, vec![one]),
                anchor(RetentionKind::Tag, 1, vec![two]),
            ],
            Vec::new(),
        )
        .unwrap_err(),
        GcErrorCode::AnchorMalformed
    );
    assert_eq!(
        RetentionSnapshot::new(
            vec![anchor(RetentionKind::Tag, 1, vec![one])],
            vec![root(50, &[], &[]), root(50, &[], &[1])],
        )
        .unwrap_err(),
        GcErrorCode::RootInvalid
    );
}

#[test]
fn unordered_snapshot_produces_identical_report() {
    let a = anchor(
        RetentionKind::Tag,
        11,
        vec![RetentionTarget::StateRoot([50; 32])],
    );
    let b = anchor(
        RetentionKind::ProtectedRoot,
        12,
        vec![RetentionTarget::Object([2; 32]), RetentionTarget::StateRoot([50; 32])],
    );
    let one = RetentionSnapshot::new(vec![a.clone(), b.clone()], vec![root(50, &[], &[1])]).unwrap();
    let two = RetentionSnapshot::new(vec![b, a], vec![root(50, &[], &[1])]).unwrap();
    assert_eq!(one, two);
    assert_eq!(one.anchors()[0].kind, RetentionKind::Tag);
    assert_eq!(
        one.anchors()[1].targets,
        vec![RetentionTarget::StateRoot([50; 32]), RetentionTarget::Object([2; 32])]
    );
    assert_eq!(
        plan_gc(one.anchors(), one.roots(), &inventory()).unwrap(),
        plan_gc(two.anchors(), two.roots(), &inventory()).unwrap()
    );
}

#[test]
fn snapshot_refusal_does_not_depend_on_input_order() {
    let a = anchor(RetentionKind::Tag, 11, vec![RetentionTarget::StateRoot([50; 32])]);
    let empty = anchor(RetentionKind::Lease, 12, Vec::new());
    assert!(RetentionSnapshot::new(vec![a.clone(), empty.clone()], vec![root(50, &[], &[1])]).is_err());
    assert!(RetentionSnapshot::new(vec![empty, a.clone()], vec![root(50, &[], &[1])]).is_err());
    let roots = vec![root(51, &[], &[]), root(50, &[], &[1])];
    let reversed = vec![root(50, &[], &[1]), root(51, &[], &[])];
    assert_eq!(
        RetentionSnapshot::new(vec![a.clone()], roots).unwrap(),
        RetentionSnapshot::new(vec![a], reversed).unwrap()
    );
}
