use sley_repo::compare::ChangeClass;
use sley_repo::compare_fields::{FieldValue, RootEntity};
use sley_repo::delta::{EntityDelta, FieldDelta};
use sley_repo::merge::{ConflictReason, Work};
use sley_repo::merge_judge::judge_entities;

fn id(byte: u8) -> [u8; 32] {
    [byte; 32]
}

fn entity(byte: u8, kind: u32, object: u8, fields: Vec<FieldValue>) -> RootEntity {
    RootEntity {
        entity_id: id(byte),
        kind,
        object: Some(id(object)),
        definition: vec![object],
        label: Vec::new(),
        fields,
    }
}

fn entry(byte: u8, change: ChangeClass, kind: u32, target: Option<u8>) -> EntityDelta {
    EntityDelta {
        entity_id: id(byte),
        change,
        base_kind: kind,
        target_kind: kind,
        base_object: Some(id(byte)),
        target_object: target.map(id),
    }
}

fn field(byte: u8, field: u32, added: &[u8], removed: &[u8]) -> FieldDelta {
    FieldDelta {
        entity_id: id(byte),
        kind: 3,
        field,
        flags: 1,
        added: added.iter().map(|b| id(*b)).collect(),
        removed: removed.iter().map(|b| id(*b)).collect(),
    }
}

fn ids(bytes: &[u8]) -> FieldValue {
    FieldValue::Identities(bytes.iter().map(|b| id(*b)).collect())
}

#[test]
fn identities_are_bound_conflicted_or_composed_once_each() {
    let base = vec![
        entity(1, 3, 11, vec![ids(&[7])]),
        entity(2, 3, 12, vec![ids(&[7])]),
        entity(3, 3, 13, vec![FieldValue::Scalar(b"x".to_vec()), ids(&[7])]),
    ];
    let ours = vec![
        entity(1, 3, 21, vec![ids(&[7, 8])]),
        entity(2, 3, 22, vec![ids(&[7])]),
        entity(3, 3, 23, vec![FieldValue::Scalar(b"y".to_vec()), ids(&[7])]),
    ];
    let theirs = vec![
        entity(1, 3, 11, vec![ids(&[7])]),
        entity(3, 3, 33, vec![FieldValue::Scalar(b"x".to_vec()), ids(&[7, 9])]),
    ];
    let delta_a = vec![
        entry(1, ChangeClass::Changed, 3, Some(21)),
        entry(2, ChangeClass::Changed, 3, Some(22)),
        entry(3, ChangeClass::Changed, 3, Some(23)),
    ];
    let fields_a = vec![field(1, 1, &[8], &[]), field(2, 1, &[], &[]), field(3, 1, &[], &[])];
    let delta_b = vec![
        entry(2, ChangeClass::Removed, 3, None),
        entry(3, ChangeClass::Changed, 3, Some(33)),
    ];
    let fields_b = vec![field(3, 2, &[9], &[])];
    let mut work = Work::new();
    let judged = judge_entities(&delta_a, &fields_a, &delta_b, &fields_b, &base, &ours, &theirs, &mut work).unwrap();
    assert_eq!(judged.bindings, vec![(id(1), Some(id(21)))]);
    assert_eq!(judged.conflicts.len(), 1);
    assert_eq!(judged.conflicts[0].entity_id, id(2));
    assert_eq!(judged.conflicts[0].reason, ConflictReason::DeleteEdit);
    assert_eq!(judged.conflicts[0].ours_object, Some(id(22)));
    assert_eq!(judged.conflicts[0].theirs_object, None);
    assert_eq!(judged.composed.len(), 1);
    assert_eq!(judged.composed[0].0, id(3));
    assert_eq!(
        judged.composed[0].1,
        vec![FieldValue::Scalar(b"y".to_vec()), ids(&[7, 9])]
    );
    assert_eq!(work.total(), 5);

    let mut swapped_work = Work::new();
    let swapped =
        judge_entities(&delta_b, &fields_b, &delta_a, &fields_a, &base, &theirs, &ours, &mut swapped_work).unwrap();
    assert_eq!(swapped.bindings, judged.bindings);
    assert_eq!(swapped.composed, judged.composed);
    assert_eq!(swapped.conflicts[0].ours_object, None);
    assert_eq!(swapped.conflicts[0].theirs_object, Some(id(22)));
    assert_eq!(swapped_work.total(), work.total());
}

#[test]
fn a_field_both_sides_changed_differently_is_a_field_edit() {
    let base = vec![entity(4, 3, 14, vec![FieldValue::Scalar(b"x".to_vec())])];
    let ours = vec![entity(4, 3, 24, vec![FieldValue::Scalar(b"y".to_vec())])];
    let theirs = vec![entity(4, 3, 34, vec![FieldValue::Scalar(b"z".to_vec())])];
    let delta_a = vec![entry(4, ChangeClass::Changed, 3, Some(24))];
    let delta_b = vec![entry(4, ChangeClass::Changed, 3, Some(34))];
    let fields = vec![field(4, 1, &[], &[])];
    let mut work = Work::new();
    let judged = judge_entities(&delta_a, &fields, &delta_b, &fields, &base, &ours, &theirs, &mut work).unwrap();
    assert!(judged.composed.is_empty());
    assert_eq!(judged.conflicts.len(), 1);
    assert_eq!(judged.conflicts[0].reason, ConflictReason::FieldEdit);
    assert_eq!(judged.conflicts[0].field, 1);
    assert_eq!(judged.conflicts[0].kind, 3);
}

#[test]
fn a_composed_identity_whose_labels_differ_overrides_theirs_label() {
    let base = vec![entity(3, 3, 13, vec![FieldValue::Scalar(b"x".to_vec()), ids(&[7])])];
    let ours = vec![entity(3, 3, 23, vec![FieldValue::Scalar(b"y".to_vec()), ids(&[7])])];
    let mut theirs = vec![entity(3, 3, 33, vec![FieldValue::Scalar(b"x".to_vec()), ids(&[7, 9])])];
    let delta_a = vec![entry(3, ChangeClass::Changed, 3, Some(23))];
    let delta_b = vec![entry(3, ChangeClass::Changed, 3, Some(33))];
    let fields_a = vec![field(3, 1, &[], &[])];
    let fields_b = vec![field(3, 2, &[9], &[])];
    let mut work = Work::new();
    let same = judge_entities(&delta_a, &fields_a, &delta_b, &fields_b, &base, &ours, &theirs, &mut work).unwrap();
    assert_eq!(same.composed.len(), 1);
    assert!(same.metadata_overridden.is_empty());
    theirs[0].label = b"renamed".to_vec();
    let mut work = Work::new();
    let relabelled = judge_entities(&delta_a, &fields_a, &delta_b, &fields_b, &base, &ours, &theirs, &mut work).unwrap();
    assert_eq!(relabelled.composed, same.composed);
    assert_eq!(relabelled.metadata_overridden, vec![id(3)]);
}
