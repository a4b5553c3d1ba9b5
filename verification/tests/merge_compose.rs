use sley_repo::compare_fields::FieldValue;
use sley_repo::delta::FieldDelta;
use sley_repo::merge::{MergeError, MergeErrorCode, Work};
use sley_repo::merge_compose::{compose_fields, is_set_field};

fn id(byte: u8) -> [u8; 32] {
    [byte; 32]
}

fn ids(bytes: &[u8]) -> FieldValue {
    FieldValue::Identities(bytes.iter().map(|b| id(*b)).collect())
}

fn scalar(bytes: &[u8]) -> FieldValue {
    FieldValue::Scalar(bytes.to_vec())
}

fn entry(field: u32, added: &[u8], removed: &[u8]) -> FieldDelta {
    FieldDelta {
        entity_id: id(5),
        kind: 3,
        field,
        flags: 1,
        added: added.iter().map(|b| id(*b)).collect(),
        removed: removed.iter().map(|b| id(*b)).collect(),
    }
}

fn compose(
    base: &[FieldValue],
    ours: &[FieldValue],
    theirs: &[FieldValue],
    a: &[FieldDelta],
    b: &[FieldDelta],
) -> Result<Result<Vec<FieldValue>, u32>, MergeError> {
    let mut work = Work::new();
    compose_fields(3, &base.to_vec(), &ours.to_vec(), &theirs.to_vec(), &a.to_vec(), &b.to_vec(), &mut work)
}

#[test]
fn each_side_contributes_the_fields_it_changed() {
    let base = [scalar(b"parent"), ids(&[1, 2])];
    let ours = [scalar(b"moved"), ids(&[1, 2])];
    let theirs = [scalar(b"parent"), ids(&[1, 2, 3])];
    let composed = compose(&base, &ours, &theirs, &[entry(1, &[], &[])], &[entry(2, &[3], &[])])
        .unwrap()
        .unwrap();
    assert_eq!(composed, vec![scalar(b"moved"), ids(&[1, 2, 3])]);
}

#[test]
fn set_fields_changed_by_both_sides_merge_member_by_member() {
    assert!(is_set_field(3, 2));
    assert!(!is_set_field(3, 1));
    let base = [scalar(b"parent"), ids(&[1, 2])];
    let ours = [scalar(b"parent"), ids(&[2, 3])];
    let theirs = [scalar(b"parent"), ids(&[1, 2, 4])];
    let a = [entry(2, &[3], &[1])];
    let b = [entry(2, &[4], &[])];
    let composed = compose(&base, &ours, &theirs, &a, &b).unwrap().unwrap();
    assert_eq!(composed, vec![scalar(b"parent"), ids(&[2, 3, 4])]);
    assert_eq!(compose(&base, &theirs, &ours, &b, &a).unwrap().unwrap(), composed);
}

#[test]
fn an_addition_the_other_side_removes_conflicts_on_its_field() {
    let base = [scalar(b"parent"), ids(&[1, 5])];
    let ours = [scalar(b"parent"), ids(&[1, 5, 6])];
    let theirs = [scalar(b"parent"), ids(&[1])];
    let a = [entry(2, &[6], &[])];
    let b = [entry(2, &[], &[5])];
    assert_eq!(compose(&base, &ours, &theirs, &a, &b).unwrap(), Ok(vec![scalar(b"parent"), ids(&[1, 6])]));
    let a = [entry(2, &[5], &[])];
    let b = [entry(2, &[], &[5])];
    assert_eq!(compose(&base, &ours, &theirs, &a, &b).unwrap(), Err(2));
}

#[test]
fn scalar_fields_changed_by_both_sides_must_agree() {
    let base = [scalar(b"parent"), ids(&[1])];
    let same = [scalar(b"moved"), ids(&[1])];
    let other = [scalar(b"elsewhere"), ids(&[1])];
    let a = [entry(1, &[], &[])];
    let b = [entry(1, &[], &[])];
    assert_eq!(compose(&base, &same, &same, &a, &b).unwrap(), Ok(same.to_vec()));
    assert_eq!(compose(&base, &same, &other, &a, &b).unwrap(), Err(1));
}

#[test]
fn a_composition_with_no_changed_field_is_an_internal_invariant() {
    let base = [scalar(b"parent")];
    assert_eq!(
        compose(&base, &base, &base, &[], &[]),
        Err(MergeError::Merge(MergeErrorCode::InternalInvariant))
    );
}
