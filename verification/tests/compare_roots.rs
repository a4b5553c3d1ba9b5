use sley_repo::compare::{ChangeClass, CompareError, CompareErrorCode, RelationChange};
use sley_repo::compare_fields::{field_deltas, FieldValue, FormMember, RootEntity, TypeForm};
use sley_repo::compare_roots::{
    relation_deltas, set_difference, FunctionInventory, FunctionPair, ImpactEdge, Work,
};
use sley_repo::comparison::{compare_sections, finish_comparison, RootSide};
use sley_repo::comparison_laws::compare_with_closures;
use sley_repo::delta::{encode_semantic_delta, SemanticDelta};
use sley_repo::delta_decode::decode_semantic_delta;

fn id(byte: u8) -> [u8; 32] {
    [byte; 32]
}

fn scalar(bytes: &[u8]) -> FieldValue {
    FieldValue::Scalar(bytes.to_vec())
}

fn entity(byte: u8, kind: u32, object: u8, definition: &[u8], fields: Vec<FieldValue>) -> RootEntity {
    RootEntity {
        entity_id: id(byte),
        kind,
        object: Some(id(object)),
        definition: definition.to_vec(),
        label: Vec::new(),
        fields,
    }
}

fn edge(dependent: u8, dependency: u8, kind: u32) -> ImpactEdge {
    ImpactEdge {
        dependent: id(dependent),
        dependency: id(dependency),
        kind,
    }
}

fn side(root: u8, entities: Vec<RootEntity>, edges: Vec<ImpactEdge>) -> RootSide {
    RootSide {
        workspace_id: id(1),
        schema_epoch_id: id(2),
        root: id(root),
        entities,
        edges,
        dependency_roots: vec![id(9)],
        entry_points: vec![id(10)],
    }
}

fn inventory(fingerprint: u8) -> FunctionInventory {
    FunctionInventory {
        parameters: 1,
        blocks: 1,
        operations: 2,
        fingerprint: id(fingerprint),
    }
}

fn fixture() -> RootSide {
    side(
        50,
        vec![
            entity(5, 3, 105, b"namespace", vec![scalar(b"parent"), FieldValue::Identities(vec![id(7), id(19)])]),
            entity(6, 4, 106, b"type", vec![scalar(b"params"), scalar(b"private")]),
            entity(7, 5, 107, b"function", vec![scalar(b"result")]),
            entity(12, 9, 112, b"effect", vec![scalar(b"scope")]),
            entity(15, 14, 115, b"adapter", vec![scalar(b"abi")]),
            entity(19, 10, 119, b"global", vec![scalar(b"init")]),
        ],
        vec![edge(5, 7, 1), edge(15, 12, 3), edge(19, 18, 2)],
    )
}

fn compare(base: &RootSide, target: &RootSide) -> SemanticDelta {
    let sections = compare_sections(base, target, &Vec::new()).unwrap();
    finish_comparison(sections, base, target, &Vec::new(), &Vec::new()).unwrap()
}

fn class_of(delta: &SemanticDelta, byte: u8) -> Option<ChangeClass> {
    delta
        .entities
        .iter()
        .find(|entry| entry.entity_id == id(byte))
        .map(|entry| entry.change)
}

#[test]
fn identical_roots_yield_an_empty_valid_delta() {
    let base = fixture();
    let first = compare(&base, &base);
    assert!(first.is_empty());
    let stored = encode_semantic_delta(&first, &id(3)).unwrap();
    let mut sealed = stored.clone();
    sealed.extend_from_slice(&id(4));
    let decoded = decode_semantic_delta(&sealed, &id(3), &id(4)).unwrap();
    assert_eq!(decoded.delta, first);
    for _ in 0..8 {
        assert_eq!(compare(&base, &base), first);
    }
}

#[test]
fn every_change_class_is_classified_exactly_once() {
    let base = fixture();
    let mut target = fixture();
    target.root = id(51);
    // Added: a new constant joins the namespace.
    target.entities.push(entity(30, 8, 130, b"constant", vec![scalar(b"unit")]));
    // Removed: the global leaves.
    target.entities.retain(|e| e.entity_id != id(19));
    target.entities[0] = entity(
        5,
        3,
        205,
        b"namespace2",
        vec![scalar(b"parent"), FieldValue::Identities(vec![id(7), id(30)])],
    );
    // Changed: the type's visibility.
    target.entities[1] = entity(6, 4, 206, b"type2", vec![scalar(b"params"), scalar(b"exported")]);
    // MetadataOnly: the effect's object changes, its body does not.
    target.entities[3] = entity(12, 9, 212, b"effect", vec![scalar(b"scope")]);
    // Retyped: the adapter becomes a constant with the same identity.
    target.entities[4] = entity(15, 8, 215, b"constant", vec![scalar(b"unit")]);
    target.entities.sort_by(|a, b| a.entity_id.cmp(&b.entity_id));
    let delta = compare(&base, &target);
    assert_eq!(class_of(&delta, 30), Some(ChangeClass::Added));
    assert_eq!(class_of(&delta, 19), Some(ChangeClass::Removed));
    assert_eq!(class_of(&delta, 6), Some(ChangeClass::Changed));
    assert_eq!(class_of(&delta, 15), Some(ChangeClass::Retyped));
    assert_eq!(class_of(&delta, 12), Some(ChangeClass::MetadataOnly));
    assert_eq!(class_of(&delta, 5), Some(ChangeClass::Changed));
    assert_eq!(class_of(&delta, 7), None);
    assert_eq!(delta.entities.len(), 6);
    let visibility = delta
        .fields
        .iter()
        .find(|f| f.entity_id == id(6) && f.field == 2)
        .unwrap();
    assert_eq!(visibility.flags, 1);
    assert!(visibility.added.is_empty() && visibility.removed.is_empty());
    let members = delta
        .fields
        .iter()
        .find(|f| f.entity_id == id(5) && f.field == 2)
        .unwrap();
    assert_eq!(members.added, vec![id(30)]);
    assert_eq!(members.removed, vec![id(19)]);
    assert!(delta
        .fields
        .iter()
        .all(|f| f.entity_id != id(12) && f.entity_id != id(15)));
    let stored = encode_semantic_delta(&delta, &id(3)).unwrap();
    let mut sealed = stored.clone();
    sealed.extend_from_slice(&id(4));
    assert_eq!(decode_semantic_delta(&sealed, &id(3), &id(4)).unwrap().delta, delta);
}

fn member(byte: u8, shape: &[u8]) -> FormMember {
    FormMember {
        member_id: id(byte),
        shape: shape.to_vec(),
        rest: Vec::new(),
    }
}

fn form_delta(before: TypeForm, after: TypeForm) -> (u32, Vec<[u8; 32]>, Vec<[u8; 32]>) {
    let base = entity(6, 4, 106, b"a", vec![FieldValue::Form(before)]);
    let target = entity(6, 4, 206, b"b", vec![FieldValue::Form(after)]);
    let mut fields = Vec::new();
    let mut work = Work::new();
    field_deltas(&mut fields, &base, &target, &mut work).unwrap();
    assert_eq!(work.total(), 8);
    assert_eq!(fields.len(), 1);
    (fields[0].flags, fields[0].added.clone(), fields[0].removed.clone())
}

#[test]
fn type_delta_reports_members_added_removed_changed_and_reordered() {
    let base = TypeForm {
        variant: false,
        members: vec![member(41, b"bool"), member(42, b"unit")],
    };
    let changed = TypeForm {
        variant: false,
        members: vec![member(42, b"u8"), member(43, b"bool")],
    };
    assert_eq!(form_delta(base.clone(), changed), (1 | 4, vec![id(43)], vec![id(41)]));
    let reordered = TypeForm {
        variant: false,
        members: vec![member(42, b"unit"), member(41, b"bool")],
    };
    assert_eq!(form_delta(base.clone(), reordered), (1 | 8, Vec::new(), Vec::new()));
    let variant = TypeForm {
        variant: true,
        members: Vec::new(),
    };
    let (flags, added, removed) = form_delta(base, variant);
    assert_eq!(flags, 1 | 2);
    assert!(added.is_empty());
    assert_eq!(removed, vec![id(41), id(42)]);
}

#[test]
fn signature_change_flags_parameter_types() {
    let base = entity(
        7,
        5,
        107,
        b"f",
        vec![FieldValue::Parameters(vec![id(20), id(21)], vec![Some(b"bool".to_vec()), None])],
    );
    let target = entity(
        7,
        5,
        207,
        b"g",
        vec![FieldValue::Parameters(vec![id(21), id(22)], vec![None, Some(b"u8".to_vec())])],
    );
    let mut fields = Vec::new();
    let mut work = Work::new();
    field_deltas(&mut fields, &base, &target, &mut work).unwrap();
    assert_eq!(fields.len(), 1);
    assert_eq!(fields[0].field, 1);
    assert_eq!(fields[0].flags, 3);
    assert_eq!(fields[0].added, vec![id(22)]);
    assert_eq!(fields[0].removed, vec![id(20)]);
    let mismatched = entity(7, 5, 207, b"g", vec![scalar(b"x")]);
    assert_eq!(
        field_deltas(&mut fields, &base, &mismatched, &mut work),
        Err(CompareError::Compare(CompareErrorCode::InternalInvariant))
    );
    assert_eq!(fields.len(), 1);
}

#[test]
fn changed_function_bodies_are_reported() {
    let base = fixture();
    let functions = vec![
        FunctionPair {
            entity_id: id(7),
            base: inventory(70),
            target: inventory(71),
        },
        FunctionPair {
            entity_id: id(8),
            base: inventory(80),
            target: inventory(80),
        },
    ];
    let sections = compare_sections(&base, &base, &functions).unwrap();
    assert_eq!(sections.delta.bodies.len(), 1);
    assert_eq!(sections.delta.bodies[0].entity_id, id(7));
    assert_eq!(
        (sections.delta.bodies[0].base_blocks, sections.delta.bodies[0].target_operations),
        (1, 2)
    );
    assert_eq!(sections.base_seeds, vec![id(7)]);
    assert_eq!(sections.target_seeds, vec![id(7)]);
    let delta = finish_comparison(sections, &base, &base, &vec![id(5), id(7), id(15)], &vec![id(19)]).unwrap();
    assert_eq!(delta.collateral, vec![id(5), id(7), id(15), id(19)]);
}

#[test]
fn relation_deltas_are_the_two_edge_differences() {
    let base = vec![edge(5, 7, 1), edge(15, 12, 3), edge(19, 18, 2)];
    let target = vec![edge(5, 7, 1), edge(5, 30, 4), edge(18, 7, 1)];
    let mut work = Work::new();
    let deltas = relation_deltas(&base, &target, &mut work).unwrap();
    assert_eq!(work.total(), 6);
    let summary: Vec<(u8, u8, u32, RelationChange)> = deltas
        .iter()
        .map(|d| (d.dependent[0], d.dependency[0], d.kind, d.change))
        .collect();
    assert_eq!(
        summary,
        vec![
            (5, 30, 4, RelationChange::Added),
            (15, 12, 3, RelationChange::Removed),
            (18, 7, 1, RelationChange::Added),
            (19, 18, 2, RelationChange::Removed),
        ]
    );
}

#[test]
fn entry_point_and_dependency_root_sets_are_reported() {
    let base = fixture();
    let mut target = fixture();
    target.dependency_roots = vec![id(8)];
    target.entry_points = Vec::new();
    let delta = compare(&base, &target);
    assert_eq!(delta.dependency_roots_added, vec![id(8)]);
    assert_eq!(delta.dependency_roots_removed, vec![id(9)]);
    assert!(delta.entry_points_added.is_empty());
    assert_eq!(delta.entry_points_removed, vec![id(10)]);
    let (added, removed) = set_difference(&vec![id(3), id(1), id(3)], &vec![id(2), id(1), id(2)]);
    assert_eq!(added, vec![id(2)]);
    assert_eq!(removed, vec![id(3)]);
}

#[test]
fn collateral_names_bound_dependents_without_entries() {
    let base = fixture();
    let mut target = fixture();
    target.entities[1] = entity(6, 4, 206, b"type2", vec![scalar(b"params"), scalar(b"exported")]);
    let sections = compare_sections(&base, &target, &Vec::new()).unwrap();
    assert_eq!(sections.base_seeds, vec![id(6)]);
    assert_eq!(sections.target_seeds, vec![id(6)]);
    let delta = finish_comparison(
        sections,
        &base,
        &target,
        &vec![id(7), id(6), id(99)],
        &vec![id(5), id(7)],
    )
    .unwrap();
    assert_eq!(delta.entities.len(), 1);
    assert_eq!(delta.collateral, vec![id(5), id(7)]);
}

#[test]
fn swapped_direction_mirrors_the_delta() {
    let base = fixture();
    let mut target = fixture();
    target.entities.push(entity(30, 8, 130, b"constant", vec![scalar(b"unit")]));
    target.dependency_roots = vec![id(8)];
    target.edges = vec![edge(5, 7, 1), edge(5, 30, 4), edge(15, 12, 3), edge(19, 18, 2)];
    let forward = compare(&base, &target);
    let backward = compare(&target, &base);
    assert_eq!(class_of(&forward, 30), Some(ChangeClass::Added));
    assert_eq!(class_of(&backward, 30), Some(ChangeClass::Removed));
    assert_eq!(forward.dependency_roots_added, backward.dependency_roots_removed);
    assert_eq!(forward.dependency_roots_removed, backward.dependency_roots_added);
    assert_eq!(forward.collateral, backward.collateral);
    assert_eq!(forward.relations.len(), 1);
    assert_eq!(forward.relations[0].change, RelationChange::Added);
    assert_eq!(backward.relations[0].change, RelationChange::Removed);
    assert_ne!(forward, backward);
}

#[test]
fn preconditions_fail_closed_with_their_codes() {
    let base = fixture();
    let mut other_workspace = fixture();
    other_workspace.workspace_id = id(77);
    assert_eq!(
        compare_sections(&base, &other_workspace, &Vec::new()).err(),
        Some(CompareError::Compare(CompareErrorCode::WorkspaceMismatch))
    );
    let mut other_epoch = fixture();
    other_epoch.schema_epoch_id = id(78);
    assert_eq!(
        compare_sections(&base, &other_epoch, &Vec::new()).err(),
        Some(CompareError::Compare(CompareErrorCode::EpochMismatch))
    );
    let huge = vec![FunctionPair {
        entity_id: id(7),
        base: FunctionInventory {
            parameters: 100_000_000,
            blocks: 0,
            operations: 0,
            fingerprint: id(1),
        },
        target: inventory(1),
    }];
    assert_eq!(
        compare_sections(&base, &base, &huge).err(),
        Some(CompareError::Compare(CompareErrorCode::ResourceLimit))
    );
}

#[test]
fn work_budget_refuses_past_its_ceiling() {
    let mut work = Work::new();
    assert!(work.charge(99_999_999).is_ok());
    assert!(work.charge(1).is_ok());
    assert_eq!(work.total(), 100_000_000);
    assert_eq!(
        work.charge(1),
        Err(CompareError::Compare(CompareErrorCode::ResourceLimit))
    );
}

#[test]
fn a_whole_comparison_mirrors_with_the_closures_exchanged() {
    let base = fixture();
    let mut target = fixture();
    target.entities[1] = entity(6, 4, 206, b"type2", vec![scalar(b"params"), scalar(b"exported")]);
    target.dependency_roots = vec![id(8)];
    let reached_base = vec![id(7), id(6), id(99)];
    let reached_target = vec![id(5), id(7)];
    let forward = compare_with_closures(&base, &target, &Vec::new(), &reached_base, &reached_target).unwrap();
    let backward = compare_with_closures(&target, &base, &Vec::new(), &reached_target, &reached_base).unwrap();
    assert_eq!(forward.collateral, vec![id(5), id(7)]);
    assert_eq!(forward.collateral, backward.collateral);
    assert_eq!(forward.dependency_roots_added, backward.dependency_roots_removed);
    assert_eq!(forward.entities.len(), backward.entities.len());
    assert_eq!(forward.fields.len(), backward.fields.len());
    assert_eq!(forward.entities[0].base_object, backward.entities[0].target_object);
}
