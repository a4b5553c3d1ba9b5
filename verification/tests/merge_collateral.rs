use sley_repo::compare::ChangeClass;
use sley_repo::compare_fields::RootEntity;
use sley_repo::compare_roots::ImpactEdge;
use sley_repo::delta::EntityDelta;
use sley_repo::merge::{ConflictEntry, ConflictReason, MergeError, MergeErrorCode, Work, MAX_MERGE_WORK};
use sley_repo::merge_collateral::{collateral_conflicts, non_ownership_dependents};
use sley_repo::merge_judge::Judgment;

fn id(byte: u8) -> [u8; 32] {
    [byte; 32]
}

fn edge(dependent: u8, dependency: u8, kind: u32) -> ImpactEdge {
    ImpactEdge { dependent: id(dependent), dependency: id(dependency), kind }
}

fn entity(byte: u8, kind: u32, object: u8) -> RootEntity {
    RootEntity { entity_id: id(byte), kind, object: Some(id(object)), definition: vec![object], label: Vec::new(), fields: Vec::new() }
}

fn entry(byte: u8, change: ChangeClass) -> EntityDelta {
    EntityDelta {
        entity_id: id(byte),
        change,
        base_kind: 3,
        target_kind: 3,
        base_object: Some(id(byte)),
        target_object: Some(id(byte + 100)),
    }
}

fn judgment(bound: &[u8]) -> Judgment {
    Judgment {
        conflicts: Vec::new(),
        bindings: bound.iter().map(|b| (id(*b), Some(id(*b + 100)))).collect(),
        composed: Vec::new(),
        metadata_overridden: Vec::new(),
    }
}

fn sorted(mut v: Vec<[u8; 32]>) -> Vec<[u8; 32]> {
    v.sort();
    v
}

#[test]
fn dependents_follow_every_edge_but_ownership() {
    // 2 refers to 1, 3 refers to 2, 4 owns-refers to 1, 5 refers to 4.
    let edges = vec![edge(2, 1, 2), edge(3, 2, 3), edge(4, 1, 1), edge(5, 4, 5)];
    let mut work = Work::new();
    let found = non_ownership_dependents(&edges, &id(1), &mut work).unwrap();
    assert_eq!(sorted(found), vec![id(2), id(3)]);
    // Edges into 1 (two) and into its dependents 2 and 3 (one).
    assert_eq!(work.total(), 3);
}

#[test]
fn dependents_through_a_cycle_include_the_start() {
    let edges = vec![edge(2, 1, 2), edge(1, 2, 2)];
    let mut work = Work::new();
    let found = non_ownership_dependents(&edges, &id(1), &mut work).unwrap();
    assert_eq!(sorted(found), vec![id(1), id(2)]);
    assert_eq!(work.total(), 3);
}

#[test]
fn dependents_fail_once_the_work_budget_is_spent() {
    let edges = vec![edge(2, 1, 2), edge(3, 2, 3)];
    let mut work = Work::new();
    work.charge(MAX_MERGE_WORK - 1).unwrap();
    assert_eq!(
        non_ownership_dependents(&edges, &id(1), &mut work),
        Err(MergeError::Merge(MergeErrorCode::ResourceLimit))
    );
}

#[test]
fn a_touched_identity_conflicts_when_the_other_side_edits_a_dependent() {
    let base = vec![entity(1, 7, 11), entity(2, 3, 12)];
    let ours = vec![entity(1, 7, 21), entity(2, 3, 12)];
    let theirs = vec![entity(1, 7, 11), entity(2, 3, 32)];
    let delta_a = vec![entry(1, ChangeClass::Changed)];
    let delta_b = vec![entry(2, ChangeClass::Changed)];
    // In theirs' index 2 refers to 1.
    let edges_b = vec![edge(2, 1, 3)];
    let mut work = Work::new();
    let found =
        collateral_conflicts(&delta_a, &delta_b, &Vec::new(), &edges_b, &judgment(&[1, 2]), &base, &ours, &theirs, &mut work)
            .unwrap();
    assert_eq!(
        found,
        vec![ConflictEntry {
            entity_id: id(1),
            reason: ConflictReason::Collateral,
            kind: 7,
            field: 0,
            ours_object: Some(id(21)),
            theirs_object: Some(id(11)),
            detail: 0,
        }]
    );
    // One unit per entry of each side, one per edge examined.
    assert_eq!(work.total(), 3);
}

#[test]
fn identities_the_judgment_did_not_bind_gain_no_collateral() {
    let base = vec![entity(1, 7, 11), entity(2, 3, 12)];
    let delta_a = vec![entry(1, ChangeClass::Changed)];
    let delta_b = vec![entry(2, ChangeClass::Changed)];
    let edges_b = vec![edge(2, 1, 3)];
    let mut work = Work::new();
    let found =
        collateral_conflicts(&delta_a, &delta_b, &Vec::new(), &edges_b, &judgment(&[2]), &base, &base, &base, &mut work)
            .unwrap();
    assert!(found.is_empty());
}

#[test]
fn ownership_and_metadata_never_make_collateral() {
    let base = vec![entity(1, 7, 11), entity(2, 3, 12), entity(3, 3, 13)];
    let delta_a = vec![entry(1, ChangeClass::Changed)];
    // 2 owns 1; 3 refers to 1 but only its metadata changed.
    let delta_b = vec![entry(2, ChangeClass::Changed), entry(3, ChangeClass::MetadataOnly)];
    let edges_b = vec![edge(2, 1, 1), edge(3, 1, 2)];
    let mut work = Work::new();
    let found =
        collateral_conflicts(&delta_a, &delta_b, &Vec::new(), &edges_b, &judgment(&[1, 2, 3]), &base, &base, &base, &mut work)
            .unwrap();
    assert!(found.is_empty());
}

#[test]
fn collateral_runs_on_both_sides_with_ours_and_theirs_fixed() {
    let base = vec![entity(1, 7, 11), entity(2, 3, 12)];
    let ours = vec![entity(1, 7, 11), entity(2, 3, 22)];
    let theirs = vec![entity(1, 7, 31), entity(2, 3, 12)];
    // Theirs touched 1; ours edited 2, which refers to 1 in ours' index.
    let delta_a = vec![entry(2, ChangeClass::Added)];
    let delta_b = vec![entry(1, ChangeClass::Retyped)];
    let edges_a = vec![edge(2, 1, 4)];
    let mut work = Work::new();
    let found =
        collateral_conflicts(&delta_a, &delta_b, &edges_a, &Vec::new(), &judgment(&[1, 2]), &base, &ours, &theirs, &mut work)
            .unwrap();
    assert_eq!(found.len(), 1);
    assert_eq!(found[0].entity_id, id(1));
    assert_eq!(found[0].ours_object, Some(id(11)));
    assert_eq!(found[0].theirs_object, Some(id(31)));
}

#[test]
fn collateral_is_mirror_symmetric_under_swap() {
    let base = vec![entity(1, 7, 11), entity(2, 3, 12)];
    let ours = vec![entity(1, 7, 21), entity(2, 3, 12)];
    let theirs = vec![entity(1, 7, 11), entity(2, 3, 32)];
    let delta_a = vec![entry(1, ChangeClass::Changed)];
    let delta_b = vec![entry(2, ChangeClass::Changed)];
    let edges_a = vec![edge(2, 1, 3)];
    let edges_b = vec![edge(2, 1, 3)];
    let bound = judgment(&[1, 2]);
    let mut forward_work = Work::new();
    let forward =
        collateral_conflicts(&delta_a, &delta_b, &edges_a, &edges_b, &bound, &base, &ours, &theirs, &mut forward_work)
            .unwrap();
    let mut swapped_work = Work::new();
    let swapped =
        collateral_conflicts(&delta_b, &delta_a, &edges_b, &edges_a, &bound, &base, &theirs, &ours, &mut swapped_work)
            .unwrap();
    assert_eq!(forward.len(), 1);
    assert_eq!(swapped.len(), 1);
    assert_eq!(forward[0].reason, ConflictReason::Collateral);
    assert_eq!(forward[0].ours_object, swapped[0].theirs_object);
    assert_eq!(forward[0].theirs_object, swapped[0].ours_object);
    assert_eq!(forward_work.total(), swapped_work.total());
}
