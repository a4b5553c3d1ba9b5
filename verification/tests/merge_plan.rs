use sley_repo::merge::{MergeError, MergeErrorCode};
use sley_repo::merge_plan::{
    merge_candidate_nonce, merge_created, plan_base_transaction, plan_identity_map, remap_id, remap_id_set, remap_list,
    PlanObject,
};

fn id(byte: u8) -> [u8; 32] {
    [byte; 32]
}

fn object(byte: u8, kind: u32, entry_point: bool) -> PlanObject {
    PlanObject { entity_id: id(byte), kind, entry_point }
}

#[test]
fn entities_ours_lacks_are_created_in_merged_order() {
    let merged = vec![object(1, 3, false), object(2, 4, false), object(5, 3, false)];
    let ours = vec![id(1)];
    assert_eq!(merge_created(&merged, &ours), Ok(vec![object(2, 4, false), object(5, 3, false)]));
}

#[test]
fn a_created_entry_point_is_unsupported() {
    let merged = vec![object(1, 3, true), object(2, 15, true)];
    let ours = vec![id(1)];
    assert_eq!(merge_created(&merged, &ours), Err(MergeError::Merge(MergeErrorCode::PlanUnsupported)));
}

#[test]
fn created_entities_take_their_derived_identities_unless_one_is_live() {
    let created = vec![object(2, 4, false), object(5, 3, false)];
    let ours = vec![id(1)];
    assert_eq!(
        plan_identity_map(&created, &vec![id(20), id(21)], &ours),
        Ok(vec![(id(2), id(20)), (id(5), id(21))])
    );
    assert_eq!(
        plan_identity_map(&created, &vec![id(20), id(1)], &ours),
        Err(MergeError::Merge(MergeErrorCode::PlanUnsupported))
    );
}

#[test]
fn the_candidate_nonce_digests_the_domain_and_both_roots() {
    let ours = id(7);
    let merged = id(8);
    let mut hasher = blake3::Hasher::new();
    hasher.update(b"sley2.merge-plan-nonce.v1");
    hasher.update(&ours);
    hasher.update(&merged);
    assert_eq!(merge_candidate_nonce(&ours, &merged), *hasher.finalize().as_bytes());
    assert_ne!(merge_candidate_nonce(&ours, &merged), merge_candidate_nonce(&merged, &ours));
}

#[test]
fn a_side_without_a_transaction_cannot_be_planned_on() {
    assert_eq!(plan_base_transaction(Some(id(3))), Ok(id(3)));
    assert_eq!(plan_base_transaction(None), Err(MergeError::Merge(MergeErrorCode::PlanUnsupported)));
}

#[test]
fn identities_remap_through_the_map_and_sets_refuse_a_collapse() {
    let map = vec![(id(1), id(11)), (id(2), id(12))];
    assert_eq!(remap_id(&id(1), &map), id(11));
    assert_eq!(remap_id(&id(3), &map), id(3));
    let mut list = vec![id(2), id(3), id(1)];
    remap_list(&mut list, &map);
    assert_eq!(list, vec![id(12), id(3), id(11)]);
    assert_eq!(remap_id_set(&vec![id(2), id(3), id(1)], &map), Ok(vec![id(3), id(11), id(12)]));
    let collapsing = vec![(id(1), id(3))];
    assert_eq!(
        remap_id_set(&vec![id(1), id(3)], &collapsing),
        Err(MergeError::Merge(MergeErrorCode::InternalInvariant))
    );
}
