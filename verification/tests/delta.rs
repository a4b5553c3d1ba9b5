use sley_repo::compare::{ChangeClass, CompareError, CompareErrorCode, RelationChange};
use sley_repo::delta::{
    encode_semantic_delta, require_sorted, BodyDelta, EntityDelta, FieldDelta, RelationDelta,
    SemanticDelta,
};
use sley_repo::delta_decode::{decode_ids, decode_semantic_delta, kind_tag};
use sley_repo::scb::encode_list;

const EPOCH: [u8; 32] = [0x33; 32];
const DERIVED: [u8; 32] = [0x44; 32];

fn empty_delta() -> SemanticDelta {
    SemanticDelta {
        workspace_id: [1; 32],
        root_schema_epoch: [2; 32],
        base_root: [3; 32],
        target_root: [4; 32],
        entities: Vec::new(),
        fields: Vec::new(),
        bodies: Vec::new(),
        relations: Vec::new(),
        dependency_roots_added: Vec::new(),
        dependency_roots_removed: Vec::new(),
        entry_points_added: Vec::new(),
        entry_points_removed: Vec::new(),
        collateral: Vec::new(),
    }
}

fn full_delta() -> SemanticDelta {
    let mut delta = empty_delta();
    delta.entities = vec![
        EntityDelta {
            entity_id: [10; 32],
            change: ChangeClass::Added,
            base_kind: 0,
            target_kind: 5,
            base_object: None,
            target_object: Some([11; 32]),
        },
        EntityDelta {
            entity_id: [12; 32],
            change: ChangeClass::Changed,
            base_kind: 3,
            target_kind: 3,
            base_object: Some([13; 32]),
            target_object: Some([14; 32]),
        },
    ];
    delta.fields = vec![FieldDelta {
        entity_id: [12; 32],
        kind: 3,
        field: 2,
        flags: 1,
        added: vec![[20; 32], [21; 32]],
        removed: vec![[22; 32]],
    }];
    delta.bodies = vec![BodyDelta {
        entity_id: [12; 32],
        base_fingerprint: [30; 32],
        target_fingerprint: [31; 32],
        base_blocks: 1,
        target_blocks: 2,
        base_operations: 3,
        target_operations: 4,
    }];
    delta.relations = vec![RelationDelta {
        dependent: [12; 32],
        dependency: [10; 32],
        kind: 5,
        change: RelationChange::Added,
    }];
    delta.entry_points_added = vec![[10; 32]];
    delta.collateral = vec![[40; 32], [41; 32]];
    delta
}

fn stored(delta: &SemanticDelta) -> Vec<u8> {
    let mut bytes = encode_semantic_delta(delta, &EPOCH).unwrap();
    bytes.extend_from_slice(&DERIVED);
    bytes
}

#[test]
fn empty_delta_round_trips() {
    let delta = empty_delta();
    assert!(delta.is_empty());
    let bytes = stored(&delta);
    let decoded = decode_semantic_delta(&bytes, &EPOCH, &DERIVED).unwrap();
    assert_eq!(decoded.delta, delta);
    assert_eq!(decoded.stored_bytes, bytes);
    assert_eq!(decoded.delta_id, DERIVED);
}

#[test]
fn full_delta_round_trips() {
    let delta = full_delta();
    assert!(!delta.is_empty());
    let decoded = decode_semantic_delta(&stored(&delta), &EPOCH, &DERIVED).unwrap();
    assert_eq!(decoded.delta, delta);
}

#[test]
fn encoder_refuses_unordered_and_duplicate_sections() {
    let mut swapped = full_delta();
    swapped.entities.swap(0, 1);
    assert_eq!(
        encode_semantic_delta(&swapped, &EPOCH).unwrap_err(),
        CompareError::Compare(CompareErrorCode::CanonicalOrder)
    );
    let mut duplicate = full_delta();
    duplicate.collateral = vec![[40; 32], [40; 32]];
    assert_eq!(
        encode_semantic_delta(&duplicate, &EPOCH).unwrap_err(),
        CompareError::Compare(CompareErrorCode::DuplicateEntry)
    );
    let mut field_set = full_delta();
    field_set.fields[0].added = vec![[21; 32], [20; 32]];
    assert_eq!(
        encode_semantic_delta(&field_set, &EPOCH).unwrap_err(),
        CompareError::Compare(CompareErrorCode::CanonicalOrder)
    );
    assert!(require_sorted(&vec![[1u8; 32], [2u8; 32]]).is_ok());
}

#[test]
fn decoder_rejection_matrix_reaches_the_frozen_codes() {
    let bytes = stored(&full_delta());
    assert_eq!(
        decode_semantic_delta(&bytes, &EPOCH, &[0x45; 32]).unwrap_err().code(),
        CompareErrorCode::DigestMismatch
    );
    assert_eq!(
        decode_semantic_delta(&bytes, &[0x34; 32], &DERIVED).unwrap_err(),
        CompareError::Format(sley_repo::pack::PackFault::Scb(
            sley_repo::scb::ScbErrorCode::EpochMismatch
        ))
    );
    let mut version = bytes.clone();
    version[8] = 2;
    assert_eq!(
        decode_semantic_delta(&version, &EPOCH, &DERIVED).unwrap_err().code(),
        CompareErrorCode::VersionUnsupported
    );
    let mut shape = full_delta();
    shape.entities[0].base_kind = 4;
    assert_eq!(
        decode_semantic_delta(&stored(&shape), &EPOCH, &DERIVED)
            .unwrap_err()
            .code(),
        CompareErrorCode::FormatInvalid
    );
    let mut field = full_delta();
    field.fields[0].flags = 2;
    assert_eq!(
        decode_semantic_delta(&stored(&field), &EPOCH, &DERIVED)
            .unwrap_err()
            .code(),
        CompareErrorCode::FormatInvalid
    );
    let mut body = full_delta();
    body.bodies[0].target_fingerprint = [30; 32];
    assert_eq!(
        decode_semantic_delta(&stored(&body), &EPOCH, &DERIVED)
            .unwrap_err()
            .code(),
        CompareErrorCode::FormatInvalid
    );
    let mut relation = full_delta();
    relation.relations[0].kind = 13;
    assert_eq!(
        decode_semantic_delta(&stored(&relation), &EPOCH, &DERIVED)
            .unwrap_err()
            .code(),
        CompareErrorCode::FormatInvalid
    );
    let mut trailing = bytes.clone();
    trailing.push(0);
    assert_eq!(
        decode_semantic_delta(&trailing, &EPOCH, &DERIVED)
            .unwrap_err()
            .source_code(),
        Some("SCB_TRAILING_BYTES".to_owned())
    );
}

#[test]
fn identity_sets_must_be_exact_and_ascending() {
    assert_eq!(
        decode_ids(&encode_list(&vec![vec![1; 32], vec![2; 32]]), 4).unwrap(),
        vec![[1; 32], [2; 32]]
    );
    assert_eq!(
        decode_ids(&encode_list(&vec![vec![2; 32], vec![1; 32]]), 4).unwrap_err(),
        CompareError::Compare(CompareErrorCode::CanonicalOrder)
    );
    assert_eq!(
        decode_ids(&encode_list(&vec![vec![1; 31]]), 4).unwrap_err().code(),
        CompareErrorCode::FormatInvalid
    );
    assert_eq!(kind_tag(0, true), Ok(0));
    assert_eq!(
        kind_tag(0, false),
        Err(CompareError::Compare(CompareErrorCode::FormatInvalid))
    );
    assert_eq!(kind_tag(18, false), Ok(18));
    assert!(kind_tag(19, true).is_err());
}
