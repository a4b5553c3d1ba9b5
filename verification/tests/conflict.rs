use sley_repo::merge::{ConflictEntry, ConflictReason, MergeErrorCode};
use sley_repo::merge_conflict::{
    decode_merge_conflict, encode_conflict_payload, encode_conflict_preimage, MergeConflict,
};

const EPOCH: [u8; 32] = [0x55; 32];
const DERIVED: [u8; 32] = [0x66; 32];

fn conflict() -> MergeConflict {
    MergeConflict {
        workspace_id: [1; 32],
        ancestor_root: [2; 32],
        ours_root: [3; 32],
        theirs_root: [4; 32],
        ours_delta: [5; 32],
        theirs_delta: [6; 32],
        conflicts: vec![
            ConflictEntry {
                entity_id: [0; 32],
                reason: ConflictReason::RootAnchor,
                kind: 0,
                field: 0,
                ours_object: None,
                theirs_object: None,
                detail: 3,
            },
            ConflictEntry {
                entity_id: [9; 32],
                reason: ConflictReason::FieldEdit,
                kind: 6,
                field: 4,
                ours_object: Some([10; 32]),
                theirs_object: Some([11; 32]),
                detail: 0,
            },
        ],
    }
}

fn stored(conflict: &MergeConflict) -> Vec<u8> {
    let payload = encode_conflict_payload(conflict).unwrap();
    let mut bytes = encode_conflict_preimage(&EPOCH, &payload).unwrap();
    bytes.extend_from_slice(&DERIVED);
    bytes
}

#[test]
fn conflict_round_trips() {
    let conflict = conflict();
    assert_eq!(
        decode_merge_conflict(&stored(&conflict), &EPOCH, &DERIVED).unwrap(),
        conflict
    );
}

#[test]
fn forged_conflict_detail_and_kind_fail_decode() {
    let mut forged = conflict();
    forged.conflicts[1].detail = 25_000;
    assert_eq!(
        decode_merge_conflict(&stored(&forged), &EPOCH, &DERIVED)
            .unwrap_err()
            .code(),
        Some(MergeErrorCode::ConflictFormatInvalid)
    );
    let mut forged_kind = conflict();
    forged_kind.conflicts[1].kind = 0;
    assert_eq!(
        decode_merge_conflict(&stored(&forged_kind), &EPOCH, &DERIVED)
            .unwrap_err()
            .code(),
        Some(MergeErrorCode::ConflictFormatInvalid)
    );
}

#[test]
fn conflict_codec_rejections_keep_their_codes() {
    let bytes = stored(&conflict());
    assert_eq!(
        decode_merge_conflict(&bytes, &EPOCH, &[0x67; 32])
            .unwrap_err()
            .code(),
        Some(MergeErrorCode::ConflictDigestMismatch)
    );
    let mut empty = conflict();
    empty.conflicts.clear();
    assert_eq!(
        encode_conflict_payload(&empty).unwrap_err().code(),
        Some(MergeErrorCode::ConflictFormatInvalid)
    );
    let mut unordered = conflict();
    unordered.conflicts.swap(0, 1);
    assert_eq!(
        encode_conflict_payload(&unordered).unwrap_err().code(),
        Some(MergeErrorCode::ConflictCanonicalOrder)
    );
    let mut version = bytes.clone();
    version[8] = 2;
    assert_eq!(
        decode_merge_conflict(&version, &EPOCH, &DERIVED)
            .unwrap_err()
            .code(),
        Some(MergeErrorCode::ConflictVersionUnsupported)
    );
}
