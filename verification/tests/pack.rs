use sley_repo::pack::{
    check_counts, check_id_order, decode_absent_signature, decode_empty_section, PackEpochEntry,
    PackErrorCode, PackObjectEntry, PackRootEntry,
};
use sley_repo::pack_encode::{encode_payload, PayloadSections};
use sley_repo::pack_envelope::{decode_envelope, pack_preimage, stored_pack_bytes};
use sley_repo::pack_payload::{decode_payload, validate_profile, verify_digest_tree};
use sley_repo::pack_tree::{compute_leaves, merkle_root};
use sley_repo::scb::{encode_list, encode_union, encode_uvar};

fn entries() -> (Vec<PackEpochEntry>, Vec<PackRootEntry>, Vec<PackObjectEntry>) {
    (
        vec![PackEpochEntry {
            schema_epoch_id: [1; 32],
            bootstrap_preimage: b"epoch".to_vec(),
        }],
        vec![PackRootEntry {
            state_root: [2; 32],
            stored_bytes: b"root".to_vec(),
        }],
        vec![
            PackObjectEntry {
                object_id: [3; 32],
                stored_bytes: b"object-a".to_vec(),
            },
            PackObjectEntry {
                object_id: [4; 32],
                stored_bytes: b"object-b".to_vec(),
            },
        ],
    )
}

fn sections() -> PayloadSections {
    let (epochs, roots, objects) = entries();
    let leaves = compute_leaves(&epochs, &roots, &objects).unwrap();
    let tree_root = merkle_root(&leaves).unwrap();
    PayloadSections {
        epochs,
        roots,
        objects,
        refs: Vec::new(),
        transactions: Vec::new(),
        compression_profile: 0,
        leaves,
        tree_root,
        signature: None,
    }
}

#[test]
fn payload_round_trips_and_its_tree_verifies() {
    let sections = sections();
    let payload = encode_payload(&sections);
    let decoded = decode_payload(&payload).unwrap();
    assert_eq!(decoded.version, 1);
    assert_eq!(decoded.epochs, sections.epochs);
    assert_eq!(decoded.roots, sections.roots);
    assert_eq!(decoded.objects, sections.objects);
    assert_eq!(decoded.leaves, sections.leaves);
    assert_eq!(decoded.digest_tree_root, sections.tree_root);
    assert!(validate_profile(&decoded).is_ok());
    assert!(verify_digest_tree(&decoded).is_ok());
}

#[test]
fn tree_changes_when_content_changes() {
    let (epochs, roots, objects) = entries();
    let leaves = compute_leaves(&epochs, &roots, &objects).unwrap();
    let mut object = objects[0].clone();
    object.stored_bytes[0] ^= 1;
    let changed = compute_leaves(&epochs, &roots, &[object, objects[1].clone()].to_vec()).unwrap();
    assert_ne!(changed, leaves);
    assert_ne!(merkle_root(&changed).unwrap(), merkle_root(&leaves).unwrap());
}

#[test]
fn altered_object_with_the_old_tree_is_rejected() {
    let mut sections = sections();
    sections.objects[1].stored_bytes.push(0);
    let decoded = decode_payload(&encode_payload(&sections)).unwrap();
    assert_eq!(
        verify_digest_tree(&decoded).unwrap_err().symbol(),
        "PACK_DIGEST_TREE_MISMATCH"
    );
}

#[test]
fn later_profiles_fail_closed() {
    let mut compressed = sections();
    compressed.compression_profile = 1;
    assert_eq!(
        decode_payload(&encode_payload(&compressed)).unwrap_err().symbol(),
        "PACK_COMPRESSION_UNSUPPORTED"
    );
    let mut signed = sections();
    signed.signature = Some(b"signature".to_vec());
    assert_eq!(
        decode_payload(&encode_payload(&signed)).unwrap_err().symbol(),
        "PACK_PROFILE_UNSUPPORTED"
    );
    let mut with_refs = sections();
    with_refs.refs = vec![b"ref".to_vec()];
    assert_eq!(
        decode_payload(&encode_payload(&with_refs)).unwrap_err().symbol(),
        "PACK_PROFILE_UNSUPPORTED"
    );
}

#[test]
fn duplicate_and_unordered_entries_are_rejected() {
    let mut duplicate = sections();
    duplicate.objects[1].object_id = [3; 32];
    assert_eq!(
        decode_payload(&encode_payload(&duplicate)).unwrap_err().symbol(),
        "PACK_DUPLICATE_ENTRY"
    );
    let mut reordered = sections();
    reordered.objects.swap(0, 1);
    assert_eq!(
        decode_payload(&encode_payload(&reordered)).unwrap_err().symbol(),
        "PACK_CANONICAL_ORDER"
    );
    assert_eq!(
        check_id_order(&vec![[1; 32], [1; 32]]).unwrap_err().symbol(),
        "PACK_DUPLICATE_ENTRY"
    );
    assert!(check_id_order(&vec![[1; 32], [2; 32]]).is_ok());
}

#[test]
fn envelope_round_trips_and_detects_tampering() {
    let payload = encode_payload(&sections());
    let epoch = [9u8; 32];
    let pack_id = [7u8; 32];
    let stored = stored_pack_bytes(pack_preimage(&epoch, &payload), &pack_id).unwrap();
    let (read_epoch, read_payload) = decode_envelope(&stored, &pack_id).unwrap();
    assert_eq!(read_epoch, epoch);
    assert_eq!(read_payload, payload);
    assert_eq!(
        decode_envelope(&stored, &[8u8; 32]).unwrap_err().symbol(),
        "PACK_DIGEST_MISMATCH"
    );
    let mut trailing = stored.clone();
    trailing.push(0);
    assert_eq!(
        decode_envelope(&trailing, &pack_id).unwrap_err().symbol(),
        "SCB_TRAILING_BYTES"
    );
}

#[test]
fn nonminimal_outer_varint_is_rejected() {
    let payload = encode_payload(&sections());
    let pack_id = [7u8; 32];
    let mut bytes = stored_pack_bytes(pack_preimage(&[9u8; 32], &payload), &pack_id).unwrap();
    bytes.splice(8..9, [0x81, 0x00]);
    assert_eq!(
        decode_envelope(&bytes, &pack_id).unwrap_err().symbol(),
        "SCB_VARINT_NON_MINIMAL"
    );
}

#[test]
fn counts_and_reserved_sections_are_checked() {
    assert!(check_counts(1, 1, 0).is_ok());
    assert_eq!(
        check_counts(1, 0, 0).unwrap_err().symbol(),
        PackErrorCode::ResourceLimit.as_str()
    );
    assert!(decode_empty_section(&encode_list(&Vec::new())).is_ok());
    assert!(decode_empty_section(&encode_list(&vec![vec![1]])).is_err());
    assert!(decode_absent_signature(&encode_union(0, &[])).is_ok());
    assert_eq!(
        decode_absent_signature(&encode_union(1, b"sig")).unwrap_err().symbol(),
        "PACK_PROFILE_UNSUPPORTED"
    );
    assert_eq!(encode_uvar(300), vec![0xac, 0x02]);
}
