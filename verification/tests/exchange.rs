use sley_repo::exchange::{
    decode_branch_entries, decode_head_bytes, embedded_pack_header_is_tag_170,
    encode_branch_element, fast_forward_reachable, stored_head_bytes, ExchangeBranchEntry,
    ExchangeErrorCode, ReceiptLink, HEAD_LEN,
};
use sley_repo::exchange::{compute_leaves, merkle_root, ExchangeHeadEntry, ExchangeReceiptEntry};
use sley_repo::exchange_payload::{
    build_exchange_payload, decode_exchange_envelope, decode_payload, encode_exchange_payload,
    encode_exchange_preimage, verify_digest_tree,
};
use sley_repo::scb::{encode_list, encode_record, encode_union, encode_uvar};

#[test]
fn branch_entries_follow_canonical_set_order_over_the_encoded_element() {
    let name = |length: usize| {
        let mut bytes = vec![b'a'; length];
        if length > 1 {
            bytes[length - 1] = b'z';
        }
        bytes
    };
    let entry = |branch_name: Vec<u8>| ExchangeBranchEntry {
        branch_name,
        stored_origin: vec![1],
        stored_ref: vec![2],
    };
    let mut entries = [
        entry(name(253)),
        entry(b"aa".to_vec()),
        entry(name(128)),
        entry(name(255)),
        entry(b"b".to_vec()),
        entry(name(127)),
        entry(name(254)),
    ]
    .into_iter()
    .map(|entry| (encode_branch_element(&entry), entry))
    .collect::<Vec<_>>();
    entries.sort_by(|left, right| left.0.cmp(&right.0));
    let lengths = entries
        .iter()
        .map(|(_, entry)| entry.branch_name.len())
        .collect::<Vec<_>>();
    assert_eq!(lengths, vec![1, 2, 127, 128, 253, 254, 255]);
}

#[test]
fn branch_section_decodes_in_element_order_only() {
    let first = ExchangeBranchEntry {
        branch_name: b"main".to_vec(),
        stored_origin: vec![1],
        stored_ref: vec![2],
    };
    let second = ExchangeBranchEntry {
        branch_name: b"topic".to_vec(),
        stored_origin: vec![3],
        stored_ref: vec![4],
    };
    let a = encode_branch_element(&first);
    let b = encode_branch_element(&second);
    let (low, high) = if a < b { (a, b) } else { (b, a) };
    let decoded = decode_branch_entries(&encode_list(&vec![low.clone(), high.clone()])).unwrap();
    assert_eq!(decoded.len(), 2);
    assert_eq!(
        decode_branch_entries(&encode_list(&vec![high.clone(), low.clone()])).unwrap_err(),
        sley_repo::exchange::ExchangeError::Exchange(ExchangeErrorCode::CanonicalOrder)
    );
    assert_eq!(
        decode_branch_entries(&encode_list(&vec![low.clone(), low])).unwrap_err(),
        sley_repo::exchange::ExchangeError::Exchange(ExchangeErrorCode::DuplicateEntry)
    );
}

#[test]
fn fixed_head_bytes_round_trip() {
    let transaction = [0x5a; 32];
    let stored = stored_head_bytes(&transaction);
    assert_eq!(stored.len(), HEAD_LEN);
    assert_eq!(decode_head_bytes(&stored), Some(transaction));
    assert_eq!(decode_head_bytes(&stored[..HEAD_LEN - 1]), None);
    let mut altered = stored.clone();
    altered[HEAD_LEN - 1] ^= 1;
    assert_eq!(decode_head_bytes(&altered), None);
}

#[test]
fn embedded_pack_header_must_name_contract_170() {
    let mut header = b"SLEYSCB1".to_vec();
    header.extend_from_slice(&encode_uvar(1));
    header.extend_from_slice(&encode_uvar(170));
    assert!(embedded_pack_header_is_tag_170(&header));
    let mut other = b"SLEYSCB1".to_vec();
    other.extend_from_slice(&encode_uvar(1));
    other.extend_from_slice(&encode_uvar(540));
    assert!(!embedded_pack_header_is_tag_170(&other));
    assert!(!embedded_pack_header_is_tag_170(b"SLEY"));
}

#[test]
fn first_parent_chain_decides_fast_forward() {
    let link = |t: u8, parent: Option<u8>| ReceiptLink {
        transaction_id: [t; 32],
        parent_transaction_ids: parent.map(|p| [p; 32]).into_iter().collect(),
    };
    let links = vec![link(1, None), link(2, Some(1)), link(3, Some(2)), link(9, None)];
    assert!(fast_forward_reachable(&links, &[1; 32], &[3; 32]));
    assert!(fast_forward_reachable(&links, &[3; 32], &[3; 32]));
    assert!(!fast_forward_reachable(&links, &[9; 32], &[3; 32]));
}

fn receipt(t: u8) -> Vec<u8> {
    encode_record(&vec![
        (1, vec![t; 32]),
        (2, vec![t.wrapping_add(1); 32]),
        (3, b"receipt".to_vec()),
    ])
}

fn payload(receipts: Vec<Vec<u8>>, leaves: usize, signature: Vec<u8>) -> Vec<u8> {
    let head = encode_record(&vec![(1, vec![1; 32]), (2, vec![2; 32])]);
    let tree = encode_record(&vec![
        (1, encode_uvar(1)),
        (2, encode_uvar(leaves as u64)),
        (3, encode_list(&vec![vec![7; 32]; leaves])),
        (4, vec![8; 32]),
    ]);
    encode_record(&vec![
        (1, encode_uvar(1)),
        (2, b"pack".to_vec()),
        (3, encode_list(&receipts)),
        (4, head),
        (5, encode_list(&Vec::new())),
        (6, encode_uvar(0)),
        (7, tree),
        (8, signature),
    ])
}

#[test]
fn payload_sections_decode_and_count_their_leaves() {
    let decoded = decode_payload(&payload(vec![receipt(1)], 3, encode_union(0, &[]))).unwrap();
    assert_eq!(decoded.object_pack, b"pack".to_vec());
    assert_eq!(decoded.receipts.len(), 1);
    assert_eq!(decoded.receipts[0].transaction_id, [1; 32]);
    assert_eq!(decoded.accepted_head.receipt_id, [2; 32]);
    assert!(decoded.branches.is_empty());
    assert_eq!(decoded.leaves.len(), 3);
    assert_eq!(decoded.digest_tree_root, [8; 32]);
}

#[test]
fn payload_rejections_keep_their_exact_codes() {
    assert_eq!(
        decode_payload(&payload(vec![receipt(1)], 4, encode_union(0, &[])))
            .unwrap_err()
            .code(),
        "EXCHANGE_DIGEST_TREE_MISMATCH"
    );
    assert_eq!(
        decode_payload(&payload(Vec::new(), 3, encode_union(0, &[])))
            .unwrap_err()
            .code(),
        "EXCHANGE_ANCESTRY_OPEN"
    );
    assert_eq!(
        decode_payload(&payload(vec![receipt(1)], 3, encode_union(1, b"sig")))
            .unwrap_err()
            .code(),
        "EXCHANGE_PROFILE_UNSUPPORTED"
    );
    assert_eq!(
        decode_payload(&payload(vec![receipt(2), receipt(1)], 4, encode_union(0, &[])))
            .unwrap_err()
            .code(),
        "EXCHANGE_CANONICAL_ORDER"
    );
}

#[test]
fn encoded_payload_decodes_to_its_sections() {
    let receipts = vec![ExchangeReceiptEntry {
        transaction_id: [1; 32],
        receipt_id: [2; 32],
        stored_bytes: b"receipt".to_vec(),
    }];
    let head = ExchangeHeadEntry {
        transaction_id: [1; 32],
        receipt_id: [2; 32],
    };
    let branches = vec![ExchangeBranchEntry {
        branch_name: b"main".to_vec(),
        stored_origin: vec![3],
        stored_ref: vec![4],
    }];
    let leaves = vec![[7; 32]; 4];
    let bytes = encode_exchange_payload(b"pack", &receipts, &head, &branches, &leaves, &[8; 32]);
    assert_eq!(
        bytes,
        payload_with_branches(
            vec![receipt_bytes(&receipts[0])],
            vec![encode_branch_element(&branches[0])],
            4
        )
    );
    let decoded = decode_payload(&bytes).unwrap();
    assert_eq!(decoded.object_pack, b"pack".to_vec());
    assert_eq!(decoded.receipts, receipts);
    assert_eq!(decoded.accepted_head, head);
    assert_eq!(decoded.branches, branches);
    assert_eq!(decoded.leaves, leaves);
    assert_eq!(decoded.digest_tree_root, [8; 32]);
}

fn receipt_bytes(entry: &sley_repo::exchange::ExchangeReceiptEntry) -> Vec<u8> {
    encode_record(&vec![
        (1, entry.transaction_id.to_vec()),
        (2, entry.receipt_id.to_vec()),
        (3, entry.stored_bytes.clone()),
    ])
}

fn payload_with_branches(receipts: Vec<Vec<u8>>, branches: Vec<Vec<u8>>, leaves: usize) -> Vec<u8> {
    let head = encode_record(&vec![(1, vec![1; 32]), (2, vec![2; 32])]);
    let tree = encode_record(&vec![
        (1, encode_uvar(1)),
        (2, encode_uvar(leaves as u64)),
        (3, encode_list(&vec![vec![7; 32]; leaves])),
        (4, vec![8; 32]),
    ]);
    encode_record(&vec![
        (1, encode_uvar(1)),
        (2, b"pack".to_vec()),
        (3, encode_list(&receipts)),
        (4, head),
        (5, encode_list(&branches)),
        (6, encode_uvar(0)),
        (7, tree),
        (8, encode_union(0, &[])),
    ])
}

#[test]
fn exchange_envelope_checks_its_identity_trailer() {
    let epoch = [6; 32];
    let preimage = encode_exchange_preimage(&epoch, b"payload").unwrap();
    assert_eq!(&preimage[..8], b"SLEYSCB1");
    let identity = [9; 32];
    let mut stored = preimage.clone();
    stored.extend_from_slice(&identity);
    let (read_epoch, read_payload) = decode_exchange_envelope(&stored, &identity).unwrap();
    assert_eq!(read_epoch, epoch);
    assert_eq!(read_payload, b"payload".to_vec());
    assert_eq!(
        decode_exchange_envelope(&stored, &[10; 32]).unwrap_err().code(),
        "EXCHANGE_DIGEST_MISMATCH"
    );
    let mut longer = stored.clone();
    longer.push(0);
    assert!(decode_exchange_envelope(&longer, &identity).is_err());
    assert!(decode_exchange_envelope(&stored[..stored.len() - 1], &identity).is_err());
}

#[test]
fn declared_digest_tree_must_match_the_sections() {
    let receipts = vec![ExchangeReceiptEntry {
        transaction_id: [1; 32],
        receipt_id: [2; 32],
        stored_bytes: b"receipt".to_vec(),
    }];
    let head = ExchangeHeadEntry {
        transaction_id: [1; 32],
        receipt_id: [2; 32],
    };
    let branches = vec![ExchangeBranchEntry {
        branch_name: b"main".to_vec(),
        stored_origin: vec![3],
        stored_ref: vec![4],
    }];
    let keys = vec![[5; 32]];
    let leaves = compute_leaves(&[9; 32], b"pack", &receipts, &head, &branches, &keys).unwrap();
    assert_eq!(leaves.len(), 4);
    let root = merkle_root(&leaves).unwrap();
    let bytes = encode_exchange_payload(b"pack", &receipts, &head, &branches, &leaves, &root);
    let decoded = decode_payload(&bytes).unwrap();
    assert_eq!(verify_digest_tree(&decoded, &[9; 32], &keys), Ok(()));
    assert_eq!(
        verify_digest_tree(&decoded, &[8; 32], &keys).unwrap_err().code(),
        "EXCHANGE_DIGEST_TREE_MISMATCH"
    );
    let mut wrong_root = decoded.clone();
    wrong_root.digest_tree_root[0] ^= 1;
    assert_eq!(
        verify_digest_tree(&wrong_root, &[9; 32], &keys).unwrap_err().code(),
        "EXCHANGE_DIGEST_TREE_MISMATCH"
    );
}

#[test]
fn built_exchange_passes_its_own_digest_tree_check() {
    let receipts = vec![
        ExchangeReceiptEntry {
            transaction_id: [1; 32],
            receipt_id: [2; 32],
            stored_bytes: b"first".to_vec(),
        },
        ExchangeReceiptEntry {
            transaction_id: [3; 32],
            receipt_id: [4; 32],
            stored_bytes: b"second".to_vec(),
        },
    ];
    let head = ExchangeHeadEntry {
        transaction_id: [3; 32],
        receipt_id: [4; 32],
    };
    let payload = build_exchange_payload(&[9; 32], b"pack", &receipts, &head, &Vec::new(), &Vec::new()).unwrap();
    let decoded = decode_payload(&payload).unwrap();
    assert_eq!(decoded.leaves.len(), 4);
    assert_eq!(verify_digest_tree(&decoded, &[9; 32], &Vec::new()), Ok(()));
    assert_eq!(
        build_exchange_payload(&[9; 32], b"pack", &Vec::new(), &head, &Vec::new(), &Vec::new())
            .unwrap_err()
            .code(),
        "EXCHANGE_RESOURCE_LIMIT"
    );
}
