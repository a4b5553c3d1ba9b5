use sley_repo::exchange::{encode_branch_element, ExchangeBranchEntry, ExchangeError, ExchangeErrorCode, ReceiptLink};
use sley_repo::exchange_branch::{canonical_branch_entries, verify_branch_facts, BranchRecordFacts, ReceiptStateFacts};

fn id(byte: u8) -> [u8; 32] {
    [byte; 32]
}

fn record(name: &[u8], workspace: u8, transaction: u8, root: u8) -> BranchRecordFacts {
    BranchRecordFacts {
        branch_name: name.to_vec(),
        workspace_id: id(workspace),
        transaction_id: id(transaction),
        state_root: id(root),
        schema_epoch_id: id(50),
        policy_root_id: id(60),
        dependency_roots: vec![id(70)],
    }
}

fn state(transaction: u8, root: u8) -> ReceiptStateFacts {
    ReceiptStateFacts {
        transaction_id: id(transaction),
        state_root: id(root),
        schema_epoch_id: id(50),
        policy_root_id: id(60),
        dependency_roots: vec![id(70)],
    }
}

fn link(transaction: u8, parents: &[u8]) -> ReceiptLink {
    ReceiptLink { transaction_id: id(transaction), parent_transaction_ids: parents.iter().map(|p| id(*p)).collect() }
}

fn chain() -> (Vec<ReceiptStateFacts>, Vec<ReceiptLink>) {
    (vec![state(1, 11), state(2, 12), state(3, 13)], vec![link(1, &[]), link(2, &[1]), link(3, &[2])])
}

fn code(c: ExchangeErrorCode) -> Result<(), ExchangeError> {
    Err(ExchangeError::Exchange(c))
}

#[test]
fn a_branch_whose_head_descends_from_its_origin_verifies() {
    let (states, links) = chain();
    let origin = record(b"main", 9, 1, 11);
    let head = record(b"main", 9, 3, 13);
    assert_eq!(verify_branch_facts(&b"main".to_vec(), &origin, &head, true, &states, &links, &id(9)), Ok(()));
}

#[test]
fn a_record_naming_another_branch_or_an_unbound_pair_is_invalid() {
    let (states, links) = chain();
    let origin = record(b"main", 9, 1, 11);
    let head = record(b"topic", 9, 3, 13);
    assert_eq!(
        verify_branch_facts(&b"main".to_vec(), &origin, &head, true, &states, &links, &id(9)),
        code(ExchangeErrorCode::BranchInvalid)
    );
    let head = record(b"main", 9, 3, 13);
    assert_eq!(
        verify_branch_facts(&b"main".to_vec(), &origin, &head, false, &states, &links, &id(9)),
        code(ExchangeErrorCode::BranchInvalid)
    );
}

#[test]
fn a_head_without_a_receipt_is_invalid_before_the_workspace_is_checked() {
    let (states, links) = chain();
    let origin = record(b"main", 8, 1, 11);
    let head = record(b"main", 8, 4, 14);
    assert_eq!(
        verify_branch_facts(&b"main".to_vec(), &origin, &head, true, &states, &links, &id(9)),
        code(ExchangeErrorCode::BranchInvalid)
    );
}

#[test]
fn records_of_another_workspace_mismatch() {
    let (states, links) = chain();
    let origin = record(b"main", 9, 1, 11);
    let head = record(b"main", 8, 3, 13);
    assert_eq!(
        verify_branch_facts(&b"main".to_vec(), &origin, &head, true, &states, &links, &id(9)),
        code(ExchangeErrorCode::WorkspaceMismatch)
    );
}

#[test]
fn recorded_facts_must_equal_the_receipts() {
    let (states, links) = chain();
    let origin = record(b"main", 9, 1, 11);
    let mut head = record(b"main", 9, 3, 13);
    head.dependency_roots = vec![id(70), id(71)];
    assert_eq!(
        verify_branch_facts(&b"main".to_vec(), &origin, &head, true, &states, &links, &id(9)),
        code(ExchangeErrorCode::BranchInvalid)
    );
    let head = record(b"main", 9, 3, 12);
    assert_eq!(
        verify_branch_facts(&b"main".to_vec(), &origin, &head, true, &states, &links, &id(9)),
        code(ExchangeErrorCode::BranchInvalid)
    );
}

#[test]
fn an_origin_off_the_first_parent_chain_is_not_a_fast_forward() {
    let (states, links) = chain();
    let origin = record(b"main", 9, 3, 13);
    let head = record(b"main", 9, 1, 11);
    assert_eq!(
        verify_branch_facts(&b"main".to_vec(), &origin, &head, true, &states, &links, &id(9)),
        code(ExchangeErrorCode::BranchNotFastForward)
    );
}

#[test]
fn exported_branches_order_by_encoding_and_drop_repeats() {
    let entry = |name: &[u8], origin: u8| ExchangeBranchEntry {
        branch_name: name.to_vec(),
        stored_origin: vec![origin],
        stored_ref: vec![origin, 1],
    };
    let out = canonical_branch_entries(vec![entry(b"topic", 2), entry(b"main", 1), entry(b"topic", 2)]);
    assert_eq!(out.len(), 2);
    let first = encode_branch_element(&out[0]);
    let second = encode_branch_element(&out[1]);
    assert!(first < second);
    assert_ne!(out[0], out[1]);
}
