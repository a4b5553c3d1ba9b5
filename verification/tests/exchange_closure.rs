use sley_repo::exchange::{ExchangeError, ExchangeErrorCode, ExchangeHeadEntry};
use sley_repo::exchange_closure::{
    dependency_closure, topological_order, verify_closure_rules, verify_no_surplus, PackRootFacts,
    ReceiptFacts,
};
use sley_repo::exchange_budget::{charge_receipt, PreflightBudget};
use sley_repo::gc::GraphNode;
use sley_repo::pack::PackObjectEntry;

fn receipt(t: u8, parents: &[u8], root: u8) -> ReceiptFacts {
    ReceiptFacts {
        transaction_id: [t; 32],
        receipt_id: [t.wrapping_add(100); 32],
        genesis: parents.is_empty(),
        parents: parents.iter().map(|p| [*p; 32]).collect(),
        parent_roots: parents.len(),
        workspace_id: [7; 32],
        committed_root: [root; 32],
    }
}

fn pack_root(root: u8, dependencies: &[u8]) -> PackRootFacts {
    PackRootFacts {
        root: [root; 32],
        dependency_roots: dependencies.iter().map(|d| [*d; 32]).collect(),
    }
}

fn head(t: u8) -> ExchangeHeadEntry {
    ExchangeHeadEntry {
        transaction_id: [t; 32],
        receipt_id: [t.wrapping_add(100); 32],
    }
}

fn code(error: ExchangeError) -> ExchangeErrorCode {
    match error {
        ExchangeError::Exchange(code) => code,
        ExchangeError::Pack(_) => panic!("expected an exchange failure"),
    }
}

#[test]
fn parents_are_ordered_before_children() {
    let receipts = vec![receipt(1, &[], 10), receipt(2, &[3], 12), receipt(3, &[1], 11)];
    let order = topological_order(&receipts).unwrap();
    assert_eq!(order, vec![[1; 32], [3; 32], [2; 32]]);
}

#[test]
fn each_pass_places_what_its_placed_parents_allow_in_input_order() {
    // Pass one places 2, then 3 (whose parent 2 it just placed), and
    // leaves 1 pending behind 3; pass two places 1.
    let receipts = vec![receipt(1, &[3], 10), receipt(2, &[], 12), receipt(3, &[2], 11)];
    let order = topological_order(&receipts).unwrap();
    assert_eq!(order, vec![[2; 32], [3; 32], [1; 32]]);
}

#[test]
fn an_ancestry_cycle_is_refused() {
    let receipts = vec![receipt(1, &[2], 10), receipt(2, &[1], 11)];
    assert_eq!(
        code(topological_order(&receipts).unwrap_err()),
        ExchangeErrorCode::AncestryCycle
    );
}

#[test]
fn closed_history_with_its_root_closure_passes() {
    let receipts = vec![receipt(1, &[], 10), receipt(2, &[1], 11)];
    let pack = vec![pack_root(10, &[]), pack_root(11, &[20]), pack_root(20, &[])];
    assert!(verify_closure_rules(&head(2), &receipts, &pack).is_ok());
}

#[test]
fn closure_rules_keep_their_exact_codes() {
    let receipts = vec![receipt(1, &[], 10), receipt(2, &[1], 11)];
    let pack = vec![pack_root(10, &[]), pack_root(11, &[])];
    let open = vec![receipt(1, &[], 10), receipt(2, &[9], 11)];
    assert_eq!(
        code(verify_closure_rules(&head(2), &open, &pack).unwrap_err()),
        ExchangeErrorCode::AncestryOpen
    );
    let two_geneses = vec![receipt(1, &[], 10), receipt(2, &[], 11)];
    assert_eq!(
        code(verify_closure_rules(&head(2), &two_geneses, &pack).unwrap_err()),
        ExchangeErrorCode::AncestryOpen
    );
    let mut foreign = receipts.clone();
    foreign[1].workspace_id = [8; 32];
    assert_eq!(
        code(verify_closure_rules(&head(2), &foreign, &pack).unwrap_err()),
        ExchangeErrorCode::WorkspaceMismatch
    );
    let mut wrong_head = head(2);
    wrong_head.receipt_id = [0; 32];
    assert_eq!(
        code(verify_closure_rules(&wrong_head, &receipts, &pack).unwrap_err()),
        ExchangeErrorCode::HeadInvalid
    );
    assert_eq!(
        code(verify_closure_rules(&head(5), &receipts, &pack).unwrap_err()),
        ExchangeErrorCode::HeadInvalid
    );
    let surplus = vec![pack_root(10, &[]), pack_root(11, &[]), pack_root(30, &[])];
    assert_eq!(
        code(verify_closure_rules(&head(2), &receipts, &surplus).unwrap_err()),
        ExchangeErrorCode::RootClosure
    );
    let missing = vec![pack_root(10, &[]), pack_root(11, &[20])];
    assert_eq!(
        code(verify_closure_rules(&head(2), &receipts, &missing).unwrap_err()),
        ExchangeErrorCode::RootClosure
    );
}

#[test]
fn dependency_closure_follows_only_known_nodes() {
    let node = |id: u8, refs: &[u8]| GraphNode {
        id: [id; 32],
        references: Some(refs.iter().map(|r| [*r; 32]).collect()),
    };
    let nodes = vec![node(1, &[2, 3]), node(2, &[4]), node(4, &[1])];
    let mut closure = dependency_closure(&nodes, &vec![[1; 32]]);
    closure.sort();
    assert_eq!(closure, vec![[1; 32], [2; 32], [3; 32], [4; 32]]);
}

#[test]
fn receipts_outside_every_named_ancestry_are_surplus() {
    let chain = vec![receipt(1, &[], 11), receipt(2, &[1], 12), receipt(3, &[2], 13)];
    assert_eq!(verify_no_surplus(&chain, &[3; 32], &Vec::new()), Ok(()));
    let mut surplus = chain.clone();
    surplus.push(receipt(9, &[1], 19));
    assert_eq!(
        verify_no_surplus(&surplus, &[3; 32], &Vec::new()),
        Err(ExchangeError::Exchange(ExchangeErrorCode::AncestrySurplus))
    );
    assert_eq!(verify_no_surplus(&surplus, &[3; 32], &vec![[9; 32], [1; 32]]), Ok(()));
}

#[test]
fn preflight_budget_charges_each_new_object_once() {
    let objects = vec![
        PackObjectEntry {
            object_id: [1; 32],
            stored_bytes: vec![0; 10],
        },
        PackObjectEntry {
            object_id: [2; 32],
            stored_bytes: vec![0; 5],
        },
    ];
    let mut budget = PreflightBudget::new();
    assert_eq!(charge_receipt(&mut budget, 7, &vec![[1; 32], [2; 32], [1; 32]], &objects), Ok(()));
    assert_eq!(budget.verified_objects(), &vec![[1; 32], [2; 32]]);
    assert_eq!(charge_receipt(&mut budget, 7, &vec![[2; 32], [3; 32]], &objects), Ok(()));
    assert_eq!(budget.verified_objects(), &vec![[1; 32], [2; 32], [3; 32]]);
    assert_eq!(
        charge_receipt(&mut budget, 1 << 30, &Vec::new(), &objects),
        Err(ExchangeError::Exchange(ExchangeErrorCode::ResourceLimit))
    );
}
