//! The checks on one exported branch: its origin and ref records name the
//! branch, belong to the exchange's workspace, match the receipts they
//! point at, and its head fast-forwards from its origin.

use vstd::prelude::*;

use crate::bytes::bytes_equal;
use crate::digest::{digests_equal, digests_view};
use crate::exchange::{
    branch_fields, encode_branch_element, fast_forward_reachable, link_views, reachable_spec, ExchangeBranchEntry,
    ExchangeError, ExchangeErrorCode, ReceiptLink,
};
use crate::ordered::{keys_ascending, keys_distinct, sort_by_key, ByteKey};
use crate::scb::enc_record;

verus! {

/// What the branch checks read of an imported branch origin or branch ref
/// record: the branch it names, its workspace, the transaction it points
/// at (the origin transaction or the head transaction) and the facts it
/// records of that transaction's state.
pub struct BranchRecordFacts {
    /// Canonical branch name bytes.
    pub branch_name: Vec<u8>,
    /// Workspace.
    pub workspace_id: [u8; 32],
    /// Origin transaction of an origin record, head transaction of a ref.
    pub transaction_id: [u8; 32],
    /// Recorded state root.
    pub state_root: [u8; 32],
    /// Recorded schema epoch.
    pub schema_epoch_id: [u8; 32],
    /// Recorded policy root.
    pub policy_root_id: [u8; 32],
    /// Recorded dependency roots, in order.
    pub dependency_roots: Vec<[u8; 32]>,
}

/// What the branch checks read of one imported receipt: its transaction
/// and the state it accepted.
pub struct ReceiptStateFacts {
    /// The transaction.
    pub transaction_id: [u8; 32],
    /// Accepted state root.
    pub state_root: [u8; 32],
    /// That root's schema epoch.
    pub schema_epoch_id: [u8; 32],
    /// Accepted policy root.
    pub policy_root_id: [u8; 32],
    /// That root's dependency roots, in order.
    pub dependency_roots: Vec<[u8; 32]>,
}

/// The first receipt of transaction `t`.
pub open spec fn state_of(ss: Seq<ReceiptStateFacts>, t: Seq<u8>) -> Option<ReceiptStateFacts>
    decreases ss.len(),
{
    if ss.len() == 0 {
        None
    } else if ss[0].transaction_id@ == t {
        Some(ss[0])
    } else {
        state_of(ss.drop_first(), t)
    }
}

/// The record's facts are the receipt's.
pub open spec fn facts_match(b: BranchRecordFacts, s: ReceiptStateFacts) -> bool {
    &&& b.state_root@ == s.state_root@
    &&& b.schema_epoch_id@ == s.schema_epoch_id@
    &&& b.policy_root_id@ == s.policy_root_id@
    &&& digests_view(b.dependency_roots@) == digests_view(s.dependency_roots@)
}

/// The outcome of the branch checks, in order: both records name the
/// branch and bind to each other, both transactions have receipts, both
/// records belong to the workspace, both match their receipts, and the
/// head fast-forwards from the origin.
pub open spec fn branch_check_spec(
    name: Seq<u8>,
    origin: BranchRecordFacts,
    reference: BranchRecordFacts,
    binding_valid: bool,
    ss: Seq<ReceiptStateFacts>,
    ls: Seq<(Seq<u8>, Seq<Seq<u8>>)>,
    workspace: Seq<u8>,
) -> Option<ExchangeErrorCode> {
    if origin.branch_name@ != name || reference.branch_name@ != name || !binding_valid {
        Some(ExchangeErrorCode::BranchInvalid)
    } else {
        match (state_of(ss, origin.transaction_id@), state_of(ss, reference.transaction_id@)) {
            (Some(o), Some(h)) => if origin.workspace_id@ != workspace || reference.workspace_id@ != workspace {
                Some(ExchangeErrorCode::WorkspaceMismatch)
            } else if !facts_match(origin, o) || !facts_match(reference, h) {
                Some(ExchangeErrorCode::BranchInvalid)
            } else if !reachable_spec(ls, origin.transaction_id@, reference.transaction_id@) {
                Some(ExchangeErrorCode::BranchNotFastForward)
            } else {
                None
            },
            _ => Some(ExchangeErrorCode::BranchInvalid),
        }
    }
}

fn find_state(ss: &Vec<ReceiptStateFacts>, t: &[u8; 32]) -> (r: Option<usize>)
    ensures
        match r {
            Some(i) => i < ss@.len() && state_of(ss@, t@) == Some(ss@[i as int]),
            None => state_of(ss@, t@) is None,
        },
{
    let mut i: usize = 0;
    assert(ss@.skip(0) =~= ss@);
    while i < ss.len()
        invariant
            i <= ss@.len(),
            state_of(ss@, t@) == state_of(ss@.skip(i as int), t@),
        decreases ss.len() - i,
    {
        let ghost rest = ss@.skip(i as int);
        assert(rest[0] == ss@[i as int]);
        assert(rest.drop_first() =~= ss@.skip(i + 1));
        if bytes_equal(ss[i].transaction_id.as_slice(), t.as_slice()) {
            return Some(i);
        }
        i = i + 1;
    }
    None
}

fn record_matches(b: &BranchRecordFacts, s: &ReceiptStateFacts) -> (r: bool)
    ensures
        r == facts_match(*b, *s),
{
    bytes_equal(b.state_root.as_slice(), s.state_root.as_slice()) && bytes_equal(
        b.schema_epoch_id.as_slice(),
        s.schema_epoch_id.as_slice(),
    ) && bytes_equal(b.policy_root_id.as_slice(), s.policy_root_id.as_slice()) && digests_equal(
        &b.dependency_roots,
        &s.dependency_roots,
    )
}

/// Checks one exported branch whose name, origin record and ref record
/// were imported, given whether the two records bind to each other: the
/// first failing check decides, as `branch_check_spec` orders them.
pub fn verify_branch_facts(
    name: &Vec<u8>,
    origin: &BranchRecordFacts,
    reference: &BranchRecordFacts,
    binding_valid: bool,
    states: &Vec<ReceiptStateFacts>,
    links: &Vec<ReceiptLink>,
    workspace: &[u8; 32],
) -> (r: Result<(), ExchangeError>)
    ensures
        match branch_check_spec(
            name@,
            *origin,
            *reference,
            binding_valid,
            states@,
            link_views(links@),
            workspace@,
        ) {
            None => r is Ok,
            Some(c) => r == Err::<(), ExchangeError>(ExchangeError::Exchange(c)),
        },
{
    if !bytes_equal(origin.branch_name.as_slice(), name.as_slice()) || !bytes_equal(
        reference.branch_name.as_slice(),
        name.as_slice(),
    ) || !binding_valid {
        return Err(ExchangeError::Exchange(ExchangeErrorCode::BranchInvalid));
    }
    let o = match find_state(states, &origin.transaction_id) {
        Some(i) => i,
        None => {
            return Err(ExchangeError::Exchange(ExchangeErrorCode::BranchInvalid));
        },
    };
    let h = match find_state(states, &reference.transaction_id) {
        Some(i) => i,
        None => {
            return Err(ExchangeError::Exchange(ExchangeErrorCode::BranchInvalid));
        },
    };
    if !bytes_equal(origin.workspace_id.as_slice(), workspace.as_slice()) || !bytes_equal(
        reference.workspace_id.as_slice(),
        workspace.as_slice(),
    ) {
        return Err(ExchangeError::Exchange(ExchangeErrorCode::WorkspaceMismatch));
    }
    if !record_matches(origin, &states[o]) || !record_matches(reference, &states[h]) {
        return Err(ExchangeError::Exchange(ExchangeErrorCode::BranchInvalid));
    }
    if !fast_forward_reachable(links, &origin.transaction_id, &reference.transaction_id) {
        return Err(ExchangeError::Exchange(ExchangeErrorCode::BranchNotFastForward));
    }
    Ok(())
}

impl ByteKey for ExchangeBranchEntry {
    /// Branches order by their encoded list element.
    open spec fn sort_key(&self) -> Seq<u8> {
        enc_record(branch_fields(self@))
    }

    fn sort_key_bytes(&self) -> (r: Vec<u8>) {
        encode_branch_element(self)
    }
}

/// The entries in order, each dropped whose encoding an earlier one shares.
pub open spec fn first_of_each(s: Seq<ExchangeBranchEntry>) -> Seq<ExchangeBranchEntry>
    decreases s.len(),
{
    if s.len() == 0 {
        Seq::empty()
    } else {
        let d = first_of_each(s.drop_last());
        if exists|k: int| 0 <= k < d.len() && (#[trigger] d[k]).sort_key() == s.last().sort_key() {
            d
        } else {
            d.push(s.last())
        }
    }
}

proof fn lemma_first_of_each_distinct(s: Seq<ExchangeBranchEntry>)
    ensures
        keys_distinct(first_of_each(s)),
    decreases s.len(),
{
    if s.len() > 0 {
        lemma_first_of_each_distinct(s.drop_last());
        let d = first_of_each(s.drop_last());
        if !(exists|k: int| 0 <= k < d.len() && (#[trigger] d[k]).sort_key() == s.last().sort_key()) {
            let n = d.push(s.last());
            assert forall|i: int, j: int|
                0 <= i < n.len() && 0 <= j < n.len() && i != j implies #[trigger] n[i].sort_key() != #[trigger] n[j].sort_key() by {
                if i == d.len() {
                    assert(n[j] == d[j]);
                } else if j == d.len() {
                    assert(n[i] == d[i]);
                } else {
                    assert(n[i] == d[i] && n[j] == d[j]);
                }
            }
        }
    }
}

fn has_key(keys: &Vec<Vec<u8>>, key: &Vec<u8>) -> (r: bool)
    ensures
        r == exists|k: int| 0 <= k < keys@.len() && (#[trigger] keys@[k])@ == key@,
{
    let mut k: usize = 0;
    while k < keys.len()
        invariant
            k <= keys@.len(),
            forall|m: int| 0 <= m < k ==> keys@[m]@ != key@,
        decreases keys.len() - k,
    {
        if bytes_equal(keys[k].as_slice(), key.as_slice()) {
            assert(keys@[k as int]@ == key@);
            return true;
        }
        k = k + 1;
    }
    false
}

/// Puts exported branch entries in canonical order: ascending by their
/// encoded list element, an entry dropped whose encoding an earlier one
/// shares.
pub fn canonical_branch_entries(entries: Vec<ExchangeBranchEntry>) -> (r: Vec<ExchangeBranchEntry>)
    ensures
        keys_ascending(r@),
        r@.to_multiset() == first_of_each(entries@).to_multiset(),
{
    let ghost original = entries@;
    let mut rest = entries;
    let mut firsts: Vec<ExchangeBranchEntry> = Vec::new();
    let mut keys: Vec<Vec<u8>> = Vec::new();
    let mut taken: usize = 0;
    assert(original.take(0) =~= Seq::<ExchangeBranchEntry>::empty());
    assert(original.len() == rest.len());
    while rest.len() > 0
        invariant
            original.len() <= usize::MAX,
            taken + rest@.len() == original.len(),
            rest@ == original.skip(taken as int),
            firsts@ == first_of_each(original.take(taken as int)),
            keys@.len() == firsts@.len(),
            forall|k: int| 0 <= k < keys@.len() ==> (#[trigger] keys@[k])@ == firsts@[k].sort_key(),
        decreases rest@.len(),
    {
        let e = rest.remove(0);
        proof {
            assert(e == original[taken as int]);
            assert(rest@ =~= original.skip(taken + 1));
            let t = original.take(taken + 1);
            assert(t.drop_last() =~= original.take(taken as int));
            assert(t.last() == e);
        }
        let key = e.sort_key_bytes();
        let seen = has_key(&keys, &key);
        proof {
            let d = firsts@;
            if seen {
                let k = choose|k: int| 0 <= k < keys@.len() && (#[trigger] keys@[k])@ == key@;
                assert(d[k].sort_key() == e.sort_key());
            } else {
                assert forall|k: int| 0 <= k < d.len() implies (#[trigger] d[k]).sort_key() != e.sort_key() by {
                    assert(keys@[k]@ == d[k].sort_key());
                }
            }
        }
        if !seen {
            let ghost before = firsts@;
            let ghost kb = keys@;
            firsts.push(e);
            keys.push(key);
            proof {
                assert(firsts@ =~= before.push(e));
                assert forall|k: int| 0 <= k < keys@.len() implies (#[trigger] keys@[k])@ == firsts@[k].sort_key() by {
                    if k < kb.len() {
                        assert(keys@[k] == kb[k]);
                    }
                }
            }
        }
        taken = taken + 1;
    }
    proof {
        assert(original.take(taken as int) =~= original);
        lemma_first_of_each_distinct(original);
    }
    sort_by_key(firsts)
}

} // verus!
