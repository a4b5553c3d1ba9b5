//! The preflight budget of an exchange import: receipts are checked against
//! the embedded pack's objects in topological order, and each one charges
//! its stored bytes, its entity bindings, and the bytes of every object it
//! binds that no earlier receipt bound.

use vstd::prelude::*;

use crate::digest::digests_view;
use crate::exchange::{
    ExchangeError, ExchangeErrorCode, MAX_PREFLIGHT_BINDING_VISITS, MAX_PREFLIGHT_OBJECT_BYTES,
    MAX_PREFLIGHT_OBJECT_VERIFICATIONS, MAX_PREFLIGHT_RECEIPT_BYTES,
};
use crate::gc::contains_id;
use crate::pack::PackObjectEntry;

verus! {

/// What the preflight has charged so far.
pub struct PreflightBudget {
    receipt_bytes: u64,
    binding_visits: u64,
    object_bytes: u64,
    verified: Vec<[u8; 32]>,
}

/// A budget as values: receipt bytes, binding visits, object bytes, and
/// the objects verified so far in the order first bound.
pub type BudgetView = (int, int, int, Seq<Seq<u8>>);

impl PreflightBudget {
    /// The budget as values.
    pub closed spec fn budget(&self) -> BudgetView {
        (self.receipt_bytes as int, self.binding_visits as int, self.object_bytes as int, digests_view(self.verified@))
    }

    /// Nothing charged yet.
    pub fn new() -> (b: PreflightBudget)
        ensures
            b.budget() == (0int, 0int, 0int, Seq::<Seq<u8>>::empty()),
    {
        let b = PreflightBudget { receipt_bytes: 0, binding_visits: 0, object_bytes: 0, verified: Vec::new() };
        assert(digests_view(b.verified@) =~= Seq::<Seq<u8>>::empty());
        b
    }

    /// The objects verified so far.
    pub fn verified_objects(&self) -> (r: &Vec<[u8; 32]>)
        ensures
            digests_view(r@) == self.budget().3,
    {
        &self.verified
    }
}

/// The stored length of the first pack object with identity `id`, zero when
/// the pack has none.
pub open spec fn object_len(objects: Seq<PackObjectEntry>, id: Seq<u8>) -> int
    decreases objects.len(),
{
    if objects.len() == 0 {
        0
    } else if objects[0].object_id@ == id {
        objects[0].stored_bytes@.len() as int
    } else {
        object_len(objects.drop_first(), id)
    }
}

/// Charging the bound objects in turn: an object bound before costs
/// nothing; a new one counts against the verification ceiling and adds its
/// stored length against the object-byte ceiling.
pub open spec fn bindings_fold(
    bindings: Seq<Seq<u8>>,
    objects: Seq<PackObjectEntry>,
    verified: Seq<Seq<u8>>,
    object_bytes: int,
) -> Result<(Seq<Seq<u8>>, int), ExchangeError>
    decreases bindings.len(),
{
    if bindings.len() == 0 {
        Ok((verified, object_bytes))
    } else {
        match bindings_fold(bindings.drop_last(), objects, verified, object_bytes) {
            Err(e) => Err(e),
            Ok((v, ob)) => {
                let x = bindings.last();
                if v.contains(x) {
                    Ok((v, ob))
                } else if v.len() + 1 > MAX_PREFLIGHT_OBJECT_VERIFICATIONS {
                    Err(ExchangeError::Exchange(ExchangeErrorCode::ResourceLimit))
                } else if ob + object_len(objects, x) > MAX_PREFLIGHT_OBJECT_BYTES {
                    Err(ExchangeError::Exchange(ExchangeErrorCode::ResourceLimit))
                } else {
                    Ok((v.push(x), ob + object_len(objects, x)))
                }
            },
        }
    }
}

/// Charging one receipt: its stored bytes, then its binding visits, then
/// its bound objects.
pub open spec fn receipt_charge(
    b: BudgetView,
    stored_len: int,
    bindings: Seq<Seq<u8>>,
    objects: Seq<PackObjectEntry>,
) -> Result<BudgetView, ExchangeError> {
    if b.0 + stored_len > MAX_PREFLIGHT_RECEIPT_BYTES {
        Err(ExchangeError::Exchange(ExchangeErrorCode::ResourceLimit))
    } else if b.1 + bindings.len() > MAX_PREFLIGHT_BINDING_VISITS {
        Err(ExchangeError::Exchange(ExchangeErrorCode::ResourceLimit))
    } else {
        match bindings_fold(bindings, objects, b.3, b.2) {
            Err(e) => Err(e),
            Ok((v, ob)) => Ok((b.0 + stored_len, b.1 + bindings.len(), ob, v)),
        }
    }
}

/// The budget stays within its ceilings.
pub open spec fn within_ceilings(b: BudgetView) -> bool {
    &&& 0 <= b.0 <= MAX_PREFLIGHT_RECEIPT_BYTES
    &&& 0 <= b.1 <= MAX_PREFLIGHT_BINDING_VISITS
    &&& 0 <= b.2 <= MAX_PREFLIGHT_OBJECT_BYTES
    &&& b.3.len() <= MAX_PREFLIGHT_OBJECT_VERIFICATIONS
}

fn stored_len_of(objects: &Vec<PackObjectEntry>, id: &[u8; 32]) -> (r: usize)
    ensures
        r == object_len(objects@, id@),
{
    let mut i: usize = 0;
    assert(objects@.skip(0) =~= objects@);
    while i < objects.len()
        invariant
            i <= objects@.len(),
            object_len(objects@, id@) == object_len(objects@.skip(i as int), id@),
        decreases objects.len() - i,
    {
        let ghost rest = objects@.skip(i as int);
        assert(rest[0] == objects@[i as int]);
        assert(rest.drop_first() =~= objects@.skip(i + 1));
        if crate::bytes::bytes_equal(objects[i].object_id.as_slice(), id.as_slice()) {
            return objects[i].stored_bytes.len();
        }
        i = i + 1;
    }
    0
}

proof fn lemma_bindings_prefix(
    bindings: Seq<Seq<u8>>,
    k: int,
    objects: Seq<PackObjectEntry>,
    verified: Seq<Seq<u8>>,
    ob: int,
)
    requires
        0 <= k <= bindings.len(),
    ensures
        bindings_fold(bindings.take(k), objects, verified, ob) is Err ==> bindings_fold(bindings, objects, verified, ob)
            == bindings_fold(bindings.take(k), objects, verified, ob),
    decreases bindings.len() - k,
{
    if k < bindings.len() {
        lemma_bindings_prefix(bindings, k + 1, objects, verified, ob);
        assert(bindings.take(k + 1).drop_last() =~= bindings.take(k));
    } else {
        assert(bindings.take(k) =~= bindings);
    }
}

/// Charges one receipt of the topological order: its `stored_len` bytes,
/// its entity bindings, and the stored bytes of each bound object not
/// verified before, each against its ceiling. On success the budget
/// becomes the charged one; a receipt that passes a ceiling is the
/// resource limit.
#[verifier::loop_isolation(false)]
pub fn charge_receipt(
    budget: &mut PreflightBudget,
    stored_len: usize,
    bindings: &Vec<[u8; 32]>,
    objects: &Vec<PackObjectEntry>,
) -> (r: Result<(), ExchangeError>)
    requires
        within_ceilings(old(budget).budget()),
    ensures
        match receipt_charge(old(budget).budget(), stored_len as int, digests_view(bindings@), objects@) {
            Ok(b) => r is Ok && final(budget).budget() == b,
            Err(e) => r == Err::<(), ExchangeError>(e),
        },
        within_ceilings(final(budget).budget()),
{
    let ghost bv = digests_view(bindings@);
    let ghost start = budget.budget();
    if stored_len as u64 > MAX_PREFLIGHT_RECEIPT_BYTES || budget.receipt_bytes > MAX_PREFLIGHT_RECEIPT_BYTES
        - stored_len as u64 {
        return Err(ExchangeError::Exchange(ExchangeErrorCode::ResourceLimit));
    }
    if bindings.len() as u64 > MAX_PREFLIGHT_BINDING_VISITS || budget.binding_visits
        > MAX_PREFLIGHT_BINDING_VISITS - bindings.len() as u64 {
        return Err(ExchangeError::Exchange(ExchangeErrorCode::ResourceLimit));
    }
    let mut verified = crate::compare_fields::copy_ids(&budget.verified);
    proof {
        assert(verified@.len() == digests_view(verified@).len());
        assert(budget.verified@.len() == digests_view(budget.verified@).len());
    }
    let mut object_bytes = budget.object_bytes;
    let mut i: usize = 0;
    assert(bv.take(0) =~= Seq::<Seq<u8>>::empty());
    while i < bindings.len()
        invariant
            i <= bindings@.len(),
            bv == digests_view(bindings@),
            bindings_fold(bv.take(i as int), objects@, start.3, start.2) == Ok::<
                (Seq<Seq<u8>>, int),
                ExchangeError,
            >((digests_view(verified@), object_bytes as int)),
            object_bytes <= MAX_PREFLIGHT_OBJECT_BYTES,
            verified@.len() <= MAX_PREFLIGHT_OBJECT_VERIFICATIONS,
        decreases bindings.len() - i,
    {
        let ghost t = bv.take(i + 1);
        proof {
            assert(t.drop_last() =~= bv.take(i as int));
            assert(t.last() == bindings@[i as int]@);
            lemma_bindings_prefix(bv, i + 1, objects@, start.3, start.2);
        }
        let x = bindings[i];
        if !contains_id(&verified, &x) {
            if verified.len() as u64 >= MAX_PREFLIGHT_OBJECT_VERIFICATIONS {
                return Err(ExchangeError::Exchange(ExchangeErrorCode::ResourceLimit));
            }
            let length = stored_len_of(objects, &x) as u64;
            if length > MAX_PREFLIGHT_OBJECT_BYTES - object_bytes {
                return Err(ExchangeError::Exchange(ExchangeErrorCode::ResourceLimit));
            }
            let ghost before = digests_view(verified@);
            verified.push(x);
            proof {
                assert(digests_view(verified@) =~= before.push(x@));
            }
            object_bytes = object_bytes + length;
        }
        i = i + 1;
    }
    proof {
        assert(bv.take(i as int) =~= bv);
    }
    budget.receipt_bytes = budget.receipt_bytes + stored_len as u64;
    budget.binding_visits = budget.binding_visits + bindings.len() as u64;
    budget.object_bytes = object_bytes;
    budget.verified = verified;
    Ok(())
}

} // verus!
