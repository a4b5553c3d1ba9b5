//! Three-way merge of complete roots: failure codes, conflict reasons, the
//! common-ancestor search and the per-identity judgment.

use vstd::prelude::*;

use crate::bytes::bytes_equal;
use crate::compare::{ChangeClass, CompareError};
use crate::digest::digests_view;
use crate::pack::{PackError, PackFault};

verus! {

/// Maximum conflict entries.
pub const MAX_CONFLICT_ENTRIES: usize = 131_070;
/// Maximum plan operations.
pub const MAX_PLAN_OPERATIONS: usize = 131_070;
/// Maximum ancestry entries per side.
pub const MAX_ANCESTRY_NODES: usize = 65_536;
/// Maximum stored conflict bytes.
pub const MAX_CONFLICT_BYTES: usize = 67_108_864;
/// Maximum charged merge work.
pub const MAX_MERGE_WORK: u64 = 100_000_000;

/// Stable merge failure code.
#[derive(Clone, Copy, Debug, PartialEq, Eq, Structural)]
pub enum MergeErrorCode {
    /// `MERGE_NO_COMMON_ANCESTOR`.
    NoCommonAncestor,
    /// `MERGE_ANCESTOR_MISMATCH`.
    AncestorMismatch,
    /// `MERGE_WORKSPACE_MISMATCH`.
    WorkspaceMismatch,
    /// `MERGE_EPOCH_MISMATCH`.
    EpochMismatch,
    /// `MERGE_DEPENDENCY_ROOT_CHANGE_UNSUPPORTED`.
    DependencyRootChangeUnsupported,
    /// `MERGE_COMPARE_FAILED`.
    CompareFailed,
    /// `MERGE_RESOURCE_LIMIT`.
    ResourceLimit,
    /// `MERGE_CONFLICT_FORMAT_INVALID`.
    ConflictFormatInvalid,
    /// `MERGE_CONFLICT_DIGEST_MISMATCH`.
    ConflictDigestMismatch,
    /// `MERGE_CONFLICT_CANONICAL_ORDER`.
    ConflictCanonicalOrder,
    /// `MERGE_CONFLICT_VERSION_UNSUPPORTED`.
    ConflictVersionUnsupported,
    /// `MERGE_PLAN_UNSUPPORTED`.
    PlanUnsupported,
    /// `MERGE_RESULT_MISMATCH`.
    ResultMismatch,
    /// `MERGE_INTERNAL_INVARIANT` (reserved).
    InternalInvariant,
}

impl MergeErrorCode {
    /// Position of the code in numeric order.
    pub open spec fn index(self) -> nat {
        match self {
            MergeErrorCode::NoCommonAncestor => 0,
            MergeErrorCode::AncestorMismatch => 1,
            MergeErrorCode::WorkspaceMismatch => 2,
            MergeErrorCode::EpochMismatch => 3,
            MergeErrorCode::DependencyRootChangeUnsupported => 4,
            MergeErrorCode::CompareFailed => 5,
            MergeErrorCode::ResourceLimit => 6,
            MergeErrorCode::ConflictFormatInvalid => 7,
            MergeErrorCode::ConflictDigestMismatch => 8,
            MergeErrorCode::ConflictCanonicalOrder => 9,
            MergeErrorCode::ConflictVersionUnsupported => 10,
            MergeErrorCode::PlanUnsupported => 11,
            MergeErrorCode::ResultMismatch => 12,
            MergeErrorCode::InternalInvariant => 13,
        }
    }

    /// The stable symbol of each code.
    pub open spec fn symbol(self) -> Seq<char> {
        match self {
            MergeErrorCode::NoCommonAncestor => "MERGE_NO_COMMON_ANCESTOR"@,
            MergeErrorCode::AncestorMismatch => "MERGE_ANCESTOR_MISMATCH"@,
            MergeErrorCode::WorkspaceMismatch => "MERGE_WORKSPACE_MISMATCH"@,
            MergeErrorCode::EpochMismatch => "MERGE_EPOCH_MISMATCH"@,
            MergeErrorCode::DependencyRootChangeUnsupported => "MERGE_DEPENDENCY_ROOT_CHANGE_UNSUPPORTED"@,
            MergeErrorCode::CompareFailed => "MERGE_COMPARE_FAILED"@,
            MergeErrorCode::ResourceLimit => "MERGE_RESOURCE_LIMIT"@,
            MergeErrorCode::ConflictFormatInvalid => "MERGE_CONFLICT_FORMAT_INVALID"@,
            MergeErrorCode::ConflictDigestMismatch => "MERGE_CONFLICT_DIGEST_MISMATCH"@,
            MergeErrorCode::ConflictCanonicalOrder => "MERGE_CONFLICT_CANONICAL_ORDER"@,
            MergeErrorCode::ConflictVersionUnsupported => "MERGE_CONFLICT_VERSION_UNSUPPORTED"@,
            MergeErrorCode::PlanUnsupported => "MERGE_PLAN_UNSUPPORTED"@,
            MergeErrorCode::ResultMismatch => "MERGE_RESULT_MISMATCH"@,
            MergeErrorCode::InternalInvariant => "MERGE_INTERNAL_INVARIANT"@,
        }
    }

    /// Returns the stable symbolic code.
    pub fn as_str(self) -> (s: &'static str)
        ensures
            s@ == self.symbol(),
    {
        match self {
            MergeErrorCode::NoCommonAncestor => "MERGE_NO_COMMON_ANCESTOR",
            MergeErrorCode::AncestorMismatch => "MERGE_ANCESTOR_MISMATCH",
            MergeErrorCode::WorkspaceMismatch => "MERGE_WORKSPACE_MISMATCH",
            MergeErrorCode::EpochMismatch => "MERGE_EPOCH_MISMATCH",
            MergeErrorCode::DependencyRootChangeUnsupported => "MERGE_DEPENDENCY_ROOT_CHANGE_UNSUPPORTED",
            MergeErrorCode::CompareFailed => "MERGE_COMPARE_FAILED",
            MergeErrorCode::ResourceLimit => "MERGE_RESOURCE_LIMIT",
            MergeErrorCode::ConflictFormatInvalid => "MERGE_CONFLICT_FORMAT_INVALID",
            MergeErrorCode::ConflictDigestMismatch => "MERGE_CONFLICT_DIGEST_MISMATCH",
            MergeErrorCode::ConflictCanonicalOrder => "MERGE_CONFLICT_CANONICAL_ORDER",
            MergeErrorCode::ConflictVersionUnsupported => "MERGE_CONFLICT_VERSION_UNSUPPORTED",
            MergeErrorCode::PlanUnsupported => "MERGE_PLAN_UNSUPPORTED",
            MergeErrorCode::ResultMismatch => "MERGE_RESULT_MISMATCH",
            MergeErrorCode::InternalInvariant => "MERGE_INTERNAL_INVARIANT",
        }
    }

    /// Returns the stable numeric code: 52000 plus the code's position.
    pub fn numeric(self) -> (n: u32)
        ensures
            n == 52_000 + self.index(),
    {
        match self {
            MergeErrorCode::NoCommonAncestor => 52_000,
            MergeErrorCode::AncestorMismatch => 52_001,
            MergeErrorCode::WorkspaceMismatch => 52_002,
            MergeErrorCode::EpochMismatch => 52_003,
            MergeErrorCode::DependencyRootChangeUnsupported => 52_004,
            MergeErrorCode::CompareFailed => 52_005,
            MergeErrorCode::ResourceLimit => 52_006,
            MergeErrorCode::ConflictFormatInvalid => 52_007,
            MergeErrorCode::ConflictDigestMismatch => 52_008,
            MergeErrorCode::ConflictCanonicalOrder => 52_009,
            MergeErrorCode::ConflictVersionUnsupported => 52_010,
            MergeErrorCode::PlanUnsupported => 52_011,
            MergeErrorCode::ResultMismatch => 52_012,
            MergeErrorCode::InternalInvariant => 52_013,
        }
    }

    /// Every code in numeric order.
    pub fn all() -> (v: Vec<MergeErrorCode>)
        ensures
            v@.len() == 14,
            forall|i: int| 0 <= i < 14 ==> (#[trigger] v@[i]).index() == i,
    {
        vec![
            MergeErrorCode::NoCommonAncestor,
            MergeErrorCode::AncestorMismatch,
            MergeErrorCode::WorkspaceMismatch,
            MergeErrorCode::EpochMismatch,
            MergeErrorCode::DependencyRootChangeUnsupported,
            MergeErrorCode::CompareFailed,
            MergeErrorCode::ResourceLimit,
            MergeErrorCode::ConflictFormatInvalid,
            MergeErrorCode::ConflictDigestMismatch,
            MergeErrorCode::ConflictCanonicalOrder,
            MergeErrorCode::ConflictVersionUnsupported,
            MergeErrorCode::PlanUnsupported,
            MergeErrorCode::ResultMismatch,
            MergeErrorCode::InternalInvariant,
        ]
    }
}

/// Distinct merge codes have distinct numbers, in a contiguous range from
/// 52000.
pub proof fn lemma_merge_codes_contiguous(a: MergeErrorCode, b: MergeErrorCode)
    ensures
        52_000 <= 52_000 + a.index() <= 52_013,
        a.index() == b.index() <==> a == b,
{
}

/// A preserved commit-path failure: the exact symbol plus the owning
/// layer's numeric code when it froze one.
#[derive(Clone, Debug, PartialEq, Eq)]
pub struct CommitFailure {
    /// Exact source symbol.
    pub symbol: String,
    /// Owning numeric code, when frozen.
    pub numeric: Option<u32>,
}

/// One merge failure with any wrapped lower-layer failure preserved.
#[derive(Clone, Debug, PartialEq, Eq)]
pub enum MergeError {
    /// A plain merge failure.
    Merge(MergeErrorCode),
    /// `MERGE_COMPARE_FAILED` wrapping the exact comparison failure.
    Compare(CompareError),
    /// `MERGE_COMPARE_FAILED` wrapping the exact symbol of a failure to
    /// extract a side's complete root.
    Extraction(String),
    /// `MERGE_CONFLICT_FORMAT_INVALID` wrapping the exact wire or pack
    /// failure.
    Format(PackFault),
    /// A commit-path failure with its exact symbol and numeric code.
    Commit(CommitFailure),
}

impl MergeError {
    /// The stable merge code of the failure (`None` for a preserved
    /// commit-path failure).
    pub open spec fn code_spec(&self) -> Option<MergeErrorCode> {
        match self {
            MergeError::Merge(code) => Some(*code),
            MergeError::Compare(_) | MergeError::Extraction(_) => Some(MergeErrorCode::CompareFailed),
            MergeError::Format(_) => Some(MergeErrorCode::ConflictFormatInvalid),
            MergeError::Commit(_) => None,
        }
    }

    /// The exact symbol of the failure.
    pub open spec fn symbol_spec(&self) -> Seq<char> {
        match self {
            MergeError::Merge(code) => code.symbol(),
            MergeError::Compare(_) | MergeError::Extraction(_) => MergeErrorCode::CompareFailed.symbol(),
            MergeError::Format(_) => MergeErrorCode::ConflictFormatInvalid.symbol(),
            MergeError::Commit(failure) => failure.symbol@,
        }
    }

    /// Returns the stable merge code.
    pub fn code(&self) -> (c: Option<MergeErrorCode>)
        ensures
            c == self.code_spec(),
    {
        match self {
            MergeError::Merge(code) => Some(*code),
            MergeError::Compare(_) | MergeError::Extraction(_) => Some(MergeErrorCode::CompareFailed),
            MergeError::Format(_) => Some(MergeErrorCode::ConflictFormatInvalid),
            MergeError::Commit(_) => None,
        }
    }

    /// Returns the exact symbolic code: the merge code or the preserved one.
    pub fn symbol(&self) -> (s: String)
        ensures
            s@ == self.symbol_spec(),
    {
        match self {
            MergeError::Merge(code) => code.as_str().to_owned(),
            MergeError::Compare(_) | MergeError::Extraction(_) => MergeErrorCode::CompareFailed.as_str().to_owned(),
            MergeError::Format(_) => MergeErrorCode::ConflictFormatInvalid.as_str().to_owned(),
            MergeError::Commit(failure) => failure.symbol.clone(),
        }
    }

    /// Returns the exact wrapped source symbol, if any.
    pub fn source_code(&self) -> (r: Option<String>)
        ensures
            match self {
                MergeError::Merge(_) => r is None,
                MergeError::Compare(c) => r is Some && r->0@ == c.code_spec().symbol(),
                MergeError::Extraction(symbol) => r is Some && r->0@ == symbol@,
                MergeError::Format(f) => r is Some && r->0@ == f.symbol(),
                MergeError::Commit(failure) => r is Some && r->0@ == failure.symbol@,
            },
    {
        match self {
            MergeError::Merge(_) => None,
            MergeError::Compare(c) => Some(c.code().as_str().to_owned()),
            MergeError::Extraction(symbol) => Some(symbol.clone()),
            MergeError::Format(fault) => {
                let e = PackError::from_fault(*fault);
                Some(e.symbol().to_owned())
            },
            MergeError::Commit(failure) => Some(failure.symbol.clone()),
        }
    }

    /// Returns the preserved commit-path numeric code, if the owning layer
    /// froze one.
    pub fn commit_numeric(&self) -> (r: Option<u32>)
        ensures
            match self {
                MergeError::Commit(failure) => r == failure.numeric,
                _ => r is None,
            },
    {
        match self {
            MergeError::Commit(failure) => failure.numeric,
            _ => None,
        }
    }

    /// The failure a comparison of the merge's sides becomes.
    pub fn from_compare(error: CompareError) -> (e: MergeError)
        ensures
            e == MergeError::Compare(error),
            e.code_spec() == Some(MergeErrorCode::CompareFailed),
    {
        MergeError::Compare(error)
    }

    /// The failure a lower-layer pack or wire failure becomes.
    pub fn from_pack(error: PackError) -> (e: MergeError)
        ensures
            e == MergeError::Format(error@),
    {
        MergeError::Format(error.fault())
    }
}

/// Frozen conflict reason.
#[derive(Clone, Copy, Debug, PartialEq, Eq, Structural)]
pub enum ConflictReason {
    /// Both sides added different objects.
    AddAdd,
    /// One side removed, the other edited.
    DeleteEdit,
    /// Both sides changed one field incompatibly.
    FieldEdit,
    /// A kind change met another change.
    KindEdit,
    /// One side changed an entity the other side depends on.
    Collateral,
    /// The merged root failed the complete-root judgment.
    Closure,
    /// Contract or test root anchors differ.
    RootAnchor,
    /// Policy roots differ.
    PolicyRoot,
    /// Both sides changed metadata to different objects.
    MetadataEdit,
}

impl ConflictReason {
    /// The frozen tag of each reason.
    pub open spec fn tag_spec(self) -> u32 {
        match self {
            ConflictReason::AddAdd => 1,
            ConflictReason::DeleteEdit => 2,
            ConflictReason::FieldEdit => 3,
            ConflictReason::KindEdit => 4,
            ConflictReason::Collateral => 5,
            ConflictReason::Closure => 6,
            ConflictReason::RootAnchor => 7,
            ConflictReason::PolicyRoot => 8,
            ConflictReason::MetadataEdit => 9,
        }
    }

    /// Returns the frozen tag.
    pub fn tag(self) -> (t: u32)
        ensures
            t == self.tag_spec(),
    {
        match self {
            ConflictReason::AddAdd => 1,
            ConflictReason::DeleteEdit => 2,
            ConflictReason::FieldEdit => 3,
            ConflictReason::KindEdit => 4,
            ConflictReason::Collateral => 5,
            ConflictReason::Closure => 6,
            ConflictReason::RootAnchor => 7,
            ConflictReason::PolicyRoot => 8,
            ConflictReason::MetadataEdit => 9,
        }
    }

    /// Returns the reason with the frozen `tag`.
    pub fn from_tag(tag: u64) -> (r: Result<ConflictReason, MergeError>)
        ensures
            1 <= tag <= 9 ==> r is Ok && r->Ok_0.tag_spec() == tag,
            !(1 <= tag <= 9) ==> r == Err::<ConflictReason, MergeError>(
                MergeError::Merge(MergeErrorCode::ConflictFormatInvalid),
            ),
    {
        match tag {
            1 => Ok(ConflictReason::AddAdd),
            2 => Ok(ConflictReason::DeleteEdit),
            3 => Ok(ConflictReason::FieldEdit),
            4 => Ok(ConflictReason::KindEdit),
            5 => Ok(ConflictReason::Collateral),
            6 => Ok(ConflictReason::Closure),
            7 => Ok(ConflictReason::RootAnchor),
            8 => Ok(ConflictReason::PolicyRoot),
            9 => Ok(ConflictReason::MetadataEdit),
            _ => Err(MergeError::Merge(MergeErrorCode::ConflictFormatInvalid)),
        }
    }
}

/// Every reason reads back from its tag, and distinct reasons have distinct
/// tags in `1..=9`.
pub proof fn lemma_conflict_reason_tags(a: ConflictReason, b: ConflictReason)
    ensures
        1 <= a.tag_spec() <= 9,
        a.tag_spec() == b.tag_spec() <==> a == b,
{
}

/// A charged work budget.
pub struct Work {
    spent: u64,
}

impl Work {
    /// Work charged so far.
    pub closed spec fn spent(&self) -> nat {
        self.spent as nat
    }

    /// A budget with nothing charged.
    pub fn new() -> (w: Work)
        ensures
            w.spent() == 0,
    {
        Work { spent: 0 }
    }

    /// Work charged so far.
    pub fn total(&self) -> (n: u64)
        ensures
            n == self.spent(),
    {
        self.spent
    }

    /// Charges `amount`, failing once the total passes `MAX_MERGE_WORK`.
    pub fn charge(&mut self, amount: u64) -> (r: Result<(), MergeError>)
        requires
            old(self).spent() <= MAX_MERGE_WORK,
        ensures
            old(self).spent() + amount <= MAX_MERGE_WORK ==> r is Ok && final(self).spent() == old(
                self,
            ).spent() + amount,
            old(self).spent() + amount > MAX_MERGE_WORK ==> r == Err::<(), MergeError>(
                MergeError::Merge(MergeErrorCode::ResourceLimit),
            ) && final(self).spent() == old(self).spent(),
    {
        if amount > MAX_MERGE_WORK - self.spent {
            return Err(MergeError::Merge(MergeErrorCode::ResourceLimit));
        }
        self.spent = self.spent + amount;
        Ok(())
    }
}

/// One head-first ancestry entry: a transaction, its root and its parents.
#[derive(Clone, Debug, PartialEq, Eq)]
pub struct AncestryEntry {
    /// The transaction.
    pub transaction_id: [u8; 32],
    /// Its state root.
    pub state_root: [u8; 32],
    /// Its recorded parents.
    pub parent_transaction_ids: Vec<[u8; 32]>,
}

/// An ancestry entry as values.
pub type AncestryView = (Seq<u8>, Seq<u8>, Seq<Seq<u8>>);

impl View for AncestryEntry {
    type V = AncestryView;

    open spec fn view(&self) -> AncestryView {
        (self.transaction_id@, self.state_root@, digests_view(self.parent_transaction_ids@))
    }
}

/// The views of an ancestry.
pub open spec fn ancestry_views(es: Seq<AncestryEntry>) -> Seq<AncestryView> {
    es.map_values(|e: AncestryEntry| e@)
}

/// Entry `i` of `ours` names a transaction that `theirs` also names.
pub open spec fn shared_at(ours: Seq<AncestryView>, theirs: Seq<AncestryView>, i: int) -> bool {
    exists|j: int| 0 <= j < theirs.len() && theirs[j].0 == ours[i].0
}

fn copy_entry(e: &AncestryEntry) -> (r: AncestryEntry)
    ensures
        r@ == e@,
{
    let mut parents: Vec<[u8; 32]> = Vec::new();
    let mut k: usize = 0;
    while k < e.parent_transaction_ids.len()
        invariant
            k <= e.parent_transaction_ids@.len(),
            parents@ == e.parent_transaction_ids@.take(k as int),
        decreases e.parent_transaction_ids.len() - k,
    {
        parents.push(e.parent_transaction_ids[k]);
        assert(parents@ =~= e.parent_transaction_ids@.take(k + 1));
        k = k + 1;
    }
    assert(parents@ =~= e.parent_transaction_ids@);
    AncestryEntry {
        transaction_id: e.transaction_id,
        state_root: e.state_root,
        parent_transaction_ids: parents,
    }
}

fn names_transaction(entries: &Vec<AncestryEntry>, id: &[u8; 32]) -> (r: bool)
    ensures
        r == exists|j: int| 0 <= j < entries@.len() && entries@[j].transaction_id@ == id@,
{
    let mut j: usize = 0;
    while j < entries.len()
        invariant
            j <= entries@.len(),
            forall|m: int| 0 <= m < j ==> entries@[m].transaction_id@ != id@,
        decreases entries.len() - j,
    {
        if bytes_equal(entries[j].transaction_id.as_slice(), id.as_slice()) {
            return true;
        }
        j = j + 1;
    }
    false
}

/// Finds the common ancestor of two head-first ancestries: the first entry
/// of `ours` whose transaction `theirs` also names.
pub fn find_common_ancestor(ours: &Vec<AncestryEntry>, theirs: &Vec<AncestryEntry>) -> (r: Result<
    AncestryEntry,
    MergeError,
>)
    ensures
        ({
            let a = ancestry_views(ours@);
            let b = ancestry_views(theirs@);
            &&& (ours@.len() > MAX_ANCESTRY_NODES || theirs@.len() > MAX_ANCESTRY_NODES) ==> r
                == Err::<AncestryEntry, MergeError>(MergeError::Merge(MergeErrorCode::ResourceLimit))
            &&& !(ours@.len() > MAX_ANCESTRY_NODES || theirs@.len() > MAX_ANCESTRY_NODES) ==> {
                &&& (forall|i: int| 0 <= i < a.len() ==> !shared_at(a, b, i)) ==> r == Err::<
                    AncestryEntry,
                    MergeError,
                >(MergeError::Merge(MergeErrorCode::NoCommonAncestor))
                &&& (exists|i: int| 0 <= i < a.len() && shared_at(a, b, i)) ==> r is Ok && exists|
                    i: int,
                |
                    0 <= i < a.len() && shared_at(a, b, i) && r->Ok_0@ == a[i] && forall|k: int|
                        0 <= k < i ==> !shared_at(a, b, k)
            }
        }),
{
    if ours.len() > MAX_ANCESTRY_NODES || theirs.len() > MAX_ANCESTRY_NODES {
        return Err(MergeError::Merge(MergeErrorCode::ResourceLimit));
    }
    let ghost a = ancestry_views(ours@);
    let ghost b = ancestry_views(theirs@);
    let mut i: usize = 0;
    while i < ours.len()
        invariant
            i <= ours@.len(),
            ours@.len() <= MAX_ANCESTRY_NODES,
            theirs@.len() <= MAX_ANCESTRY_NODES,
            a == ancestry_views(ours@),
            b == ancestry_views(theirs@),
            forall|k: int| 0 <= k < i ==> !shared_at(a, b, k),
        decreases ours.len() - i,
    {
        let found = names_transaction(theirs, &ours[i].transaction_id);
        proof {
            if found {
                let j = choose|j: int|
                    0 <= j < theirs@.len() && theirs@[j].transaction_id@
                        == ours@[i as int].transaction_id@;
                assert(b[j].0 == a[i as int].0);
            } else {
                assert forall|j: int| 0 <= j < b.len() implies b[j].0 != a[i as int].0 by {
                    assert(b[j].0 == theirs@[j].transaction_id@);
                }
            }
        }
        if found {
            let entry = copy_entry(&ours[i]);
            proof {
                let w = i as int;
                assert(entry@ == a[w]);
                assert(shared_at(a, b, w));
                assert(exists|x: int|
                    0 <= x < a.len() && shared_at(a, b, x) && entry@ == a[x] && forall|k: int|
                        0 <= k < x ==> !shared_at(a, b, k));
            }
            return Ok(entry);
        }
        i = i + 1;
    }
    Err(MergeError::Merge(MergeErrorCode::NoCommonAncestor))
}

/// `id` is the transaction `transaction` names.
pub open spec fn names(transaction: Option<[u8; 32]>, id: Seq<u8>) -> bool {
    match transaction {
        Some(x) => x@ == id,
        None => false,
    }
}

/// Checks the merge precondition: each ancestry is headed by its side's
/// transaction, and the supplied ancestor is their common ancestor.
pub fn verify_merge_ancestor(
    ancestor_transaction: Option<[u8; 32]>,
    ours_transaction: Option<[u8; 32]>,
    theirs_transaction: Option<[u8; 32]>,
    ours_ancestry: &Vec<AncestryEntry>,
    theirs_ancestry: &Vec<AncestryEntry>,
) -> (r: Result<AncestryEntry, MergeError>)
    ensures
        ({
            let a = ancestry_views(ours_ancestry@);
            let b = ancestry_views(theirs_ancestry@);
            let heads_ok = a.len() > 0 && b.len() > 0 && names(ours_transaction, a[0].0) && names(
                theirs_transaction,
                b[0].0,
            );
            &&& (a.len() > MAX_ANCESTRY_NODES || b.len() > MAX_ANCESTRY_NODES) ==> r == Err::<
                AncestryEntry,
                MergeError,
            >(MergeError::Merge(MergeErrorCode::ResourceLimit))
            &&& (a.len() <= MAX_ANCESTRY_NODES && b.len() <= MAX_ANCESTRY_NODES && !heads_ok) ==> r
                == Err::<AncestryEntry, MergeError>(
                MergeError::Merge(MergeErrorCode::InternalInvariant),
            )
            &&& (a.len() <= MAX_ANCESTRY_NODES && b.len() <= MAX_ANCESTRY_NODES && heads_ok) ==> {
                &&& (forall|i: int| 0 <= i < a.len() ==> !shared_at(a, b, i)) ==> r == Err::<
                    AncestryEntry,
                    MergeError,
                >(MergeError::Merge(MergeErrorCode::NoCommonAncestor))
                &&& (exists|i: int| 0 <= i < a.len() && shared_at(a, b, i)) ==> exists|i: int|
                    0 <= i < a.len() && shared_at(a, b, i) && (forall|k: int|
                        0 <= k < i ==> !shared_at(a, b, k)) && if names(ancestor_transaction, a[i].0) {
                        r is Ok && r->Ok_0@ == a[i]
                    } else {
                        r == Err::<AncestryEntry, MergeError>(
                            MergeError::Merge(MergeErrorCode::AncestorMismatch),
                        )
                    }
            }
        }),
{
    if ours_ancestry.len() > MAX_ANCESTRY_NODES || theirs_ancestry.len() > MAX_ANCESTRY_NODES {
        return Err(MergeError::Merge(MergeErrorCode::ResourceLimit));
    }
    let mut work = Work::new();
    work.charge((ours_ancestry.len() + theirs_ancestry.len()) as u64)?;
    if ours_ancestry.len() == 0 || theirs_ancestry.len() == 0 {
        return Err(MergeError::Merge(MergeErrorCode::InternalInvariant));
    }
    let ours_ok = match ours_transaction {
        Some(o) => bytes_equal(o.as_slice(), ours_ancestry[0].transaction_id.as_slice()),
        None => false,
    };
    let theirs_ok = match theirs_transaction {
        Some(t) => bytes_equal(t.as_slice(), theirs_ancestry[0].transaction_id.as_slice()),
        None => false,
    };
    if !ours_ok || !theirs_ok {
        return Err(MergeError::Merge(MergeErrorCode::InternalInvariant));
    }
    let common = find_common_ancestor(ours_ancestry, theirs_ancestry)?;
    let matches = match ancestor_transaction {
        Some(x) => bytes_equal(x.as_slice(), common.transaction_id.as_slice()),
        None => false,
    };
    if !matches {
        return Err(MergeError::Merge(MergeErrorCode::AncestorMismatch));
    }
    Ok(common)
}

/// What one side did to an identity: its change class and the object it
/// binds afterwards.
#[derive(Clone, Copy, Debug, PartialEq, Eq)]
pub struct SideChange {
    /// Change class against the ancestor.
    pub change: ChangeClass,
    /// Object the side binds, `None` when removed.
    pub target_object: Option<[u8; 32]>,
}

/// How the merge treats one identity that at least one side touched.
#[derive(Clone, Copy, Debug, PartialEq, Eq)]
pub enum IdentityDecision {
    /// Bind this object (`None`: remove the identity).
    Bind(Option<[u8; 32]>),
    /// Bind this object; the other side's metadata-only change is
    /// overridden.
    BindOverridingMetadata(Option<[u8; 32]>),
    /// The identity conflicts for this reason.
    Conflict(ConflictReason),
    /// Both sides changed the body: compose field by field.
    Compose,
}

/// Both sides name the same object, or both none.
pub open spec fn same_object(a: Option<[u8; 32]>, b: Option<[u8; 32]>) -> bool {
    match (a, b) {
        (None, None) => true,
        (Some(x), Some(y)) => x@ == y@,
        _ => false,
    }
}

fn objects_equal(a: Option<[u8; 32]>, b: Option<[u8; 32]>) -> (r: bool)
    ensures
        r == same_object(a, b),
{
    match (a, b) {
        (None, None) => true,
        (Some(x), Some(y)) => bytes_equal(x.as_slice(), y.as_slice()),
        _ => false,
    }
}

/// The object a side's change leaves bound.
pub open spec fn resolution(c: SideChange) -> Option<[u8; 32]> {
    if c.change == ChangeClass::Removed {
        None
    } else {
        c.target_object
    }
}

/// The per-identity judgment: one-sided changes are taken, convergent
/// changes are taken once, and divergent changes conflict, override a
/// metadata-only change, or compose.
pub open spec fn judge_identity_spec(ours: Option<SideChange>, theirs: Option<SideChange>) -> Option<
    IdentityDecision,
> {
    match (ours, theirs) {
        (None, None) => None,
        (Some(a), None) => Some(IdentityDecision::Bind(resolution(a))),
        (None, Some(b)) => Some(IdentityDecision::Bind(resolution(b))),
        (Some(a), Some(b)) => Some(
            if a.change == b.change && same_object(a.target_object, b.target_object) {
                IdentityDecision::Bind(resolution(a))
            } else if a.change == ChangeClass::Removed || b.change == ChangeClass::Removed {
                IdentityDecision::Conflict(ConflictReason::DeleteEdit)
            } else if a.change == ChangeClass::Added || b.change == ChangeClass::Added {
                IdentityDecision::Conflict(ConflictReason::AddAdd)
            } else if a.change == ChangeClass::Retyped || b.change == ChangeClass::Retyped {
                IdentityDecision::Conflict(ConflictReason::KindEdit)
            } else if a.change == ChangeClass::MetadataOnly && b.change == ChangeClass::Changed {
                IdentityDecision::BindOverridingMetadata(resolution(b))
            } else if b.change == ChangeClass::MetadataOnly && a.change == ChangeClass::Changed {
                IdentityDecision::BindOverridingMetadata(resolution(a))
            } else if a.change == ChangeClass::MetadataOnly && b.change
                == ChangeClass::MetadataOnly {
                IdentityDecision::Conflict(ConflictReason::MetadataEdit)
            } else {
                IdentityDecision::Compose
            },
        ),
    }
}

/// Judges one identity. An identity neither side touched is an internal
/// invariant failure.
pub fn judge_identity(ours: Option<SideChange>, theirs: Option<SideChange>) -> (r: Result<
    IdentityDecision,
    MergeError,
>)
    ensures
        match judge_identity_spec(ours, theirs) {
            Some(d) => r == Ok::<IdentityDecision, MergeError>(d),
            None => r == Err::<IdentityDecision, MergeError>(
                MergeError::Merge(MergeErrorCode::InternalInvariant),
            ),
        },
{
    match (ours, theirs) {
        (None, None) => Err(MergeError::Merge(MergeErrorCode::InternalInvariant)),
        (Some(a), None) => Ok(IdentityDecision::Bind(side_object(a))),
        (None, Some(b)) => Ok(IdentityDecision::Bind(side_object(b))),
        (Some(a), Some(b)) => {
            if a.change == b.change && objects_equal(a.target_object, b.target_object) {
                Ok(IdentityDecision::Bind(side_object(a)))
            } else if a.change == ChangeClass::Removed || b.change == ChangeClass::Removed {
                Ok(IdentityDecision::Conflict(ConflictReason::DeleteEdit))
            } else if a.change == ChangeClass::Added || b.change == ChangeClass::Added {
                Ok(IdentityDecision::Conflict(ConflictReason::AddAdd))
            } else if a.change == ChangeClass::Retyped || b.change == ChangeClass::Retyped {
                Ok(IdentityDecision::Conflict(ConflictReason::KindEdit))
            } else if a.change == ChangeClass::MetadataOnly && b.change == ChangeClass::Changed {
                Ok(IdentityDecision::BindOverridingMetadata(side_object(b)))
            } else if b.change == ChangeClass::MetadataOnly && a.change == ChangeClass::Changed {
                Ok(IdentityDecision::BindOverridingMetadata(side_object(a)))
            } else if a.change == ChangeClass::MetadataOnly && b.change
                == ChangeClass::MetadataOnly {
                Ok(IdentityDecision::Conflict(ConflictReason::MetadataEdit))
            } else {
                Ok(IdentityDecision::Compose)
            }
        },
    }
}

fn side_object(c: SideChange) -> (r: Option<[u8; 32]>)
    ensures
        r == resolution(c),
{
    if c.change == ChangeClass::Removed {
        None
    } else {
        c.target_object
    }
}

/// Convergent changes merge cleanly: where both sides made the same
/// change to an identity with the same resulting object, both removing it
/// included, the identity takes that outcome (removed where both removed
/// it, bound to the common object otherwise) and never conflicts.
pub proof fn lemma_convergent_changes_bind(ours: SideChange, theirs: SideChange)
    requires
        ours.change == theirs.change,
        ours.target_object == theirs.target_object,
    ensures
        judge_identity_spec(Some(ours), Some(theirs)) == Some(
            IdentityDecision::Bind(
                if ours.change == ChangeClass::Removed {
                    None
                } else {
                    ours.target_object
                },
            ),
        ),
        ours.change == ChangeClass::Removed ==> judge_identity_spec(Some(ours), Some(theirs)) == Some(
            IdentityDecision::Bind(None),
        ),
{
    if let (Some(x), Some(y)) = (ours.target_object, theirs.target_object) {
        assert(x@ == y@);
    }
}

/// A change on one side only is taken: the identity is removed where that
/// side removed it, and bound to that side's object otherwise.
pub proof fn lemma_one_sided_change_taken(c: SideChange)
    ensures
        judge_identity_spec(Some(c), None) == Some(
            IdentityDecision::Bind(
                if c.change == ChangeClass::Removed {
                    None
                } else {
                    c.target_object
                },
            ),
        ),
        judge_identity_spec(None, Some(c)) == judge_identity_spec(Some(c), None),
{
}

/// The judgment of an identity does not depend on which side is ours: it
/// is the same under an ours/theirs swap.
pub proof fn lemma_judge_identity_symmetric(ours: Option<SideChange>, theirs: Option<SideChange>)
    ensures
        judge_identity_spec(ours, theirs) == judge_identity_spec(theirs, ours),
{
    if let (Some(a), Some(b)) = (ours, theirs) {
        if let (Some(x), Some(y)) = (a.target_object, b.target_object) {
            if x@ == y@ {
                assert(x =~= y);
            }
        }
    }
}

/// The kind recorded for a conflicting identity: the ancestor's kind, or,
/// for an identity both sides added, the lesser of the sides' kinds.
pub open spec fn conflict_kind_spec(base: Option<u32>, ours: Option<u32>, theirs: Option<u32>) -> u32 {
    match base {
        Some(k) => k,
        None => match (ours, theirs) {
            (Some(a), Some(b)) => if a <= b {
                a
            } else {
                b
            },
            (Some(a), None) => a,
            (None, Some(b)) => b,
            (None, None) => 0,
        },
    }
}

/// Returns the kind recorded for a conflicting identity.
pub fn conflict_kind(base: Option<u32>, ours: Option<u32>, theirs: Option<u32>) -> (k: u32)
    ensures
        k == conflict_kind_spec(base, ours, theirs),
{
    match base {
        Some(k) => k,
        None => match (ours, theirs) {
            (Some(a), Some(b)) => if a <= b {
                a
            } else {
                b
            },
            (Some(a), None) => a,
            (None, Some(b)) => b,
            (None, None) => 0,
        },
    }
}

/// The recorded kind does not depend on which side is ours.
pub proof fn lemma_conflict_kind_symmetric(base: Option<u32>, ours: Option<u32>, theirs: Option<u32>)
    ensures
        conflict_kind_spec(base, ours, theirs) == conflict_kind_spec(base, theirs, ours),
{
}

/// One conflict entry.
#[derive(Clone, Copy, Debug, PartialEq, Eq)]
pub struct ConflictEntry {
    /// Conflicting identity (all zero for an unattributed conflict).
    pub entity_id: [u8; 32],
    /// Reason.
    pub reason: ConflictReason,
    /// Kind tag, `0` when unknown.
    pub kind: u32,
    /// Field tag for `FieldEdit`, `0` otherwise.
    pub field: u32,
    /// Ours object, if any.
    pub ours_object: Option<[u8; 32]>,
    /// Theirs object, if any.
    pub theirs_object: Option<[u8; 32]>,
    /// Impact code for `Closure`, anchor class for `RootAnchor`, `0`
    /// otherwise.
    pub detail: u32,
}

/// The entry is unattributed: all-zero identity, no kind, field or
/// objects.
pub open spec fn unattributed_entry(e: ConflictEntry) -> bool {
    &&& e.entity_id@ == Seq::new(32, |i: int| 0u8)
    &&& e.kind == 0
    &&& e.field == 0
    &&& e.ours_object is None
    &&& e.theirs_object is None
}

/// The anchor conflicts of a merge as (reason, detail) pairs: one
/// `RootAnchor` entry naming which anchors moved (1 contract, 2 test,
/// 3 both), then one `PolicyRoot` entry when the policy root moved.
pub open spec fn anchor_conflicts_spec(
    contract: (Seq<u8>, Seq<u8>, Seq<u8>),
    test: (Seq<u8>, Seq<u8>, Seq<u8>),
    policy: (Seq<u8>, Seq<u8>, Seq<u8>),
) -> Seq<(ConflictReason, u32)> {
    let contract_moved = contract.1 != contract.0 || contract.2 != contract.0;
    let test_moved = test.1 != test.0 || test.2 != test.0;
    let detail = ((if contract_moved { 1int } else { 0int }) + (if test_moved { 2int } else { 0int })) as u32;
    let anchors = if contract_moved || test_moved {
        seq![(ConflictReason::RootAnchor, detail)]
    } else {
        Seq::empty()
    };
    if policy.1 != policy.0 || policy.2 != policy.0 {
        anchors.push((ConflictReason::PolicyRoot, 0u32))
    } else {
        anchors
    }
}

/// The (reason, detail) pairs of conflict entries.
pub open spec fn reasons_details(es: Seq<ConflictEntry>) -> Seq<(ConflictReason, u32)> {
    es.map_values(|e: ConflictEntry| (e.reason, e.detail))
}

fn unattributed(reason: ConflictReason, detail: u32) -> (e: ConflictEntry)
    ensures
        unattributed_entry(e),
        e.reason == reason,
        e.detail == detail,
{
    let e = ConflictEntry {
        entity_id: [0u8; 32],
        reason,
        kind: 0,
        field: 0,
        ours_object: None,
        theirs_object: None,
        detail,
    };
    assert(e.entity_id@ =~= Seq::new(32, |i: int| 0u8));
    e
}

/// Returns the anchor conflicts of a merge from the ancestor, ours and
/// theirs contract, test and policy roots.
pub fn anchor_conflicts(
    ancestor: (&[u8; 32], &[u8; 32], &[u8; 32]),
    ours: (&[u8; 32], &[u8; 32], &[u8; 32]),
    theirs: (&[u8; 32], &[u8; 32], &[u8; 32]),
) -> (r: Vec<ConflictEntry>)
    ensures
        reasons_details(r@) == anchor_conflicts_spec(
            (ancestor.0@, ours.0@, theirs.0@),
            (ancestor.1@, ours.1@, theirs.1@),
            (ancestor.2@, ours.2@, theirs.2@),
        ),
        forall|i: int| 0 <= i < r@.len() ==> unattributed_entry(#[trigger] r@[i]),
{
    let contract_moved = !bytes_equal(ours.0.as_slice(), ancestor.0.as_slice()) || !bytes_equal(
        theirs.0.as_slice(),
        ancestor.0.as_slice(),
    );
    let test_moved = !bytes_equal(ours.1.as_slice(), ancestor.1.as_slice()) || !bytes_equal(
        theirs.1.as_slice(),
        ancestor.1.as_slice(),
    );
    let mut out: Vec<ConflictEntry> = Vec::new();
    if contract_moved || test_moved {
        let detail: u32 = (if contract_moved { 1u32 } else { 0u32 }) + (if test_moved { 2u32 } else { 0u32 });
        out.push(unattributed(ConflictReason::RootAnchor, detail));
    }
    if !bytes_equal(ours.2.as_slice(), ancestor.2.as_slice()) || !bytes_equal(
        theirs.2.as_slice(),
        ancestor.2.as_slice(),
    ) {
        out.push(unattributed(ConflictReason::PolicyRoot, 0));
    }
    proof {
        let spec = anchor_conflicts_spec(
            (ancestor.0@, ours.0@, theirs.0@),
            (ancestor.1@, ours.1@, theirs.1@),
            (ancestor.2@, ours.2@, theirs.2@),
        );
        assert(reasons_details(out@) =~= spec);
    }
    out
}

/// The anchor conflicts do not depend on which side is ours.
pub proof fn lemma_anchor_conflicts_symmetric(
    contract: (Seq<u8>, Seq<u8>, Seq<u8>),
    test: (Seq<u8>, Seq<u8>, Seq<u8>),
    policy: (Seq<u8>, Seq<u8>, Seq<u8>),
)
    ensures
        anchor_conflicts_spec(contract, test, policy) == anchor_conflicts_spec(
            (contract.0, contract.2, contract.1),
            (test.0, test.2, test.1),
            (policy.0, policy.2, policy.1),
        ),
{
}

} // verus!
