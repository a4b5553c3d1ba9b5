//! Semantic comparison of two complete roots: failure codes, change
//! classes and the canonical delta wire format.

use vstd::prelude::*;

use crate::pack::{PackError, PackFault};

verus! {

/// Maximum stored delta bytes.
pub const MAX_DELTA_BYTES: usize = 67_108_864;
/// Maximum entity deltas.
pub const MAX_ENTITY_DELTAS: usize = 131_070;
/// Maximum field deltas.
pub const MAX_FIELD_DELTAS: usize = 1_048_560;
/// Maximum body deltas.
pub const MAX_BODY_DELTAS: usize = 65_535;
/// Maximum relation deltas.
pub const MAX_RELATION_DELTAS: usize = 8_000_000;
/// Maximum identities in one identity set.
pub const MAX_IDENTITY_SET: usize = 131_070;
/// Maximum charged comparison work.
pub const MAX_COMPARE_WORK: u64 = 100_000_000;

/// Stable comparison failure code.
#[derive(Clone, Copy, Debug, PartialEq, Eq, Structural)]
pub enum CompareErrorCode {
    /// `COMPARE_VERSION_UNSUPPORTED`.
    VersionUnsupported,
    /// `COMPARE_DIGEST_MISMATCH`.
    DigestMismatch,
    /// `COMPARE_CANONICAL_ORDER`.
    CanonicalOrder,
    /// `COMPARE_DUPLICATE_ENTRY`.
    DuplicateEntry,
    /// `COMPARE_FORMAT_INVALID`.
    FormatInvalid,
    /// `COMPARE_WORKSPACE_MISMATCH`.
    WorkspaceMismatch,
    /// `COMPARE_EPOCH_MISMATCH`.
    EpochMismatch,
    /// `COMPARE_ROOT_INCOMPLETE`.
    RootIncomplete,
    /// `COMPARE_INVENTORY_INVALID`.
    InventoryInvalid,
    /// `COMPARE_RESOURCE_LIMIT`.
    ResourceLimit,
    /// `COMPARE_INTERNAL_INVARIANT` (reserved).
    InternalInvariant,
}

impl CompareErrorCode {
    /// Position of the code in numeric order.
    pub open spec fn index(self) -> nat {
        match self {
            CompareErrorCode::VersionUnsupported => 0,
            CompareErrorCode::DigestMismatch => 1,
            CompareErrorCode::CanonicalOrder => 2,
            CompareErrorCode::DuplicateEntry => 3,
            CompareErrorCode::FormatInvalid => 4,
            CompareErrorCode::WorkspaceMismatch => 5,
            CompareErrorCode::EpochMismatch => 6,
            CompareErrorCode::RootIncomplete => 7,
            CompareErrorCode::InventoryInvalid => 8,
            CompareErrorCode::ResourceLimit => 9,
            CompareErrorCode::InternalInvariant => 10,
        }
    }

    /// The stable symbol of each code.
    pub open spec fn symbol(self) -> Seq<char> {
        match self {
            CompareErrorCode::VersionUnsupported => "COMPARE_VERSION_UNSUPPORTED"@,
            CompareErrorCode::DigestMismatch => "COMPARE_DIGEST_MISMATCH"@,
            CompareErrorCode::CanonicalOrder => "COMPARE_CANONICAL_ORDER"@,
            CompareErrorCode::DuplicateEntry => "COMPARE_DUPLICATE_ENTRY"@,
            CompareErrorCode::FormatInvalid => "COMPARE_FORMAT_INVALID"@,
            CompareErrorCode::WorkspaceMismatch => "COMPARE_WORKSPACE_MISMATCH"@,
            CompareErrorCode::EpochMismatch => "COMPARE_EPOCH_MISMATCH"@,
            CompareErrorCode::RootIncomplete => "COMPARE_ROOT_INCOMPLETE"@,
            CompareErrorCode::InventoryInvalid => "COMPARE_INVENTORY_INVALID"@,
            CompareErrorCode::ResourceLimit => "COMPARE_RESOURCE_LIMIT"@,
            CompareErrorCode::InternalInvariant => "COMPARE_INTERNAL_INVARIANT"@,
        }
    }

    /// Returns the stable symbolic code.
    pub fn as_str(self) -> (s: &'static str)
        ensures
            s@ == self.symbol(),
    {
        match self {
            CompareErrorCode::VersionUnsupported => "COMPARE_VERSION_UNSUPPORTED",
            CompareErrorCode::DigestMismatch => "COMPARE_DIGEST_MISMATCH",
            CompareErrorCode::CanonicalOrder => "COMPARE_CANONICAL_ORDER",
            CompareErrorCode::DuplicateEntry => "COMPARE_DUPLICATE_ENTRY",
            CompareErrorCode::FormatInvalid => "COMPARE_FORMAT_INVALID",
            CompareErrorCode::WorkspaceMismatch => "COMPARE_WORKSPACE_MISMATCH",
            CompareErrorCode::EpochMismatch => "COMPARE_EPOCH_MISMATCH",
            CompareErrorCode::RootIncomplete => "COMPARE_ROOT_INCOMPLETE",
            CompareErrorCode::InventoryInvalid => "COMPARE_INVENTORY_INVALID",
            CompareErrorCode::ResourceLimit => "COMPARE_RESOURCE_LIMIT",
            CompareErrorCode::InternalInvariant => "COMPARE_INTERNAL_INVARIANT",
        }
    }

    /// Returns the stable numeric code: 51000 plus the code's position.
    pub fn numeric(self) -> (n: u32)
        ensures
            n == 51_000 + self.index(),
    {
        match self {
            CompareErrorCode::VersionUnsupported => 51_000,
            CompareErrorCode::DigestMismatch => 51_001,
            CompareErrorCode::CanonicalOrder => 51_002,
            CompareErrorCode::DuplicateEntry => 51_003,
            CompareErrorCode::FormatInvalid => 51_004,
            CompareErrorCode::WorkspaceMismatch => 51_005,
            CompareErrorCode::EpochMismatch => 51_006,
            CompareErrorCode::RootIncomplete => 51_007,
            CompareErrorCode::InventoryInvalid => 51_008,
            CompareErrorCode::ResourceLimit => 51_009,
            CompareErrorCode::InternalInvariant => 51_010,
        }
    }

    /// Every code in numeric order.
    pub fn all() -> (v: Vec<CompareErrorCode>)
        ensures
            v@.len() == 11,
            forall|i: int| 0 <= i < 11 ==> (#[trigger] v@[i]).index() == i,
    {
        vec![
            CompareErrorCode::VersionUnsupported,
            CompareErrorCode::DigestMismatch,
            CompareErrorCode::CanonicalOrder,
            CompareErrorCode::DuplicateEntry,
            CompareErrorCode::FormatInvalid,
            CompareErrorCode::WorkspaceMismatch,
            CompareErrorCode::EpochMismatch,
            CompareErrorCode::RootIncomplete,
            CompareErrorCode::InventoryInvalid,
            CompareErrorCode::ResourceLimit,
            CompareErrorCode::InternalInvariant,
        ]
    }
}

/// Distinct comparison codes have distinct numbers, in a contiguous range
/// from 51000.
pub proof fn lemma_compare_codes_contiguous(a: CompareErrorCode, b: CompareErrorCode)
    ensures
        51_000 <= 51_000 + a.index() <= 51_010,
        a.index() == b.index() <==> a == b,
{
}

/// One comparison failure with any wrapped lower-layer failure preserved.
#[derive(Clone, Copy, Debug, PartialEq, Eq, Structural)]
pub enum CompareError {
    /// A plain comparison failure.
    Compare(CompareErrorCode),
    /// `COMPARE_FORMAT_INVALID` wrapping the exact wire or pack failure.
    Format(PackFault),
}

impl CompareError {
    /// The stable comparison code of the failure.
    pub open spec fn code_spec(self) -> CompareErrorCode {
        match self {
            CompareError::Compare(code) => code,
            CompareError::Format(_) => CompareErrorCode::FormatInvalid,
        }
    }

    /// Returns the stable comparison code.
    pub fn code(&self) -> (c: CompareErrorCode)
        ensures
            c == self.code_spec(),
    {
        match self {
            CompareError::Compare(code) => *code,
            CompareError::Format(_) => CompareErrorCode::FormatInvalid,
        }
    }

    /// Returns the exact wrapped source symbol, if any.
    pub fn source_code(&self) -> (r: Option<String>)
        ensures
            match self {
                CompareError::Compare(_) => r is None,
                CompareError::Format(f) => r is Some && r->0@ == f.symbol(),
            },
    {
        match self {
            CompareError::Compare(_) => None,
            CompareError::Format(fault) => {
                let e = PackError::from_fault(*fault);
                Some(e.symbol().to_owned())
            },
        }
    }

    /// The failure a lower-layer pack or wire failure becomes.
    pub fn from_pack(error: PackError) -> (e: CompareError)
        ensures
            e == CompareError::Format(error@),
    {
        CompareError::Format(error.fault())
    }
}

/// Frozen change class of one bound identity.
#[derive(Clone, Copy, Debug, PartialEq, Eq, Structural)]
pub enum ChangeClass {
    /// Bound only by the target.
    Added,
    /// Bound only by the base.
    Removed,
    /// Bound by both with the same kind and different canonical bodies.
    Changed,
    /// Bound by both with different kinds.
    Retyped,
    /// Bound by both with the same body and a different object.
    MetadataOnly,
}

impl ChangeClass {
    /// The frozen tag of each class.
    pub open spec fn tag_spec(self) -> u32 {
        match self {
            ChangeClass::Added => 1,
            ChangeClass::Removed => 2,
            ChangeClass::Changed => 3,
            ChangeClass::Retyped => 4,
            ChangeClass::MetadataOnly => 5,
        }
    }

    /// Returns the frozen tag.
    pub fn tag(self) -> (t: u32)
        ensures
            t == self.tag_spec(),
    {
        match self {
            ChangeClass::Added => 1,
            ChangeClass::Removed => 2,
            ChangeClass::Changed => 3,
            ChangeClass::Retyped => 4,
            ChangeClass::MetadataOnly => 5,
        }
    }

    /// Returns the class with the frozen `tag`.
    pub fn from_tag(tag: u64) -> (r: Result<ChangeClass, CompareError>)
        ensures
            1 <= tag <= 5 ==> r is Ok && r->Ok_0.tag_spec() == tag,
            !(1 <= tag <= 5) ==> r == Err::<ChangeClass, CompareError>(
                CompareError::Compare(CompareErrorCode::FormatInvalid),
            ),
    {
        match tag {
            1 => Ok(ChangeClass::Added),
            2 => Ok(ChangeClass::Removed),
            3 => Ok(ChangeClass::Changed),
            4 => Ok(ChangeClass::Retyped),
            5 => Ok(ChangeClass::MetadataOnly),
            _ => Err(CompareError::Compare(CompareErrorCode::FormatInvalid)),
        }
    }
}

/// Reading a class back from its tag gives the class itself, and distinct
/// classes have distinct tags.
pub proof fn lemma_change_class_tags(a: ChangeClass, b: ChangeClass)
    ensures
        1 <= a.tag_spec() <= 5,
        a.tag_spec() == b.tag_spec() <==> a == b,
{
}

/// Direction of a relation delta.
#[derive(Clone, Copy, Debug, PartialEq, Eq, Structural)]
pub enum RelationChange {
    /// Present only in the target index.
    Added,
    /// Present only in the base index.
    Removed,
}

impl RelationChange {
    /// The frozen tag of each direction.
    pub open spec fn tag_spec(self) -> u32 {
        match self {
            RelationChange::Added => 1,
            RelationChange::Removed => 2,
        }
    }

    /// Returns the frozen tag.
    pub fn tag(self) -> (t: u32)
        ensures
            t == self.tag_spec(),
    {
        match self {
            RelationChange::Added => 1,
            RelationChange::Removed => 2,
        }
    }
}

} // verus!
