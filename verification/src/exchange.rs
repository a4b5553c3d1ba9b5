//! Repository exchange (contract tag 540): failure codes, the fixed accepted
//! head, and the receipt, head, branch and digest-tree sections.

use vstd::prelude::*;

use crate::bytes::{append_bytes, bytes_equal, compare_bytes, copy_range, lex, ByteOrder};
use crate::digest::{blake3_digest, blake3_hash, digests_view};
use crate::pack::{id_order_spec, PackError, PackErrorCode, PackFault};
use crate::pack_envelope::magic;
use crate::pack_tree::ascii_bytes;
use crate::scb::{
    decode_list, decode_list_spec, enc_record, encode_record, encode_uvar, exact_array, field_step,
    finish_spec, read_uvar_spec, record_start, uvar_bytes, Reader, RecordReader, ScbErrorCode,
};

verus! {

/// Maximum stored exchange bytes.
pub const MAX_EXCHANGE_BYTES: usize = 67_108_864;
/// Maximum embedded pack bytes.
pub const MAX_EMBEDDED_PACK_BYTES: usize = 16_777_216;
/// Maximum receipt entries.
pub const MAX_EXCHANGE_RECEIPTS: usize = 4_096;
/// Maximum branch entries.
pub const MAX_EXCHANGE_BRANCHES: usize = 4_096;
/// Maximum digest leaves.
pub const MAX_EXCHANGE_LEAVES: usize = 8_194;
/// Maximum expanded bytes.
pub const MAX_EXCHANGE_ALLOCATION: usize = 134_217_728;
/// Maximum object verifications during preflight.
pub const MAX_PREFLIGHT_OBJECT_VERIFICATIONS: u64 = 2_097_152;
/// Maximum binding visits during preflight.
pub const MAX_PREFLIGHT_BINDING_VISITS: u64 = 4_194_304;
/// Maximum object bytes read during preflight.
pub const MAX_PREFLIGHT_OBJECT_BYTES: u64 = 1_073_741_824;
/// Maximum receipt bytes read during preflight.
pub const MAX_PREFLIGHT_RECEIPT_BYTES: u64 = 1_073_741_824;
/// Length of the fixed accepted-head value.
pub const HEAD_LEN: usize = 73;

/// Stable repository-exchange failure code.
#[derive(Clone, Copy, Debug, PartialEq, Eq, Structural)]
pub enum ExchangeErrorCode {
    /// `EXCHANGE_VERSION_UNSUPPORTED`.
    VersionUnsupported,
    /// `EXCHANGE_DIGEST_MISMATCH`.
    DigestMismatch,
    /// `EXCHANGE_DIGEST_TREE_MISMATCH`.
    DigestTreeMismatch,
    /// `EXCHANGE_CANONICAL_ORDER`.
    CanonicalOrder,
    /// `EXCHANGE_DUPLICATE_ENTRY`.
    DuplicateEntry,
    /// `EXCHANGE_PACK_INVALID`.
    PackInvalid,
    /// `EXCHANGE_RECEIPT_INVALID`.
    ReceiptInvalid,
    /// `EXCHANGE_ANCESTRY_OPEN`.
    AncestryOpen,
    /// `EXCHANGE_ANCESTRY_CYCLE`.
    AncestryCycle,
    /// `EXCHANGE_ANCESTRY_SURPLUS`.
    AncestrySurplus,
    /// `EXCHANGE_HEAD_INVALID`.
    HeadInvalid,
    /// `EXCHANGE_BRANCH_INVALID`.
    BranchInvalid,
    /// `EXCHANGE_BRANCH_NOT_FAST_FORWARD`.
    BranchNotFastForward,
    /// `EXCHANGE_TARGET_NOT_EMPTY`.
    TargetNotEmpty,
    /// `EXCHANGE_TARGET_INCOMPLETE_MISMATCH`.
    TargetIncompleteMismatch,
    /// `EXCHANGE_RESOURCE_LIMIT`.
    ResourceLimit,
    /// `EXCHANGE_COMPRESSION_UNSUPPORTED`.
    CompressionUnsupported,
    /// `EXCHANGE_PROFILE_UNSUPPORTED`.
    ProfileUnsupported,
    /// `EXCHANGE_IO`.
    Io,
    /// `EXCHANGE_INTERNAL_INVARIANT`.
    InternalInvariant,
    /// `EXCHANGE_ROOT_CLOSURE`.
    RootClosure,
    /// `EXCHANGE_WORKSPACE_MISMATCH`.
    WorkspaceMismatch,
}

impl ExchangeErrorCode {
    /// Position of the code in numeric order.
    pub open spec fn index(self) -> nat {
        match self {
            ExchangeErrorCode::VersionUnsupported => 0,
            ExchangeErrorCode::DigestMismatch => 1,
            ExchangeErrorCode::DigestTreeMismatch => 2,
            ExchangeErrorCode::CanonicalOrder => 3,
            ExchangeErrorCode::DuplicateEntry => 4,
            ExchangeErrorCode::PackInvalid => 5,
            ExchangeErrorCode::ReceiptInvalid => 6,
            ExchangeErrorCode::AncestryOpen => 7,
            ExchangeErrorCode::AncestryCycle => 8,
            ExchangeErrorCode::AncestrySurplus => 9,
            ExchangeErrorCode::HeadInvalid => 10,
            ExchangeErrorCode::BranchInvalid => 11,
            ExchangeErrorCode::BranchNotFastForward => 12,
            ExchangeErrorCode::TargetNotEmpty => 13,
            ExchangeErrorCode::TargetIncompleteMismatch => 14,
            ExchangeErrorCode::ResourceLimit => 15,
            ExchangeErrorCode::CompressionUnsupported => 16,
            ExchangeErrorCode::ProfileUnsupported => 17,
            ExchangeErrorCode::Io => 18,
            ExchangeErrorCode::InternalInvariant => 19,
            ExchangeErrorCode::RootClosure => 20,
            ExchangeErrorCode::WorkspaceMismatch => 21,
        }
    }

    /// The stable symbol of each code.
    pub open spec fn symbol(self) -> Seq<char> {
        match self {
            ExchangeErrorCode::VersionUnsupported => "EXCHANGE_VERSION_UNSUPPORTED"@,
            ExchangeErrorCode::DigestMismatch => "EXCHANGE_DIGEST_MISMATCH"@,
            ExchangeErrorCode::DigestTreeMismatch => "EXCHANGE_DIGEST_TREE_MISMATCH"@,
            ExchangeErrorCode::CanonicalOrder => "EXCHANGE_CANONICAL_ORDER"@,
            ExchangeErrorCode::DuplicateEntry => "EXCHANGE_DUPLICATE_ENTRY"@,
            ExchangeErrorCode::PackInvalid => "EXCHANGE_PACK_INVALID"@,
            ExchangeErrorCode::ReceiptInvalid => "EXCHANGE_RECEIPT_INVALID"@,
            ExchangeErrorCode::AncestryOpen => "EXCHANGE_ANCESTRY_OPEN"@,
            ExchangeErrorCode::AncestryCycle => "EXCHANGE_ANCESTRY_CYCLE"@,
            ExchangeErrorCode::AncestrySurplus => "EXCHANGE_ANCESTRY_SURPLUS"@,
            ExchangeErrorCode::HeadInvalid => "EXCHANGE_HEAD_INVALID"@,
            ExchangeErrorCode::BranchInvalid => "EXCHANGE_BRANCH_INVALID"@,
            ExchangeErrorCode::BranchNotFastForward => "EXCHANGE_BRANCH_NOT_FAST_FORWARD"@,
            ExchangeErrorCode::TargetNotEmpty => "EXCHANGE_TARGET_NOT_EMPTY"@,
            ExchangeErrorCode::TargetIncompleteMismatch => "EXCHANGE_TARGET_INCOMPLETE_MISMATCH"@,
            ExchangeErrorCode::ResourceLimit => "EXCHANGE_RESOURCE_LIMIT"@,
            ExchangeErrorCode::CompressionUnsupported => "EXCHANGE_COMPRESSION_UNSUPPORTED"@,
            ExchangeErrorCode::ProfileUnsupported => "EXCHANGE_PROFILE_UNSUPPORTED"@,
            ExchangeErrorCode::Io => "EXCHANGE_IO"@,
            ExchangeErrorCode::InternalInvariant => "EXCHANGE_INTERNAL_INVARIANT"@,
            ExchangeErrorCode::RootClosure => "EXCHANGE_ROOT_CLOSURE"@,
            ExchangeErrorCode::WorkspaceMismatch => "EXCHANGE_WORKSPACE_MISMATCH"@,
        }
    }

    /// Returns the exact stable symbol.
    pub fn as_str(self) -> (s: &'static str)
        ensures
            s@ == self.symbol(),
    {
        match self {
            ExchangeErrorCode::VersionUnsupported => "EXCHANGE_VERSION_UNSUPPORTED",
            ExchangeErrorCode::DigestMismatch => "EXCHANGE_DIGEST_MISMATCH",
            ExchangeErrorCode::DigestTreeMismatch => "EXCHANGE_DIGEST_TREE_MISMATCH",
            ExchangeErrorCode::CanonicalOrder => "EXCHANGE_CANONICAL_ORDER",
            ExchangeErrorCode::DuplicateEntry => "EXCHANGE_DUPLICATE_ENTRY",
            ExchangeErrorCode::PackInvalid => "EXCHANGE_PACK_INVALID",
            ExchangeErrorCode::ReceiptInvalid => "EXCHANGE_RECEIPT_INVALID",
            ExchangeErrorCode::AncestryOpen => "EXCHANGE_ANCESTRY_OPEN",
            ExchangeErrorCode::AncestryCycle => "EXCHANGE_ANCESTRY_CYCLE",
            ExchangeErrorCode::AncestrySurplus => "EXCHANGE_ANCESTRY_SURPLUS",
            ExchangeErrorCode::HeadInvalid => "EXCHANGE_HEAD_INVALID",
            ExchangeErrorCode::BranchInvalid => "EXCHANGE_BRANCH_INVALID",
            ExchangeErrorCode::BranchNotFastForward => "EXCHANGE_BRANCH_NOT_FAST_FORWARD",
            ExchangeErrorCode::TargetNotEmpty => "EXCHANGE_TARGET_NOT_EMPTY",
            ExchangeErrorCode::TargetIncompleteMismatch => "EXCHANGE_TARGET_INCOMPLETE_MISMATCH",
            ExchangeErrorCode::ResourceLimit => "EXCHANGE_RESOURCE_LIMIT",
            ExchangeErrorCode::CompressionUnsupported => "EXCHANGE_COMPRESSION_UNSUPPORTED",
            ExchangeErrorCode::ProfileUnsupported => "EXCHANGE_PROFILE_UNSUPPORTED",
            ExchangeErrorCode::Io => "EXCHANGE_IO",
            ExchangeErrorCode::InternalInvariant => "EXCHANGE_INTERNAL_INVARIANT",
            ExchangeErrorCode::RootClosure => "EXCHANGE_ROOT_CLOSURE",
            ExchangeErrorCode::WorkspaceMismatch => "EXCHANGE_WORKSPACE_MISMATCH",
        }
    }

    /// Returns the frozen numeric code: 54000 plus the code's position.
    pub fn numeric(self) -> (n: u32)
        ensures
            n == 54_000 + self.index(),
    {
        match self {
            ExchangeErrorCode::VersionUnsupported => 54_000,
            ExchangeErrorCode::DigestMismatch => 54_001,
            ExchangeErrorCode::DigestTreeMismatch => 54_002,
            ExchangeErrorCode::CanonicalOrder => 54_003,
            ExchangeErrorCode::DuplicateEntry => 54_004,
            ExchangeErrorCode::PackInvalid => 54_005,
            ExchangeErrorCode::ReceiptInvalid => 54_006,
            ExchangeErrorCode::AncestryOpen => 54_007,
            ExchangeErrorCode::AncestryCycle => 54_008,
            ExchangeErrorCode::AncestrySurplus => 54_009,
            ExchangeErrorCode::HeadInvalid => 54_010,
            ExchangeErrorCode::BranchInvalid => 54_011,
            ExchangeErrorCode::BranchNotFastForward => 54_012,
            ExchangeErrorCode::TargetNotEmpty => 54_013,
            ExchangeErrorCode::TargetIncompleteMismatch => 54_014,
            ExchangeErrorCode::ResourceLimit => 54_015,
            ExchangeErrorCode::CompressionUnsupported => 54_016,
            ExchangeErrorCode::ProfileUnsupported => 54_017,
            ExchangeErrorCode::Io => 54_018,
            ExchangeErrorCode::InternalInvariant => 54_019,
            ExchangeErrorCode::RootClosure => 54_020,
            ExchangeErrorCode::WorkspaceMismatch => 54_021,
        }
    }

    /// Every code in frozen numeric order.
    pub fn all() -> (v: Vec<ExchangeErrorCode>)
        ensures
            v@.len() == 22,
            forall|i: int| 0 <= i < 22 ==> (#[trigger] v@[i]).index() == i,
    {
        vec![
            ExchangeErrorCode::VersionUnsupported,
            ExchangeErrorCode::DigestMismatch,
            ExchangeErrorCode::DigestTreeMismatch,
            ExchangeErrorCode::CanonicalOrder,
            ExchangeErrorCode::DuplicateEntry,
            ExchangeErrorCode::PackInvalid,
            ExchangeErrorCode::ReceiptInvalid,
            ExchangeErrorCode::AncestryOpen,
            ExchangeErrorCode::AncestryCycle,
            ExchangeErrorCode::AncestrySurplus,
            ExchangeErrorCode::HeadInvalid,
            ExchangeErrorCode::BranchInvalid,
            ExchangeErrorCode::BranchNotFastForward,
            ExchangeErrorCode::TargetNotEmpty,
            ExchangeErrorCode::TargetIncompleteMismatch,
            ExchangeErrorCode::ResourceLimit,
            ExchangeErrorCode::CompressionUnsupported,
            ExchangeErrorCode::ProfileUnsupported,
            ExchangeErrorCode::Io,
            ExchangeErrorCode::InternalInvariant,
            ExchangeErrorCode::RootClosure,
            ExchangeErrorCode::WorkspaceMismatch,
        ]
    }
}

/// Exchange codes are closed and contiguous: distinct codes have distinct
/// numbers, all in `54000..=54021`.
pub proof fn lemma_exchange_codes_contiguous(a: ExchangeErrorCode, b: ExchangeErrorCode)
    ensures
        54_000 <= 54_000 + a.index() <= 54_021,
        a.index() == b.index() <==> a == b,
{
}

/// Exact repository-exchange failure preserving lower-layer failures.
#[derive(Clone, Copy, Debug, PartialEq, Eq, Structural)]
pub enum ExchangeError {
    /// An exchange-owned failure.
    Exchange(ExchangeErrorCode),
    /// An exact embedded-pack or wire failure.
    Pack(PackFault),
}

impl ExchangeError {
    /// The exact stable source symbol.
    pub open spec fn symbol(self) -> Seq<char> {
        match self {
            ExchangeError::Exchange(code) => code.symbol(),
            ExchangeError::Pack(f) => f.symbol(),
        }
    }

    /// Returns the exact stable source symbol without collapsing namespaces.
    pub fn code(&self) -> (s: &'static str)
        ensures
            s@ == self.symbol(),
    {
        match self {
            ExchangeError::Exchange(code) => code.as_str(),
            ExchangeError::Pack(fault) => PackError::from_fault(*fault).symbol(),
        }
    }

    /// Returns the owning numeric code when one is frozen.
    pub fn numeric_code(&self) -> (n: Option<u32>)
        ensures
            match self {
                ExchangeError::Exchange(code) => n == Some((54_000 + code.index()) as u32),
                ExchangeError::Pack(_) => n is None,
            },
    {
        match self {
            ExchangeError::Exchange(code) => Some(code.numeric()),
            ExchangeError::Pack(_) => None,
        }
    }
}

/// A lower-layer result with its failure preserved as a pack failure.
pub open spec fn via_pack<T>(r: Result<T, PackFault>) -> Result<T, ExchangeError> {
    match r {
        Ok(v) => Ok(v),
        Err(f) => Err(ExchangeError::Pack(f)),
    }
}

fn lift<T>(r: Result<T, PackError>) -> (out: Result<T, ExchangeError>)
    ensures
        match r {
            Ok(v) => out == Ok::<T, ExchangeError>(v),
            Err(e) => out == Err::<T, ExchangeError>(ExchangeError::Pack(e@)),
        },
{
    match r {
        Ok(v) => Ok(v),
        Err(e) => Err(ExchangeError::Pack(e.fault())),
    }
}

/// Reading a 32-byte identity field.
pub open spec fn id_field(v: Seq<u8>) -> Result<Seq<u8>, ExchangeError> {
    if v.len() == 32 {
        Ok(v)
    } else {
        Err(ExchangeError::Pack(PackFault::Scb(ScbErrorCode::LengthOverflow)))
    }
}

fn id_value(input: &[u8]) -> (r: Result<[u8; 32], ExchangeError>)
    ensures
        match id_field(input@) {
            Ok(v) => r is Ok && r->Ok_0@ == v,
            Err(e) => r == Err::<[u8; 32], ExchangeError>(e),
        },
{
    lift(exact_array(input))
}

// ---------------------------------------------------------------------------
// The fixed accepted head.
// ---------------------------------------------------------------------------

/// Leading magic of the fixed accepted-head value.
pub open spec fn head_magic() -> Seq<u8> {
    ascii_bytes("SLEYHD01"@)
}

/// Domain separator of the accepted-head digest.
pub open spec fn head_domain() -> Seq<u8> {
    ascii_bytes("sley2.accepted-head.v1"@)
}

fn head_magic_bytes() -> (r: &'static [u8])
    ensures
        r@ == head_magic(),
{
    let text = "SLEYHD01";
    proof {
        reveal_strlit("SLEYHD01");
        vstd::string::is_ascii_spec_bytes(text);
    }
    let r = text.as_bytes();
    assert(r@ =~= head_magic());
    r
}

fn head_domain_bytes() -> (r: &'static [u8])
    ensures
        r@ == head_domain(),
{
    let text = "sley2.accepted-head.v1";
    proof {
        reveal_strlit("sley2.accepted-head.v1");
        vstd::string::is_ascii_spec_bytes(text);
    }
    let r = text.as_bytes();
    assert(r@ =~= head_domain());
    r
}

/// The fixed accepted-head value of transaction `t`: magic, version 1, the
/// transaction, and the digest of all that under the head domain.
pub open spec fn head_bytes(t: Seq<u8>) -> Seq<u8> {
    let prefix = head_magic() + uvar_bytes(1) + t;
    prefix + blake3_hash(head_domain() + prefix)
}

/// Computes the fixed accepted-head value of a head transaction.
pub fn stored_head_bytes(transaction_id: &[u8; 32]) -> (r: Vec<u8>)
    ensures
        r@ == head_bytes(transaction_id@),
        r@.len() == HEAD_LEN,
{
    let mut prefix: Vec<u8> = Vec::new();
    append_bytes(&mut prefix, head_magic_bytes());
    let version = encode_uvar(1);
    append_bytes(&mut prefix, version.as_slice());
    append_bytes(&mut prefix, transaction_id.as_slice());
    let mut preimage: Vec<u8> = Vec::new();
    append_bytes(&mut preimage, head_domain_bytes());
    append_bytes(&mut preimage, prefix.as_slice());
    let digest = blake3_digest(preimage.as_slice());
    append_bytes(&mut prefix, digest.as_slice());
    proof {
        let p = head_magic() + uvar_bytes(1) + transaction_id@;
        assert(preimage@ =~= head_domain() + p);
        assert(prefix@ =~= head_bytes(transaction_id@));
        reveal_strlit("SLEYHD01");
        crate::scb::lemma_uvar_shape(1);
    }
    prefix
}

/// Reads a fixed accepted-head value: the transaction it names, when the
/// bytes are exactly that transaction's head value.
pub fn decode_head_bytes(bytes: &[u8]) -> (r: Option<[u8; 32]>)
    ensures
        (bytes@.len() == HEAD_LEN && bytes@ == head_bytes(bytes@.subrange(9, 41))) ==> r is Some
            && r->0@ == bytes@.subrange(9, 41),
        !(bytes@.len() == HEAD_LEN && bytes@ == head_bytes(bytes@.subrange(9, 41))) ==> r is None,
{
    proof {
        reveal_strlit("SLEYHD01");
        crate::scb::lemma_uvar_shape(1);
        assert(uvar_bytes(1) =~= seq![1u8]);
    }
    if bytes.len() != HEAD_LEN {
        return None;
    }
    let head = copy_range(bytes, 0, 8);
    if !bytes_equal(head.as_slice(), head_magic_bytes()) || bytes[8] != 1 {
        proof {
            let t = bytes@.subrange(9, 41);
            if bytes@ == head_bytes(t) {
                assert(bytes@.subrange(0, 8) =~= head_magic());
                assert(bytes@[8] == 1);
            }
        }
        return None;
    }
    let id_bytes = copy_range(bytes, 9, 41);
    let transaction_id = exact_array(id_bytes.as_slice()).unwrap();
    let expected = stored_head_bytes(&transaction_id);
    if bytes_equal(expected.as_slice(), bytes) {
        Some(transaction_id)
    } else {
        None
    }
}

/// The head value of a transaction reads back as that transaction: a
/// 73-byte head value names the transaction it was computed from, so
/// `decode_head_bytes` accepts it and returns that transaction.
pub proof fn lemma_head_roundtrip(t: Seq<u8>)
    requires
        t.len() == 32,
        head_bytes(t).len() == HEAD_LEN,
    ensures
        head_bytes(t).subrange(9, 41) == t,
        head_bytes(t) == head_bytes(head_bytes(t).subrange(9, 41)),
{
    reveal_strlit("SLEYHD01");
    crate::scb::lemma_uvar_shape(1);
    assert(uvar_bytes(1) =~= seq![1u8]);
    let prefix = head_magic() + uvar_bytes(1) + t;
    assert(prefix.len() == 41);
    assert(head_bytes(t).subrange(9, 41) =~= t);
}

/// The bytes begin with a version-1 envelope of contract tag 170.
pub open spec fn pack_header_spec(s: Seq<u8>) -> bool {
    &&& s.len() >= 8
    &&& s.take(8) == magic()
    &&& read_uvar_spec(s.skip(8)) matches Ok((version, n))
    &&& version == 1
    &&& read_uvar_spec(s.skip(8).skip(n as int)) matches Ok((contract, m))
    &&& contract == 170
}

/// Whether `bytes` begin like a stored repository pack.
pub fn embedded_pack_header_is_tag_170(bytes: &[u8]) -> (r: bool)
    ensures
        r == pack_header_spec(bytes@),
{
    let mut reader = Reader::new(bytes);
    let head = match reader.take_exact(8) {
        Ok(h) => h,
        Err(_) => {
            return false;
        },
    };
    let text = "SLEYSCB1";
    proof {
        reveal_strlit("SLEYSCB1");
        vstd::string::is_ascii_spec_bytes(text);
    }
    let magic_text = text.as_bytes();
    assert(magic_text@ =~= magic());
    if !bytes_equal(head.as_slice(), magic_text) {
        return false;
    }
    let ghost s1 = reader.rest();
    assert(s1 =~= bytes@.skip(8));
    let version = match reader.read_uvar() {
        Ok(v) => v,
        Err(_) => {
            return false;
        },
    };
    let ghost s2 = reader.rest();
    proof {
        let n = read_uvar_spec(s1)->Ok_0.1;
        assert(s2 =~= s1.skip(n as int));
    }
    let contract = match reader.read_uvar() {
        Ok(v) => v,
        Err(_) => {
            return false;
        },
    };
    version == 1 && contract == 170
}

// ---------------------------------------------------------------------------
// Sections.
// ---------------------------------------------------------------------------

/// One exported receipt.
#[derive(Clone, Debug, PartialEq, Eq)]
pub struct ExchangeReceiptEntry {
    /// Declared transaction identity.
    pub transaction_id: [u8; 32],
    /// Declared receipt identity.
    pub receipt_id: [u8; 32],
    /// Exact stored receipt bytes.
    pub stored_bytes: Vec<u8>,
}

/// A receipt entry as values: transaction, receipt and bytes.
pub type ReceiptView = (Seq<u8>, Seq<u8>, Seq<u8>);

impl View for ExchangeReceiptEntry {
    type V = ReceiptView;

    open spec fn view(&self) -> ReceiptView {
        (self.transaction_id@, self.receipt_id@, self.stored_bytes@)
    }
}

/// The exporter's fixed accepted head.
#[derive(Clone, Copy, Debug, PartialEq, Eq)]
pub struct ExchangeHeadEntry {
    /// Head transaction identity.
    pub transaction_id: [u8; 32],
    /// Head receipt identity.
    pub receipt_id: [u8; 32],
}

/// One exported visible branch as its exact origin and ref records.
#[derive(Clone, Debug, PartialEq, Eq)]
pub struct ExchangeBranchEntry {
    /// Exact canonical branch name bytes.
    pub branch_name: Vec<u8>,
    /// Exact stored branch-origin record.
    pub stored_origin: Vec<u8>,
    /// Exact stored branch-ref record.
    pub stored_ref: Vec<u8>,
}

/// A branch entry as values: name, origin and ref.
pub type BranchView = (Seq<u8>, Seq<u8>, Seq<u8>);

impl View for ExchangeBranchEntry {
    type V = BranchView;

    open spec fn view(&self) -> BranchView {
        (self.branch_name@, self.stored_origin@, self.stored_ref@)
    }
}

/// Decoding one receipt element: transaction, receipt, bytes.
#[verifier::opaque]
pub open spec fn receipt_spec(s: Seq<u8>) -> Result<ReceiptView, ExchangeError> {
    match via_pack(record_start(s)) {
        Err(e) => Err(e),
        Ok(c0) => match via_pack(field_step(c0, 1)) {
            Err(e) => Err(e),
            Ok((v1, c1)) => match id_field(v1) {
                Err(e) => Err(e),
                Ok(t) => match via_pack(field_step(c1, 2)) {
                    Err(e) => Err(e),
                    Ok((v2, c2)) => match id_field(v2) {
                        Err(e) => Err(e),
                        Ok(rid) => match via_pack(field_step(c2, 3)) {
                            Err(e) => Err(e),
                            Ok((bytes, c3)) => match via_pack(finish_spec(c3)) {
                                Err(e) => Err(e),
                                Ok(_) => Ok((t, rid, bytes)),
                            },
                        },
                    },
                },
            },
        },
    }
}

fn decode_receipt(element: &[u8]) -> (r: Result<ExchangeReceiptEntry, ExchangeError>)
    ensures
        match receipt_spec(element@) {
            Ok(v) => r is Ok && r->Ok_0@ == v,
            Err(e) => r == Err::<ExchangeReceiptEntry, ExchangeError>(e),
        },
{
    reveal(receipt_spec);
    let mut record = lift(RecordReader::new(element))?;
    let transaction_id = id_value(lift(record.required(1))?.as_slice())?;
    let receipt_id = id_value(lift(record.required(2))?.as_slice())?;
    let stored_bytes = lift(record.required(3))?;
    lift(record.finish())?;
    Ok(ExchangeReceiptEntry { transaction_id, receipt_id, stored_bytes })
}

/// Decoding the receipt elements in turn; the first failure decides.
#[verifier::opaque]
pub open spec fn receipts_from(elems: Seq<Seq<u8>>) -> Result<Seq<ReceiptView>, ExchangeError>
    decreases elems.len(),
{
    if elems.len() == 0 {
        Ok(Seq::empty())
    } else {
        match receipt_spec(elems[0]) {
            Err(e) => Err(e),
            Ok(v) => match receipts_from(elems.drop_first()) {
                Err(e) => Err(e),
                Ok(vs) => Ok(seq![v] + vs),
            },
        }
    }
}

/// The order check of identities, with its failure reported as an
/// exchange failure.
pub open spec fn exchange_order(ids: Seq<Seq<u8>>) -> Result<(), ExchangeError> {
    match id_order_spec(ids) {
        Ok(_) => Ok(()),
        Err(PackFault::Pack(PackErrorCode::DuplicateEntry)) => Err(
            ExchangeError::Exchange(ExchangeErrorCode::DuplicateEntry),
        ),
        Err(_) => Err(ExchangeError::Exchange(ExchangeErrorCode::CanonicalOrder)),
    }
}

/// Decoding the receipt section: at most `MAX_EXCHANGE_RECEIPTS` entries
/// whose transactions strictly ascend.
pub open spec fn receipts_spec(s: Seq<u8>) -> Result<Seq<ReceiptView>, ExchangeError> {
    match via_pack(decode_list_spec(s, MAX_EXCHANGE_RECEIPTS)) {
        Err(e) => Err(e),
        Ok(elems) => match receipts_from(elems) {
            Err(e) => Err(e),
            Ok(rs) => match exchange_order(rs.map_values(|r: ReceiptView| r.0)) {
                Err(e) => Err(e),
                Ok(_) => Ok(rs),
            },
        },
    }
}

spec fn prepend_receipts(done: Seq<ReceiptView>, r: Result<Seq<ReceiptView>, ExchangeError>) -> Result<
    Seq<ReceiptView>,
    ExchangeError,
> {
    match r {
        Ok(vs) => Ok(done + vs),
        Err(e) => Err(e),
    }
}

proof fn lemma_receipts_step(elems: Seq<Seq<u8>>, i: int)
    requires
        0 <= i < elems.len(),
    ensures
        receipts_from(elems.skip(i)) == match receipt_spec(elems[i]) {
            Err(e) => Err(e),
            Ok(v) => match receipts_from(elems.skip(i + 1)) {
                Err(e) => Err(e),
                Ok(vs) => Ok(seq![v] + vs),
            },
        },
{
    reveal(receipts_from);
    let t = elems.skip(i);
    assert(t[0] == elems[i]);
    assert(t.drop_first() =~= elems.skip(i + 1));
}

/// Decodes the receipt section.
#[verifier::rlimit(40)]
pub fn decode_receipt_entries(input: &[u8]) -> (r: Result<Vec<ExchangeReceiptEntry>, ExchangeError>)
    ensures
        match receipts_spec(input@) {
            Ok(vs) => r is Ok && r->Ok_0@.map_values(|e: ExchangeReceiptEntry| e@) == vs,
            Err(e) => r == Err::<Vec<ExchangeReceiptEntry>, ExchangeError>(e),
        },
{
    let elements = lift(decode_list(input, MAX_EXCHANGE_RECEIPTS))?;
    let ghost elems = elements.deep_view();
    let mut out: Vec<ExchangeReceiptEntry> = Vec::new();
    let mut ids: Vec<[u8; 32]> = Vec::new();
    let mut i: usize = 0;
    proof {
        assert(elems.skip(0) =~= elems);
        assert(out@.map_values(|e: ExchangeReceiptEntry| e@) =~= Seq::<ReceiptView>::empty());
        assert(prepend_receipts(Seq::empty(), receipts_from(elems)) =~= receipts_from(elems));
    }
    while i < elements.len()
        invariant
            i <= elements.len(),
            elems == elements.deep_view(),
            decode_list_spec(input@, MAX_EXCHANGE_RECEIPTS) == Ok::<Seq<Seq<u8>>, PackFault>(elems),
            receipts_from(elems) == prepend_receipts(
                out@.map_values(|e: ExchangeReceiptEntry| e@),
                receipts_from(elems.skip(i as int)),
            ),
            digests_view(ids@) == out@.map_values(|e: ExchangeReceiptEntry| e@).map_values(
                |r: ReceiptView| r.0,
            ),
        decreases elements.len() - i,
    {
        proof {
            lemma_receipts_step(elems, i as int);
            assert(elems[i as int] == elements@[i as int]@);
        }
        let entry = match decode_receipt(elements[i].as_slice()) {
            Ok(e) => e,
            Err(e) => {
                return Err(e);
            },
        };
        let ghost before = out@.map_values(|e: ExchangeReceiptEntry| e@);
        let ghost before_ids = digests_view(ids@);
        ids.push(entry.transaction_id);
        let ghost ev = entry@;
        out.push(entry);
        proof {
            assert(out@.map_values(|e: ExchangeReceiptEntry| e@) =~= before.push(ev));
            assert(digests_view(ids@) =~= before_ids.push(ev.0));
            assert(before.push(ev).map_values(|r: ReceiptView| r.0) =~= before.map_values(
                |r: ReceiptView| r.0,
            ).push(ev.0));
            if let Ok(vs) = receipts_from(elems.skip(i + 1)) {
                assert(before + (seq![ev] + vs) =~= before.push(ev) + vs);
            }
        }
        i = i + 1;
    }
    proof {
        assert(elems.skip(i as int) =~= Seq::<Seq<u8>>::empty());
        reveal(receipts_from);
        assert(out@.map_values(|e: ExchangeReceiptEntry| e@) + Seq::<ReceiptView>::empty()
            =~= out@.map_values(|e: ExchangeReceiptEntry| e@));
    }
    match crate::pack::check_id_order(&ids) {
        Ok(()) => {},
        Err(e) => {
            if e.fault() == PackFault::Pack(PackErrorCode::DuplicateEntry) {
                return Err(ExchangeError::Exchange(ExchangeErrorCode::DuplicateEntry));
            }
            return Err(ExchangeError::Exchange(ExchangeErrorCode::CanonicalOrder));
        },
    }
    Ok(out)
}

/// Decoding the head entry: transaction and receipt.
pub open spec fn head_entry_spec(s: Seq<u8>) -> Result<(Seq<u8>, Seq<u8>), ExchangeError> {
    match via_pack(record_start(s)) {
        Err(e) => Err(e),
        Ok(c0) => match via_pack(field_step(c0, 1)) {
            Err(e) => Err(e),
            Ok((v1, c1)) => match id_field(v1) {
                Err(e) => Err(e),
                Ok(t) => match via_pack(field_step(c1, 2)) {
                    Err(e) => Err(e),
                    Ok((v2, c2)) => match id_field(v2) {
                        Err(e) => Err(e),
                        Ok(rid) => match via_pack(finish_spec(c2)) {
                            Err(e) => Err(e),
                            Ok(_) => Ok((t, rid)),
                        },
                    },
                },
            },
        },
    }
}

/// Decodes the head entry.
pub fn decode_head_entry(input: &[u8]) -> (r: Result<ExchangeHeadEntry, ExchangeError>)
    ensures
        match head_entry_spec(input@) {
            Ok((t, rid)) => r is Ok && r->Ok_0.transaction_id@ == t && r->Ok_0.receipt_id@ == rid,
            Err(e) => r == Err::<ExchangeHeadEntry, ExchangeError>(e),
        },
{
    let mut record = lift(RecordReader::new(input))?;
    let transaction_id = id_value(lift(record.required(1))?.as_slice())?;
    let receipt_id = id_value(lift(record.required(2))?.as_slice())?;
    lift(record.finish())?;
    Ok(ExchangeHeadEntry { transaction_id, receipt_id })
}

/// The record fields of one branch element.
pub open spec fn branch_fields(b: BranchView) -> Seq<(u64, Seq<u8>)> {
    seq![(1u64, b.0), (2u64, b.1), (3u64, b.2)]
}

/// Encodes the list element of one branch.
pub fn encode_branch_element(entry: &ExchangeBranchEntry) -> (r: Vec<u8>)
    ensures
        r@ == enc_record(branch_fields(entry@)),
{
    let mut fields: Vec<(u64, Vec<u8>)> = Vec::new();
    let mut name: Vec<u8> = Vec::new();
    append_bytes(&mut name, entry.branch_name.as_slice());
    let mut origin: Vec<u8> = Vec::new();
    append_bytes(&mut origin, entry.stored_origin.as_slice());
    let mut reference: Vec<u8> = Vec::new();
    append_bytes(&mut reference, entry.stored_ref.as_slice());
    assert(name.deep_view() =~= entry.branch_name@);
    assert(origin.deep_view() =~= entry.stored_origin@);
    assert(reference.deep_view() =~= entry.stored_ref@);
    fields.push((1, name));
    fields.push((2, origin));
    fields.push((3, reference));
    assert(fields.deep_view() =~= branch_fields(entry@));
    encode_record(&fields)
}

/// Decoding one branch element: name, origin and ref.
#[verifier::opaque]
pub open spec fn branch_spec(s: Seq<u8>) -> Result<BranchView, ExchangeError> {
    match via_pack(record_start(s)) {
        Err(e) => Err(e),
        Ok(c0) => match via_pack(field_step(c0, 1)) {
            Err(e) => Err(e),
            Ok((name, c1)) => match via_pack(field_step(c1, 2)) {
                Err(e) => Err(e),
                Ok((origin, c2)) => match via_pack(field_step(c2, 3)) {
                    Err(e) => Err(e),
                    Ok((reference, c3)) => match via_pack(finish_spec(c3)) {
                        Err(e) => Err(e),
                        Ok(_) => Ok((name, origin, reference)),
                    },
                },
            },
        },
    }
}

fn decode_branch(element: &[u8]) -> (r: Result<ExchangeBranchEntry, ExchangeError>)
    ensures
        match branch_spec(element@) {
            Ok(v) => r is Ok && r->Ok_0@ == v,
            Err(e) => r == Err::<ExchangeBranchEntry, ExchangeError>(e),
        },
{
    reveal(branch_spec);
    let mut record = lift(RecordReader::new(element))?;
    let branch_name = lift(record.required(1))?;
    let stored_origin = lift(record.required(2))?;
    let stored_ref = lift(record.required(3))?;
    lift(record.finish())?;
    Ok(ExchangeBranchEntry { branch_name, stored_origin, stored_ref })
}

/// Decoding branch elements in turn, each compared as encoded bytes with
/// the one before it (a repeat is a duplicate, a smaller one out of order)
/// before it is decoded; the first failure decides.
#[verifier::opaque]
pub open spec fn branches_from(elems: Seq<Seq<u8>>, previous: Option<Seq<u8>>) -> Result<
    Seq<BranchView>,
    ExchangeError,
>
    decreases elems.len(),
{
    if elems.len() == 0 {
        Ok(Seq::empty())
    } else {
        let order = match previous {
            None => ByteOrder::Less,
            Some(p) => lex(p, elems[0]),
        };
        if order == ByteOrder::Equal {
            Err(ExchangeError::Exchange(ExchangeErrorCode::DuplicateEntry))
        } else if order == ByteOrder::Greater {
            Err(ExchangeError::Exchange(ExchangeErrorCode::CanonicalOrder))
        } else {
            match branch_spec(elems[0]) {
                Err(e) => Err(e),
                Ok(v) => match branches_from(elems.drop_first(), Some(elems[0])) {
                    Err(e) => Err(e),
                    Ok(vs) => Ok(seq![v] + vs),
                },
            }
        }
    }
}

/// Decoding the branch section.
pub open spec fn branches_spec(s: Seq<u8>) -> Result<Seq<BranchView>, ExchangeError> {
    match via_pack(decode_list_spec(s, MAX_EXCHANGE_BRANCHES)) {
        Err(e) => Err(e),
        Ok(elems) => branches_from(elems, None),
    }
}

spec fn prepend_branches(done: Seq<BranchView>, r: Result<Seq<BranchView>, ExchangeError>) -> Result<
    Seq<BranchView>,
    ExchangeError,
> {
    match r {
        Ok(vs) => Ok(done + vs),
        Err(e) => Err(e),
    }
}

proof fn lemma_branches_step(elems: Seq<Seq<u8>>, i: int, previous: Option<Seq<u8>>)
    requires
        0 <= i < elems.len(),
    ensures
        branches_from(elems.skip(i), previous) == {
            let order = match previous {
                None => ByteOrder::Less,
                Some(p) => lex(p, elems[i]),
            };
            if order == ByteOrder::Equal {
                Err(ExchangeError::Exchange(ExchangeErrorCode::DuplicateEntry))
            } else if order == ByteOrder::Greater {
                Err(ExchangeError::Exchange(ExchangeErrorCode::CanonicalOrder))
            } else {
                match branch_spec(elems[i]) {
                    Err(e) => Err(e),
                    Ok(v) => match branches_from(elems.skip(i + 1), Some(elems[i])) {
                        Err(e) => Err(e),
                        Ok(vs) => Ok(seq![v] + vs),
                    },
                }
            }
        },
{
    reveal(branches_from);
    let t = elems.skip(i);
    assert(t[0] == elems[i]);
    assert(t.drop_first() =~= elems.skip(i + 1));
}

/// Decodes the branch section.
#[verifier::rlimit(40)]
pub fn decode_branch_entries(input: &[u8]) -> (r: Result<Vec<ExchangeBranchEntry>, ExchangeError>)
    ensures
        match branches_spec(input@) {
            Ok(vs) => r is Ok && r->Ok_0@.map_values(|e: ExchangeBranchEntry| e@) == vs,
            Err(e) => r == Err::<Vec<ExchangeBranchEntry>, ExchangeError>(e),
        },
{
    let elements = lift(decode_list(input, MAX_EXCHANGE_BRANCHES))?;
    let ghost elems = elements.deep_view();
    let mut out: Vec<ExchangeBranchEntry> = Vec::new();
    let mut i: usize = 0;
    proof {
        assert(elems.skip(0) =~= elems);
        assert(out@.map_values(|e: ExchangeBranchEntry| e@) =~= Seq::<BranchView>::empty());
        assert(prepend_branches(Seq::empty(), branches_from(elems, None)) =~= branches_from(
            elems,
            None,
        ));
    }
    while i < elements.len()
        invariant
            i <= elements.len(),
            elems == elements.deep_view(),
            decode_list_spec(input@, MAX_EXCHANGE_BRANCHES) == Ok::<Seq<Seq<u8>>, PackFault>(elems),
            branches_from(elems, None) == prepend_branches(
                out@.map_values(|e: ExchangeBranchEntry| e@),
                branches_from(
                    elems.skip(i as int),
                    if i == 0 {
                        None
                    } else {
                        Some(elems[i - 1])
                    },
                ),
            ),
        decreases elements.len() - i,
    {
        let ghost previous = if i == 0 {
            None
        } else {
            Some(elems[i - 1])
        };
        proof {
            lemma_branches_step(elems, i as int, previous);
            assert(elems[i as int] == elements@[i as int]@);
            if i > 0 {
                assert(elems[i - 1] == elements@[i - 1]@);
            }
        }
        if i > 0 {
            match compare_bytes(elements[i - 1].as_slice(), elements[i].as_slice()) {
                ByteOrder::Equal => {
                    return Err(ExchangeError::Exchange(ExchangeErrorCode::DuplicateEntry));
                },
                ByteOrder::Greater => {
                    return Err(ExchangeError::Exchange(ExchangeErrorCode::CanonicalOrder));
                },
                ByteOrder::Less => {},
            }
        }
        let entry = match decode_branch(elements[i].as_slice()) {
            Ok(e) => e,
            Err(e) => {
                return Err(e);
            },
        };
        let ghost before = out@.map_values(|e: ExchangeBranchEntry| e@);
        let ghost ev = entry@;
        out.push(entry);
        proof {
            assert(out@.map_values(|e: ExchangeBranchEntry| e@) =~= before.push(ev));
            if let Ok(vs) = branches_from(elems.skip(i + 1), Some(elems[i as int])) {
                assert(before + (seq![ev] + vs) =~= before.push(ev) + vs);
            }
        }
        i = i + 1;
    }
    proof {
        assert(elems.skip(i as int) =~= Seq::<Seq<u8>>::empty());
        reveal(branches_from);
        assert(out@.map_values(|e: ExchangeBranchEntry| e@) + Seq::<BranchView>::empty()
            =~= out@.map_values(|e: ExchangeBranchEntry| e@));
    }
    Ok(out)
}

// ---------------------------------------------------------------------------
// The digest tree.
// ---------------------------------------------------------------------------

/// Every element is 32 bytes long.
pub open spec fn all_32(elems: Seq<Seq<u8>>) -> bool {
    forall|i: int| 0 <= i < elems.len() ==> #[trigger] elems[i].len() == 32
}

/// Decoding the digest-tree record: algorithm, leaf count, at least three
/// leaves and the root.
#[verifier::opaque]
pub open spec fn exchange_tree_spec(s: Seq<u8>) -> Result<(Seq<Seq<u8>>, Seq<u8>), ExchangeError> {
    match via_pack(record_start(s)) {
        Err(e) => Err(e),
        Ok(c0) => match via_pack(field_step(c0, 1)) {
            Err(e) => Err(e),
            Ok((alg_bytes, c1)) => match via_pack(crate::scb::single_uvar_spec(alg_bytes)) {
                Err(e) => Err(e),
                Ok(alg) => if alg != 1 {
                    Err(ExchangeError::Exchange(ExchangeErrorCode::DigestTreeMismatch))
                } else {
                    match via_pack(field_step(c1, 2)) {
                        Err(e) => Err(e),
                        Ok((count_bytes, c2)) => match via_pack(
                            crate::scb::single_uvar_spec(count_bytes),
                        ) {
                            Err(e) => Err(e),
                            Ok(count) => match via_pack(field_step(c2, 3)) {
                                Err(e) => Err(e),
                                Ok((list_bytes, c3)) => match via_pack(
                                    decode_list_spec(list_bytes, MAX_EXCHANGE_LEAVES),
                                ) {
                                    Err(e) => Err(e),
                                    Ok(elems) => match via_pack(field_step(c3, 4)) {
                                        Err(e) => Err(e),
                                        Ok((root, c4)) => match id_field(root) {
                                            Err(e) => Err(e),
                                            Ok(_) => match via_pack(finish_spec(c4)) {
                                                Err(e) => Err(e),
                                                Ok(_) => if count != elems.len() || elems.len()
                                                    < 3 {
                                                    Err(
                                                        ExchangeError::Exchange(
                                                            ExchangeErrorCode::DigestTreeMismatch,
                                                        ),
                                                    )
                                                } else if !all_32(elems) {
                                                    Err(
                                                        ExchangeError::Pack(
                                                            PackFault::Scb(
                                                                ScbErrorCode::LengthOverflow,
                                                            ),
                                                        ),
                                                    )
                                                } else {
                                                    Ok((elems, root))
                                                },
                                            },
                                        },
                                    },
                                },
                            },
                        },
                    }
                },
            },
        },
    }
}

fn leaves_from(elements: &Vec<Vec<u8>>) -> (r: Result<Vec<[u8; 32]>, ExchangeError>)
    ensures
        all_32(elements.deep_view()) ==> r is Ok && digests_view(r->Ok_0@)
            == elements.deep_view(),
        !all_32(elements.deep_view()) ==> r == Err::<Vec<[u8; 32]>, ExchangeError>(
            ExchangeError::Pack(PackFault::Scb(ScbErrorCode::LengthOverflow)),
        ),
{
    let ghost elems = elements.deep_view();
    let mut leaves: Vec<[u8; 32]> = Vec::new();
    let mut i: usize = 0;
    while i < elements.len()
        invariant
            i <= elements.len(),
            elems == elements.deep_view(),
            digests_view(leaves@) == elems.take(i as int),
            forall|j: int| 0 <= j < i ==> #[trigger] elems[j].len() == 32,
        decreases elements.len() - i,
    {
        assert(elems[i as int] == elements@[i as int]@);
        let leaf = id_value(elements[i].as_slice())?;
        let ghost before = digests_view(leaves@);
        leaves.push(leaf);
        proof {
            assert(digests_view(leaves@) =~= before.push(leaf@));
            assert(elems.take(i + 1) =~= elems.take(i as int).push(elems[i as int]));
        }
        i = i + 1;
    }
    assert(elems.take(i as int) =~= elems);
    Ok(leaves)
}

/// Decodes the digest-tree record into its leaves and root.
#[verifier::rlimit(40)]
pub fn decode_tree(input: &[u8]) -> (r: Result<(Vec<[u8; 32]>, [u8; 32]), ExchangeError>)
    ensures
        match exchange_tree_spec(input@) {
            Ok((leaves, root)) => r is Ok && digests_view(r->Ok_0.0@) == leaves && r->Ok_0.1@
                == root,
            Err(e) => r == Err::<(Vec<[u8; 32]>, [u8; 32]), ExchangeError>(e),
        },
{
    reveal(exchange_tree_spec);
    let mut record = lift(RecordReader::new(input))?;
    let alg_bytes = lift(record.required(1))?;
    let alg = lift(crate::scb::read_single_uvar(alg_bytes.as_slice()))?;
    if alg != 1 {
        return Err(ExchangeError::Exchange(ExchangeErrorCode::DigestTreeMismatch));
    }
    let count_bytes = lift(record.required(2))?;
    let count = lift(crate::scb::read_single_uvar(count_bytes.as_slice()))?;
    let list_bytes = lift(record.required(3))?;
    let elements = lift(decode_list(list_bytes.as_slice(), MAX_EXCHANGE_LEAVES))?;
    let root_bytes = lift(record.required(4))?;
    let root = id_value(root_bytes.as_slice())?;
    lift(record.finish())?;
    if count != elements.len() as u64 || elements.len() < 3 {
        return Err(ExchangeError::Exchange(ExchangeErrorCode::DigestTreeMismatch));
    }
    let leaves = leaves_from(&elements)?;
    Ok((leaves, root))
}

/// Domain separator of an exchange content leaf.
pub open spec fn exchange_leaf_domain() -> Seq<u8> {
    ascii_bytes("sley2.repository-exchange-leaf.v1"@)
}

/// Domain separator of an exchange interior node.
pub open spec fn exchange_node_domain() -> Seq<u8> {
    ascii_bytes("sley2.repository-exchange-node.v1"@)
}

fn exchange_leaf_domain_bytes() -> (r: &'static [u8])
    ensures
        r@ == exchange_leaf_domain(),
{
    let text = "sley2.repository-exchange-leaf.v1";
    proof {
        reveal_strlit("sley2.repository-exchange-leaf.v1");
        vstd::string::is_ascii_spec_bytes(text);
    }
    let r = text.as_bytes();
    assert(r@ =~= exchange_leaf_domain());
    r
}

fn exchange_node_domain_bytes() -> (r: &'static [u8])
    ensures
        r@ == exchange_node_domain(),
{
    let text = "sley2.repository-exchange-node.v1";
    proof {
        reveal_strlit("sley2.repository-exchange-node.v1");
        vstd::string::is_ascii_spec_bytes(text);
    }
    let r = text.as_bytes();
    assert(r@ =~= exchange_node_domain());
    r
}

/// The exchange content leaf of one entry.
pub open spec fn exchange_leaf(section: u64, id: Seq<u8>, bytes: Seq<u8>) -> Seq<u8> {
    blake3_hash(crate::digest::leaf_preimage_in(exchange_leaf_domain(), section, id, bytes))
}

/// The leaf bytes of a branch: its origin and ref, each length-prefixed.
pub open spec fn branch_leaf_bytes(b: BranchView) -> Seq<u8> {
    crate::scb::enc_bytes(b.1) + crate::scb::enc_bytes(b.2)
}

/// All leaves of an exchange: the embedded pack, each receipt, each branch
/// under its name key, then the accepted head.
pub open spec fn exchange_leaves(
    pack_id: Seq<u8>,
    object_pack: Seq<u8>,
    receipts: Seq<ReceiptView>,
    branches: Seq<BranchView>,
    branch_keys: Seq<Seq<u8>>,
    head: (Seq<u8>, Seq<u8>),
) -> Seq<Seq<u8>> {
    seq![exchange_leaf(1, pack_id, object_pack)] + receipts.map_values(
        |r: ReceiptView| exchange_leaf(2, r.0, r.2),
    ) + Seq::new(branches.len(), |i: int| exchange_leaf(3, branch_keys[i], branch_leaf_bytes(branches[i])))
        + seq![exchange_leaf(4, head.0, head_bytes(head.0) + head.1)]
}

/// Computes the leaves of an exchange; `branch_keys[i]` is the path key of
/// branch `i`'s name.
pub fn compute_leaves(
    pack_id: &[u8; 32],
    object_pack: &[u8],
    receipts: &Vec<ExchangeReceiptEntry>,
    head: &ExchangeHeadEntry,
    branches: &Vec<ExchangeBranchEntry>,
    branch_keys: &Vec<[u8; 32]>,
) -> (r: Result<Vec<[u8; 32]>, ExchangeError>)
    requires
        branch_keys@.len() == branches@.len(),
    ensures
        receipts@.len() + branches@.len() + 2 <= MAX_EXCHANGE_LEAVES ==> r is Ok && digests_view(
            r->Ok_0@,
        ) == exchange_leaves(
            pack_id@,
            object_pack@,
            receipts@.map_values(|e: ExchangeReceiptEntry| e@),
            branches@.map_values(|e: ExchangeBranchEntry| e@),
            digests_view(branch_keys@),
            (head.transaction_id@, head.receipt_id@),
        ),
        receipts@.len() + branches@.len() + 2 > MAX_EXCHANGE_LEAVES ==> r == Err::<
            Vec<[u8; 32]>,
            ExchangeError,
        >(ExchangeError::Exchange(ExchangeErrorCode::ResourceLimit)),
{
    if receipts.len() > MAX_EXCHANGE_LEAVES || branches.len() > MAX_EXCHANGE_LEAVES
        - receipts.len() || receipts.len() + branches.len() > MAX_EXCHANGE_LEAVES - 2 {
        return Err(ExchangeError::Exchange(ExchangeErrorCode::ResourceLimit));
    }
    let domain = exchange_leaf_domain_bytes();
    let ghost rs = receipts@.map_values(|e: ExchangeReceiptEntry| e@);
    let ghost bs = branches@.map_values(|e: ExchangeBranchEntry| e@);
    let ghost keys = digests_view(branch_keys@);
    let mut leaves: Vec<[u8; 32]> = Vec::new();
    leaves.push(crate::digest::domain_leaf(domain, 1, pack_id.as_slice(), object_pack));
    let ghost first = seq![exchange_leaf(1, pack_id@, object_pack@)];
    assert(digests_view(leaves@) =~= first);
    let mut i: usize = 0;
    while i < receipts.len()
        invariant
            i <= receipts@.len(),
            domain@ == exchange_leaf_domain(),
            rs == receipts@.map_values(|e: ExchangeReceiptEntry| e@),
            digests_view(leaves@) == first + rs.take(i as int).map_values(
                |r: ReceiptView| exchange_leaf(2, r.0, r.2),
            ),
        decreases receipts.len() - i,
    {
        let leaf = crate::digest::domain_leaf(
            domain,
            2,
            receipts[i].transaction_id.as_slice(),
            receipts[i].stored_bytes.as_slice(),
        );
        let ghost before = digests_view(leaves@);
        leaves.push(leaf);
        proof {
            assert(digests_view(leaves@) =~= before.push(leaf@));
            assert(rs.take(i + 1) =~= rs.take(i as int).push(rs[i as int]));
            assert(rs.take(i + 1).map_values(|r: ReceiptView| exchange_leaf(2, r.0, r.2))
                =~= rs.take(i as int).map_values(|r: ReceiptView| exchange_leaf(2, r.0, r.2)).push(
                leaf@,
            ));
        }
        i = i + 1;
    }
    assert(rs.take(i as int) =~= rs);
    let ghost second = first + rs.map_values(|r: ReceiptView| exchange_leaf(2, r.0, r.2));
    let mut j: usize = 0;
    assert(digests_view(leaves@) =~= second + Seq::new(
        0,
        |k: int| exchange_leaf(3, keys[k], branch_leaf_bytes(bs[k])),
    ));
    while j < branches.len()
        invariant
            j <= branches@.len(),
            branch_keys@.len() == branches@.len(),
            domain@ == exchange_leaf_domain(),
            bs == branches@.map_values(|e: ExchangeBranchEntry| e@),
            keys == digests_view(branch_keys@),
            digests_view(leaves@) == second + Seq::new(
                j as nat,
                |k: int| exchange_leaf(3, keys[k], branch_leaf_bytes(bs[k])),
            ),
        decreases branches.len() - j,
    {
        let mut bytes = crate::scb::encode_bytes(branches[j].stored_origin.as_slice());
        let tail = crate::scb::encode_bytes(branches[j].stored_ref.as_slice());
        append_bytes(&mut bytes, tail.as_slice());
        let leaf = crate::digest::domain_leaf(domain, 3, branch_keys[j].as_slice(), bytes.as_slice());
        let ghost before = digests_view(leaves@);
        leaves.push(leaf);
        proof {
            assert(bs[j as int] == branches@[j as int]@);
            assert(keys[j as int] == branch_keys@[j as int]@);
            assert(digests_view(leaves@) =~= before.push(leaf@));
            assert(digests_view(leaves@) =~= second + Seq::new(
                (j + 1) as nat,
                |k: int| exchange_leaf(3, keys[k], branch_leaf_bytes(bs[k])),
            ));
        }
        j = j + 1;
    }
    let mut head_value = stored_head_bytes(&head.transaction_id);
    append_bytes(&mut head_value, head.receipt_id.as_slice());
    let leaf = crate::digest::domain_leaf(
        domain,
        4,
        head.transaction_id.as_slice(),
        head_value.as_slice(),
    );
    let ghost before = digests_view(leaves@);
    leaves.push(leaf);
    assert(digests_view(leaves@) =~= before.push(leaf@));
    assert(digests_view(leaves@) =~= exchange_leaves(
        pack_id@,
        object_pack@,
        rs,
        bs,
        keys,
        (head.transaction_id@, head.receipt_id@),
    ));
    Ok(leaves)
}

/// Computes the exchange digest-tree root over `leaves`.
pub fn merkle_root(leaves: &Vec<[u8; 32]>) -> (r: Result<[u8; 32], ExchangeError>)
    ensures
        1 <= leaves@.len() <= MAX_EXCHANGE_LEAVES ==> r is Ok && r->Ok_0@
            == crate::digest::merkle_spec(exchange_node_domain(), digests_view(leaves@)),
        !(1 <= leaves@.len() <= MAX_EXCHANGE_LEAVES) ==> r == Err::<[u8; 32], ExchangeError>(
            ExchangeError::Exchange(ExchangeErrorCode::DigestTreeMismatch),
        ),
{
    if leaves.len() == 0 || leaves.len() > MAX_EXCHANGE_LEAVES {
        return Err(ExchangeError::Exchange(ExchangeErrorCode::DigestTreeMismatch));
    }
    Ok(crate::digest::merkle_root_exec(exchange_node_domain_bytes(), leaves))
}

// ---------------------------------------------------------------------------
// Ancestry.
// ---------------------------------------------------------------------------

/// What the ancestry checks read of one imported receipt: its transaction
/// and the transaction's recorded parents.
pub struct ReceiptLink {
    /// The transaction.
    pub transaction_id: [u8; 32],
    /// Its recorded parents, first parent first.
    pub parent_transaction_ids: Vec<[u8; 32]>,
}

/// A receipt link as values.
pub type LinkView = (Seq<u8>, Seq<Seq<u8>>);

impl View for ReceiptLink {
    type V = LinkView;

    open spec fn view(&self) -> LinkView {
        (self.transaction_id@, digests_view(self.parent_transaction_ids@))
    }
}

/// The views of receipt links.
pub open spec fn link_views(ls: Seq<ReceiptLink>) -> Seq<LinkView> {
    ls.map_values(|l: ReceiptLink| l@)
}

/// The first parent of transaction `t` among the links: `None` when `t`
/// has no link or its link names no parent.
pub open spec fn first_parent(ls: Seq<LinkView>, t: Seq<u8>) -> Option<Seq<u8>>
    decreases ls.len(),
{
    if ls.len() == 0 {
        None
    } else if ls[0].0 == t {
        if ls[0].1.len() > 0 {
            Some(ls[0].1[0])
        } else {
            None
        }
    } else {
        first_parent(ls.drop_first(), t)
    }
}

/// The transaction `k` first-parent steps back from `start`, if the chain
/// reaches that far.
pub open spec fn first_parent_chain(ls: Seq<LinkView>, start: Seq<u8>, k: nat) -> Option<Seq<u8>>
    decreases k,
{
    if k == 0 {
        Some(start)
    } else {
        match first_parent_chain(ls, start, (k - 1) as nat) {
            None => None,
            Some(t) => first_parent(ls, t),
        }
    }
}

/// `origin` lies on the first-parent chain of `head` within
/// `MAX_EXCHANGE_RECEIPTS` steps.
pub open spec fn reachable_spec(ls: Seq<LinkView>, origin: Seq<u8>, head: Seq<u8>) -> bool {
    exists|k: nat| k <= MAX_EXCHANGE_RECEIPTS && #[trigger] first_parent_chain(ls, head, k) == Some(
        origin,
    )
}

fn lookup_first_parent(links: &Vec<ReceiptLink>, t: &[u8; 32]) -> (r: Option<[u8; 32]>)
    ensures
        match first_parent(link_views(links@), t@) {
            Some(p) => r is Some && r->0@ == p,
            None => r is None,
        },
{
    let ghost ls = link_views(links@);
    let mut i: usize = 0;
    proof {
        assert(ls.skip(0) =~= ls);
    }
    while i < links.len()
        invariant
            i <= links@.len(),
            ls == link_views(links@),
            first_parent(ls, t@) == first_parent(ls.skip(i as int), t@),
        decreases links.len() - i,
    {
        proof {
            let rest = ls.skip(i as int);
            assert(rest[0] == links@[i as int]@);
            assert(rest.drop_first() =~= ls.skip(i + 1));
        }
        if bytes_equal(links[i].transaction_id.as_slice(), t.as_slice()) {
            if links[i].parent_transaction_ids.len() > 0 {
                return Some(links[i].parent_transaction_ids[0]);
            } else {
                return None;
            }
        }
        i = i + 1;
    }
    None
}

/// Whether `origin` lies on the first-parent chain of `head`, following at
/// most `MAX_EXCHANGE_RECEIPTS` links.
pub fn fast_forward_reachable(links: &Vec<ReceiptLink>, origin: &[u8; 32], head: &[u8; 32]) -> (r:
    bool)
    ensures
        r == reachable_spec(link_views(links@), origin@, head@),
{
    let ghost ls = link_views(links@);
    let mut cursor: Option<[u8; 32]> = Some(*head);
    let mut visited: usize = 0;
    while visited <= MAX_EXCHANGE_RECEIPTS
        invariant
            visited <= MAX_EXCHANGE_RECEIPTS + 1,
            ls == link_views(links@),
            match first_parent_chain(ls, head@, visited as nat) {
                Some(t) => cursor is Some && cursor->0@ == t,
                None => cursor is None,
            },
            forall|k: nat| k < visited ==> #[trigger] first_parent_chain(ls, head@, k) != Some(
                origin@,
            ),
        decreases MAX_EXCHANGE_RECEIPTS + 1 - visited,
    {
        let current = match cursor {
            Some(c) => c,
            None => {
                proof {
                    assert forall|k: nat| k <= MAX_EXCHANGE_RECEIPTS implies #[trigger] first_parent_chain(
                        ls,
                        head@,
                        k,
                    ) != Some(origin@) by {
                        if k >= visited {
                            lemma_chain_stays_none(ls, head@, visited as nat, k);
                        }
                    }
                }
                return false;
            },
        };
        if bytes_equal(current.as_slice(), origin.as_slice()) {
            assert(first_parent_chain(ls, head@, visited as nat) == Some(origin@));
            return true;
        }
        cursor = lookup_first_parent(links, &current);
        visited = visited + 1;
    }
    proof {
        assert forall|k: nat| k <= MAX_EXCHANGE_RECEIPTS implies #[trigger] first_parent_chain(
            ls,
            head@,
            k,
        ) != Some(origin@) by {}
    }
    false
}

proof fn lemma_chain_stays_none(ls: Seq<LinkView>, start: Seq<u8>, j: nat, k: nat)
    requires
        j <= k,
        first_parent_chain(ls, start, j) is None,
    ensures
        first_parent_chain(ls, start, k) is None,
    decreases k - j,
{
    if j < k {
        lemma_chain_stays_none(ls, start, j, (k - 1) as nat);
    }
}

} // verus!
