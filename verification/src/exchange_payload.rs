//! Decoding the payload of a repository exchange: the embedded pack, the
//! receipt, head and branch sections, the digest tree, and the expansion
//! ceiling.

use vstd::prelude::*;

use crate::digest::{digests_equal, digests_view, merkle_spec};
use crate::exchange::{
    compute_leaves, exchange_leaves, exchange_node_domain, merkle_root, MAX_EXCHANGE_BRANCHES,
    MAX_EXCHANGE_LEAVES, MAX_EXCHANGE_RECEIPTS,
};
use crate::exchange::{
    branches_spec, decode_branch_entries, decode_head_entry, decode_receipt_entries, decode_tree,
    exchange_tree_spec, head_entry_spec, receipts_spec, via_pack, BranchView,
    ExchangeBranchEntry, ExchangeError, ExchangeErrorCode, ExchangeHeadEntry,
    ExchangeReceiptEntry, ReceiptView, MAX_EMBEDDED_PACK_BYTES, MAX_EXCHANGE_ALLOCATION,
};
use crate::pack::{
    absent_signature_spec, decode_absent_signature, PackError, PackErrorCode, PackFault,
    COMPRESSION_NONE, FORMAT_VERSION,
};
use crate::bytes::{append_bytes, bytes_equal};
use crate::exchange::{branch_fields, encode_branch_element, MAX_EXCHANGE_BYTES};
use crate::merge_conflict::{copy32, magic_bytes, push_field};
use crate::pack_encode::tree_fields;
use crate::pack_envelope::magic;
use crate::pack::{TREE_ALGORITHM_TAG};
use crate::scb::{
    enc_list, enc_record, enc_union, encode_list, encode_record, encode_union, encode_uvar,
    read_len_spec, read_record, read_record_spec, read_single_uvar, read_uvar_spec,
    single_uvar_spec, uvar_bytes, Reader, ScbErrorCode,
};

verus! {

/// Fields of an exchange payload.
pub const EXCHANGE_FIELD_COUNT: u64 = 8;

/// A decoded exchange payload.
#[derive(Clone, Debug, PartialEq, Eq)]
pub struct DecodedExchange {
    /// The embedded conformance pack, exact bytes.
    pub object_pack: Vec<u8>,
    /// Receipt section.
    pub receipts: Vec<ExchangeReceiptEntry>,
    /// The exporter's accepted head.
    pub accepted_head: ExchangeHeadEntry,
    /// Branch section.
    pub branches: Vec<ExchangeBranchEntry>,
    /// Declared digest leaves.
    pub leaves: Vec<[u8; 32]>,
    /// Declared digest root.
    pub digest_tree_root: [u8; 32],
}

/// A decoded exchange as values: pack bytes, receipts, head (transaction,
/// receipt), branches, leaves and root.
pub type ExchangeView = (
    Seq<u8>,
    Seq<ReceiptView>,
    (Seq<u8>, Seq<u8>),
    Seq<BranchView>,
    Seq<Seq<u8>>,
    Seq<u8>,
);

impl View for DecodedExchange {
    type V = ExchangeView;

    open spec fn view(&self) -> ExchangeView {
        (
            self.object_pack@,
            self.receipts@.map_values(|e: ExchangeReceiptEntry| e@),
            (self.accepted_head.transaction_id@, self.accepted_head.receipt_id@),
            self.branches@.map_values(|e: ExchangeBranchEntry| e@),
            digests_view(self.leaves@),
            self.digest_tree_root@,
        )
    }
}

/// Total stored receipt bytes.
pub open spec fn receipt_bytes_total(rs: Seq<ReceiptView>) -> nat
    decreases rs.len(),
{
    if rs.len() == 0 {
        0
    } else {
        receipt_bytes_total(rs.drop_last()) + rs.last().2.len()
    }
}

/// Total stored origin and ref bytes of branches.
pub open spec fn branch_bytes_total(bs: Seq<BranchView>) -> nat
    decreases bs.len(),
{
    if bs.len() == 0 {
        0
    } else {
        branch_bytes_total(bs.drop_last()) + bs.last().1.len() + bs.last().2.len()
    }
}

/// The failure of the signature field: a present signature is the
/// unsupported exchange profile, anything else keeps its wire failure.
pub open spec fn signature_failure(f: PackFault) -> ExchangeError {
    if f == PackFault::Pack(PackErrorCode::ProfileUnsupported) {
        ExchangeError::Exchange(ExchangeErrorCode::ProfileUnsupported)
    } else {
        ExchangeError::Pack(f)
    }
}

/// Checking the eight payload fields in the order the format fixes:
/// version, embedded pack size, compression, signature, receipts (at least
/// one), head, branches, digest tree, leaf count, then the expansion
/// ceiling.
pub open spec fn exchange_fields_spec(vs: Seq<Seq<u8>>) -> Result<ExchangeView, ExchangeError> {
    match via_pack(single_uvar_spec(vs[0])) {
        Err(e) => Err(e),
        Ok(version) => if version != FORMAT_VERSION {
            Err(ExchangeError::Exchange(ExchangeErrorCode::VersionUnsupported))
        } else if vs[1].len() > MAX_EMBEDDED_PACK_BYTES {
            Err(ExchangeError::Exchange(ExchangeErrorCode::ResourceLimit))
        } else {
            match via_pack(single_uvar_spec(vs[5])) {
                Err(e) => Err(e),
                Ok(compression) => if compression != COMPRESSION_NONE {
                    Err(ExchangeError::Exchange(ExchangeErrorCode::CompressionUnsupported))
                } else {
                    match absent_signature_spec(vs[7]) {
                        Err(f) => Err(signature_failure(f)),
                        Ok(_) => exchange_sections_spec(vs),
                    }
                },
            }
        },
    }
}

/// The sections of a payload whose header fields were accepted.
pub open spec fn exchange_sections_spec(vs: Seq<Seq<u8>>) -> Result<ExchangeView, ExchangeError> {
    match receipts_spec(vs[2]) {
        Err(e) => Err(e),
        Ok(rs) => if rs.len() == 0 {
            Err(ExchangeError::Exchange(ExchangeErrorCode::AncestryOpen))
        } else {
            match head_entry_spec(vs[3]) {
                Err(e) => Err(e),
                Ok(head) => match branches_spec(vs[4]) {
                    Err(e) => Err(e),
                    Ok(bs) => match exchange_tree_spec(vs[6]) {
                        Err(e) => Err(e),
                        Ok((leaves, root)) => if leaves.len() != rs.len() + bs.len() + 2 {
                            Err(ExchangeError::Exchange(ExchangeErrorCode::DigestTreeMismatch))
                        } else if vs[1].len() + receipt_bytes_total(rs) + branch_bytes_total(bs)
                            > MAX_EXCHANGE_ALLOCATION {
                            Err(ExchangeError::Exchange(ExchangeErrorCode::ResourceLimit))
                        } else {
                            Ok((vs[1], rs, head, bs, leaves, root))
                        },
                    },
                },
            }
        },
    }
}

/// Decoding an exchange payload: the record of eight fields, then the
/// checks of `exchange_fields_spec`.
pub open spec fn exchange_payload_spec(s: Seq<u8>) -> Result<ExchangeView, ExchangeError> {
    match via_pack(read_record_spec(s, EXCHANGE_FIELD_COUNT as nat)) {
        Err(e) => Err(e),
        Ok(vs) => exchange_fields_spec(vs),
    }
}

fn lift<T>(r: Result<T, PackError>) -> (out: Result<T, ExchangeError>)
    ensures
        match r {
            Ok(v) => out == Ok::<T, ExchangeError>(v),
            Err(e) => out == Err::<T, ExchangeError>(ExchangeError::Pack(e@)),
        },
{
    match r {
        Ok(v) => Ok(v),
        Err(e) => Err(ExchangeError::Pack(e.fault())),
    }
}

fn receipt_bytes(receipts: &Vec<ExchangeReceiptEntry>) -> (r: Option<usize>)
    ensures
        match r {
            Some(n) => n == receipt_bytes_total(receipts@.map_values(|e: ExchangeReceiptEntry| e@)),
            None => receipt_bytes_total(receipts@.map_values(|e: ExchangeReceiptEntry| e@))
                > usize::MAX,
        },
{
    let ghost rs = receipts@.map_values(|e: ExchangeReceiptEntry| e@);
    let mut total: usize = 0;
    let mut i: usize = 0;
    while i < receipts.len()
        invariant
            i <= receipts@.len(),
            rs == receipts@.map_values(|e: ExchangeReceiptEntry| e@),
            total == receipt_bytes_total(rs.take(i as int)),
        decreases receipts.len() - i,
    {
        proof {
            assert(rs.take(i + 1).drop_last() =~= rs.take(i as int));
            assert(rs.take(i + 1).last() == receipts@[i as int]@);
        }
        let n = receipts[i].stored_bytes.len();
        if n > usize::MAX - total {
            proof {
                lemma_receipt_total_grows(rs, i + 1);
            }
            return None;
        }
        total = total + n;
        i = i + 1;
    }
    assert(rs.take(i as int) =~= rs);
    Some(total)
}

proof fn lemma_receipt_total_grows(rs: Seq<ReceiptView>, k: int)
    requires
        0 <= k <= rs.len(),
    ensures
        receipt_bytes_total(rs.take(k)) <= receipt_bytes_total(rs),
    decreases rs.len() - k,
{
    if k < rs.len() {
        lemma_receipt_total_grows(rs, k + 1);
        assert(rs.take(k + 1).drop_last() =~= rs.take(k));
    } else {
        assert(rs.take(k) =~= rs);
    }
}

proof fn lemma_branch_total_grows(bs: Seq<BranchView>, k: int)
    requires
        0 <= k <= bs.len(),
    ensures
        branch_bytes_total(bs.take(k)) <= branch_bytes_total(bs),
    decreases bs.len() - k,
{
    if k < bs.len() {
        lemma_branch_total_grows(bs, k + 1);
        assert(bs.take(k + 1).drop_last() =~= bs.take(k));
    } else {
        assert(bs.take(k) =~= bs);
    }
}

fn branch_bytes(branches: &Vec<ExchangeBranchEntry>) -> (r: Option<usize>)
    ensures
        match r {
            Some(n) => n == branch_bytes_total(branches@.map_values(|e: ExchangeBranchEntry| e@)),
            None => branch_bytes_total(branches@.map_values(|e: ExchangeBranchEntry| e@))
                > usize::MAX,
        },
{
    let ghost bs = branches@.map_values(|e: ExchangeBranchEntry| e@);
    let mut total: usize = 0;
    let mut i: usize = 0;
    while i < branches.len()
        invariant
            i <= branches@.len(),
            bs == branches@.map_values(|e: ExchangeBranchEntry| e@),
            total == branch_bytes_total(bs.take(i as int)),
        decreases branches.len() - i,
    {
        proof {
            assert(bs.take(i + 1).drop_last() =~= bs.take(i as int));
            assert(bs.take(i + 1).last() == branches@[i as int]@);
        }
        let a = branches[i].stored_origin.len();
        let b = branches[i].stored_ref.len();
        if a > usize::MAX - total || b > usize::MAX - total - a {
            proof {
                lemma_branch_total_grows(bs, i + 1);
            }
            return None;
        }
        total = total + a + b;
        i = i + 1;
    }
    assert(bs.take(i as int) =~= bs);
    Some(total)
}

/// Decodes an exchange payload.
#[verifier::rlimit(60)]
pub fn decode_payload(input: &[u8]) -> (r: Result<DecodedExchange, ExchangeError>)
    ensures
        match exchange_payload_spec(input@) {
            Ok(v) => r is Ok && r->Ok_0@ == v,
            Err(e) => r == Err::<DecodedExchange, ExchangeError>(e),
        },
{
    let fields = lift(read_record(input, EXCHANGE_FIELD_COUNT))?;
    let ghost vs = fields.deep_view();
    assert(vs[0] == fields@[0]@ && vs[1] == fields@[1]@ && vs[2] == fields@[2]@ && vs[3]
        == fields@[3]@);
    assert(vs[4] == fields@[4]@ && vs[5] == fields@[5]@ && vs[6] == fields@[6]@ && vs[7]
        == fields@[7]@);
    let version = lift(read_single_uvar(fields[0].as_slice()))?;
    if version != FORMAT_VERSION {
        return Err(ExchangeError::Exchange(ExchangeErrorCode::VersionUnsupported));
    }
    if fields[1].len() > MAX_EMBEDDED_PACK_BYTES {
        return Err(ExchangeError::Exchange(ExchangeErrorCode::ResourceLimit));
    }
    let compression = lift(read_single_uvar(fields[5].as_slice()))?;
    if compression != COMPRESSION_NONE {
        return Err(ExchangeError::Exchange(ExchangeErrorCode::CompressionUnsupported));
    }
    match decode_absent_signature(fields[7].as_slice()) {
        Ok(()) => {},
        Err(e) => {
            if e.fault() == PackFault::Pack(PackErrorCode::ProfileUnsupported) {
                return Err(ExchangeError::Exchange(ExchangeErrorCode::ProfileUnsupported));
            }
            return Err(ExchangeError::Pack(e.fault()));
        },
    }
    let receipts = decode_receipt_entries(fields[2].as_slice())?;
    if receipts.len() == 0 {
        return Err(ExchangeError::Exchange(ExchangeErrorCode::AncestryOpen));
    }
    let accepted_head = decode_head_entry(fields[3].as_slice())?;
    let branches = decode_branch_entries(fields[4].as_slice())?;
    let (leaves, digest_tree_root) = decode_tree(fields[6].as_slice())?;
    if leaves.len() < 2 || leaves.len() - 2 < receipts.len() || leaves.len() - 2 - receipts.len()
        != branches.len() {
        return Err(ExchangeError::Exchange(ExchangeErrorCode::DigestTreeMismatch));
    }
    let pack_len = fields[1].len();
    let expanded = match receipt_bytes(&receipts) {
        Some(a) => match branch_bytes(&branches) {
            Some(b) => if a > MAX_EXCHANGE_ALLOCATION || b > MAX_EXCHANGE_ALLOCATION {
                None
            } else {
                Some(pack_len + a + b)
            },
            None => None,
        },
        None => None,
    };
    match expanded {
        Some(total) => {
            if total > MAX_EXCHANGE_ALLOCATION {
                return Err(ExchangeError::Exchange(ExchangeErrorCode::ResourceLimit));
            }
        },
        None => {
            return Err(ExchangeError::Exchange(ExchangeErrorCode::ResourceLimit));
        },
    }
    let mut object_pack: Vec<u8> = Vec::new();
    crate::bytes::append_bytes(&mut object_pack, fields[1].as_slice());
    assert(object_pack@ =~= vs[1]);
    Ok(DecodedExchange { object_pack, receipts, accepted_head, branches, leaves, digest_tree_root })
}

/// Contract tag of a repository exchange.
pub const EXCHANGE_CONTRACT_TAG: u64 = 540;

/// The record fields of one stored receipt.
pub open spec fn receipt_fields(r: ReceiptView) -> Seq<(u64, Seq<u8>)> {
    seq![(1u64, r.0), (2u64, r.1), (3u64, r.2)]
}

/// The record fields of an exchange payload.
pub open spec fn exchange_payload_fields(v: ExchangeView) -> Seq<(u64, Seq<u8>)> {
    seq![
        (1u64, uvar_bytes(FORMAT_VERSION as nat)),
        (2u64, v.0),
        (3u64, enc_list(v.1.map_values(|r: ReceiptView| enc_record(receipt_fields(r))))),
        (4u64, enc_record(seq![(1u64, v.2.0), (2u64, v.2.1)])),
        (5u64, enc_list(v.3.map_values(|b: BranchView| enc_record(branch_fields(b))))),
        (6u64, uvar_bytes(COMPRESSION_NONE as nat)),
        (7u64, enc_record(tree_fields(v.4, v.5))),
        (8u64, enc_union(0, Seq::empty())),
    ]
}

/// The stored payload of an exchange.
pub open spec fn exchange_payload_bytes(v: ExchangeView) -> Seq<u8> {
    enc_record(exchange_payload_fields(v))
}

fn push_element(elements: &mut Vec<Vec<u8>>, value: Vec<u8>)
    ensures
        final(elements).deep_view() == old(elements).deep_view().push(value@),
{
    let ghost before = elements.deep_view();
    let ghost v = value@;
    assert(value.deep_view() =~= v);
    elements.push(value);
    assert(elements.deep_view() =~= before.push(v));
}

fn copy_vec(input: &[u8]) -> (r: Vec<u8>)
    ensures
        r@ == input@,
{
    let mut out: Vec<u8> = Vec::new();
    append_bytes(&mut out, input);
    assert(out@ =~= input@);
    out
}

/// Encodes an exchange payload: version, embedded pack, receipts, head,
/// branches, no compression, the digest tree and no signature.
pub fn encode_exchange_payload(
    object_pack: &[u8],
    receipts: &Vec<ExchangeReceiptEntry>,
    accepted_head: &ExchangeHeadEntry,
    branches: &Vec<ExchangeBranchEntry>,
    leaves: &Vec<[u8; 32]>,
    tree_root: &[u8; 32],
) -> (r: Vec<u8>)
    ensures
        r@ == exchange_payload_bytes(
            (
                object_pack@,
                receipts@.map_values(|e: ExchangeReceiptEntry| e@),
                (accepted_head.transaction_id@, accepted_head.receipt_id@),
                branches@.map_values(|e: ExchangeBranchEntry| e@),
                digests_view(leaves@),
                tree_root@,
            ),
        ),
{
    let ghost rv = receipts@.map_values(|e: ExchangeReceiptEntry| e@);
    let ghost re = rv.map_values(|r: ReceiptView| enc_record(receipt_fields(r)));
    let mut receipt_elements: Vec<Vec<u8>> = Vec::new();
    let mut i: usize = 0;
    assert(receipt_elements.deep_view() =~= re.take(0));
    while i < receipts.len()
        invariant
            i <= receipts@.len(),
            rv == receipts@.map_values(|e: ExchangeReceiptEntry| e@),
            re == rv.map_values(|r: ReceiptView| enc_record(receipt_fields(r))),
            receipt_elements.deep_view() == re.take(i as int),
        decreases receipts.len() - i,
    {
        let mut fields: Vec<(u64, Vec<u8>)> = Vec::new();
        assert(fields.deep_view() =~= Seq::<(u64, Seq<u8>)>::empty());
        push_field(&mut fields, 1, copy32(&receipts[i].transaction_id));
        push_field(&mut fields, 2, copy32(&receipts[i].receipt_id));
        push_field(&mut fields, 3, copy_vec(receipts[i].stored_bytes.as_slice()));
        assert(fields.deep_view() =~= receipt_fields(rv[i as int]));
        push_element(&mut receipt_elements, encode_record(&fields));
        assert(re.take(i + 1) =~= re.take(i as int).push(re[i as int]));
        i = i + 1;
    }
    assert(re.take(i as int) =~= re);
    let mut head_fields: Vec<(u64, Vec<u8>)> = Vec::new();
    assert(head_fields.deep_view() =~= Seq::<(u64, Seq<u8>)>::empty());
    push_field(&mut head_fields, 1, copy32(&accepted_head.transaction_id));
    push_field(&mut head_fields, 2, copy32(&accepted_head.receipt_id));
    let head = encode_record(&head_fields);
    assert(head_fields.deep_view() =~= seq![
        (1u64, accepted_head.transaction_id@),
        (2u64, accepted_head.receipt_id@),
    ]);
    let ghost bv = branches@.map_values(|e: ExchangeBranchEntry| e@);
    let ghost be = bv.map_values(|b: BranchView| enc_record(branch_fields(b)));
    let mut branch_elements: Vec<Vec<u8>> = Vec::new();
    let mut j: usize = 0;
    assert(branch_elements.deep_view() =~= be.take(0));
    while j < branches.len()
        invariant
            j <= branches@.len(),
            bv == branches@.map_values(|e: ExchangeBranchEntry| e@),
            be == bv.map_values(|b: BranchView| enc_record(branch_fields(b))),
            branch_elements.deep_view() == be.take(j as int),
        decreases branches.len() - j,
    {
        push_element(&mut branch_elements, encode_branch_element(&branches[j]));
        assert(be.take(j + 1) =~= be.take(j as int).push(be[j as int]));
        j = j + 1;
    }
    assert(be.take(j as int) =~= be);
    let ghost lv = digests_view(leaves@);
    let mut leaf_elements: Vec<Vec<u8>> = Vec::new();
    let mut k: usize = 0;
    assert(leaf_elements.deep_view() =~= lv.take(0));
    while k < leaves.len()
        invariant
            k <= leaves@.len(),
            lv == digests_view(leaves@),
            leaf_elements.deep_view() == lv.take(k as int),
        decreases leaves.len() - k,
    {
        push_element(&mut leaf_elements, copy32(&leaves[k]));
        assert(lv.take(k + 1) =~= lv.take(k as int).push(lv[k as int]));
        k = k + 1;
    }
    assert(lv.take(k as int) =~= lv);
    let mut tree: Vec<(u64, Vec<u8>)> = Vec::new();
    assert(tree.deep_view() =~= Seq::<(u64, Seq<u8>)>::empty());
    push_field(&mut tree, 1, encode_uvar(TREE_ALGORITHM_TAG));
    push_field(&mut tree, 2, encode_uvar(leaves.len() as u64));
    push_field(&mut tree, 3, encode_list(&leaf_elements));
    push_field(&mut tree, 4, copy32(tree_root));
    assert(tree.deep_view() =~= tree_fields(lv, tree_root@));
    let empty: [u8; 0] = [];
    let mut fields: Vec<(u64, Vec<u8>)> = Vec::new();
    assert(fields.deep_view() =~= Seq::<(u64, Seq<u8>)>::empty());
    push_field(&mut fields, 1, encode_uvar(FORMAT_VERSION));
    push_field(&mut fields, 2, copy_vec(object_pack));
    push_field(&mut fields, 3, encode_list(&receipt_elements));
    push_field(&mut fields, 4, head);
    push_field(&mut fields, 5, encode_list(&branch_elements));
    push_field(&mut fields, 6, encode_uvar(COMPRESSION_NONE));
    push_field(&mut fields, 7, encode_record(&tree));
    push_field(&mut fields, 8, encode_union(0, empty.as_slice()));
    proof {
        assert(empty@ =~= Seq::<u8>::empty());
        assert(fields.deep_view() =~= exchange_payload_fields(
            (object_pack@, rv, (accepted_head.transaction_id@, accepted_head.receipt_id@), bv, lv, tree_root@),
        ));
    }
    encode_record(&fields)
}

/// The bytes an exchange identity is derived from.
pub open spec fn exchange_preimage_spec(epoch: Seq<u8>, payload: Seq<u8>) -> Seq<u8> {
    magic() + uvar_bytes(FORMAT_VERSION as nat) + uvar_bytes(EXCHANGE_CONTRACT_TAG as nat) + epoch
        + uvar_bytes(payload.len()) + payload
}

/// Builds the preimage of an exchange under its schema epoch, refusing one
/// whose sealed form would pass `MAX_EXCHANGE_BYTES`.
pub fn encode_exchange_preimage(epoch_id: &[u8; 32], payload: &[u8]) -> (r: Result<Vec<u8>, ExchangeError>)
    ensures
        exchange_preimage_spec(epoch_id@, payload@).len() + 32 <= MAX_EXCHANGE_BYTES ==> r is Ok
            && r->Ok_0@ == exchange_preimage_spec(epoch_id@, payload@),
        exchange_preimage_spec(epoch_id@, payload@).len() + 32 > MAX_EXCHANGE_BYTES ==> r
            == Err::<Vec<u8>, ExchangeError>(ExchangeError::Exchange(ExchangeErrorCode::ResourceLimit)),
{
    let mut out: Vec<u8> = Vec::new();
    append_bytes(&mut out, magic_bytes());
    let version = encode_uvar(FORMAT_VERSION);
    append_bytes(&mut out, version.as_slice());
    let tag = encode_uvar(EXCHANGE_CONTRACT_TAG);
    append_bytes(&mut out, tag.as_slice());
    append_bytes(&mut out, epoch_id.as_slice());
    let len = encode_uvar(payload.len() as u64);
    append_bytes(&mut out, len.as_slice());
    if payload.len() > MAX_EXCHANGE_BYTES - 32 || out.len() > MAX_EXCHANGE_BYTES - 32 - payload.len() {
        return Err(ExchangeError::Exchange(ExchangeErrorCode::ResourceLimit));
    }
    append_bytes(&mut out, payload);
    assert(out@ =~= exchange_preimage_spec(epoch_id@, payload@));
    Ok(out)
}

/// Reading a stored exchange's envelope whose identity derived from every
/// byte before the trailer is `derived`: its schema epoch and payload.
pub open spec fn exchange_envelope_spec(s: Seq<u8>, derived: Seq<u8>) -> Result<(Seq<u8>, Seq<u8>), ExchangeError> {
    if s.len() > MAX_EXCHANGE_BYTES {
        Err(ExchangeError::Exchange(ExchangeErrorCode::ResourceLimit))
    } else if s.len() < 8 {
        Err(ExchangeError::Pack(PackFault::Scb(ScbErrorCode::LengthOverflow)))
    } else if s.take(8) != magic() {
        Err(ExchangeError::Pack(PackFault::Scb(ScbErrorCode::MagicInvalid)))
    } else {
        let s1 = s.skip(8);
        match read_uvar_spec(s1) {
            Err(c) => Err(ExchangeError::Pack(PackFault::Scb(c))),
            Ok((version, n1)) => if version != FORMAT_VERSION {
                Err(ExchangeError::Exchange(ExchangeErrorCode::VersionUnsupported))
            } else {
                let s2 = s1.skip(n1 as int);
                match read_uvar_spec(s2) {
                    Err(c) => Err(ExchangeError::Pack(PackFault::Scb(c))),
                    Ok((tag, n2)) => if tag != EXCHANGE_CONTRACT_TAG {
                        Err(ExchangeError::Pack(PackFault::Scb(ScbErrorCode::ContractUnknown)))
                    } else {
                        let s3 = s2.skip(n2 as int);
                        if s3.len() < 32 {
                            Err(ExchangeError::Pack(PackFault::Scb(ScbErrorCode::LengthOverflow)))
                        } else {
                            match exchange_tail_spec(s3.skip(32), derived) {
                                Err(e) => Err(e),
                                Ok(payload) => Ok((s3.take(32), payload)),
                            }
                        }
                    },
                }
            },
        }
    }
}

/// The rest of an envelope after its schema epoch: the payload length, the
/// payload, and the 32-byte identity trailer.
pub open spec fn exchange_tail_spec(s4: Seq<u8>, derived: Seq<u8>) -> Result<Seq<u8>, ExchangeError> {
    match read_len_spec(s4, MAX_EXCHANGE_BYTES) {
        Err(f) => Err(ExchangeError::Pack(f)),
        Ok((len, n4)) => {
            let s5 = s4.skip(n4 as int);
            if len > s5.len() {
                Err(ExchangeError::Pack(PackFault::Scb(ScbErrorCode::LengthOverflow)))
            } else {
                let s6 = s5.skip(len as int);
                if s6.len() < 32 {
                    Err(ExchangeError::Pack(PackFault::Scb(ScbErrorCode::LengthOverflow)))
                } else if s6.len() != 32 {
                    Err(ExchangeError::Pack(PackFault::Scb(ScbErrorCode::TrailingBytes)))
                } else if s6 != derived {
                    Err(ExchangeError::Exchange(ExchangeErrorCode::DigestMismatch))
                } else {
                    Ok(s5.take(len as int))
                }
            }
        },
    }
}

/// Reads a stored exchange: checks the envelope and that its trailer equals
/// `derived_id`, the identity derived from the bytes before the trailer;
/// returns the schema epoch and the payload.
#[verifier::rlimit(40)]
pub fn decode_exchange_envelope(input: &[u8], derived_id: &[u8; 32]) -> (r: Result<([u8; 32], Vec<u8>), ExchangeError>)
    ensures
        match exchange_envelope_spec(input@, derived_id@) {
            Ok((epoch, payload)) => r is Ok && r->Ok_0.0@ == epoch && r->Ok_0.1@ == payload,
            Err(e) => r == Err::<([u8; 32], Vec<u8>), ExchangeError>(e),
        },
{
    if input.len() > MAX_EXCHANGE_BYTES {
        return Err(ExchangeError::Exchange(ExchangeErrorCode::ResourceLimit));
    }
    let mut reader = Reader::new(input);
    let head = lift(reader.take_exact(8))?;
    if !bytes_equal(head.as_slice(), magic_bytes()) {
        return Err(ExchangeError::Pack(PackFault::Scb(ScbErrorCode::MagicInvalid)));
    }
    let ghost s1 = reader.rest();
    assert(s1 =~= input@.skip(8));
    let version = lift(reader.read_uvar())?;
    if version != FORMAT_VERSION {
        return Err(ExchangeError::Exchange(ExchangeErrorCode::VersionUnsupported));
    }
    let ghost s2 = reader.rest();
    proof {
        let n1 = read_uvar_spec(s1)->Ok_0.1;
        assert(s2 =~= s1.skip(n1 as int));
    }
    let tag = lift(reader.read_uvar())?;
    if tag != EXCHANGE_CONTRACT_TAG {
        return Err(ExchangeError::Pack(PackFault::Scb(ScbErrorCode::ContractUnknown)));
    }
    let ghost s3 = reader.rest();
    proof {
        let n2 = read_uvar_spec(s2)->Ok_0.1;
        assert(s3 =~= s2.skip(n2 as int));
    }
    let epoch = lift(reader.take_array())?;
    let ghost s4 = reader.rest();
    assert(s4 =~= s3.skip(32));
    let len = lift(reader.read_len(MAX_EXCHANGE_BYTES))?;
    let ghost s5 = reader.rest();
    proof {
        let n4 = read_len_spec(s4, MAX_EXCHANGE_BYTES)->Ok_0.1;
        assert(s5 =~= s4.skip(n4 as int));
    }
    let payload = lift(reader.take_exact(len))?;
    let ghost s6 = reader.rest();
    assert(s6 =~= s5.skip(len as int));
    let trailer = lift(reader.take_array())?;
    if !reader.is_finished() {
        return Err(ExchangeError::Pack(PackFault::Scb(ScbErrorCode::TrailingBytes)));
    }
    assert(s6.take(32) =~= s6);
    if !bytes_equal(trailer.as_slice(), derived_id.as_slice()) {
        return Err(ExchangeError::Exchange(ExchangeErrorCode::DigestMismatch));
    }
    Ok((epoch, payload))
}

/// The leaves an exchange's sections determine, given its pack's identity
/// and the path key of each branch name.
pub open spec fn expected_leaves(d: ExchangeView, pack_id: Seq<u8>, branch_keys: Seq<Seq<u8>>) -> Seq<Seq<u8>> {
    exchange_leaves(pack_id, d.0, d.1, d.3, branch_keys, d.2)
}

/// Checks the declared digest tree of a decoded exchange against the one
/// its sections determine: the leaves must be exactly those, and the root
/// their tree's root.
pub fn verify_digest_tree(decoded: &DecodedExchange, pack_id: &[u8; 32], branch_keys: &Vec<[u8; 32]>) -> (r:
    Result<(), ExchangeError>)
    requires
        branch_keys@.len() == decoded.branches@.len(),
    ensures
        ({
            let leaves = expected_leaves(decoded@, pack_id@, digests_view(branch_keys@));
            if decoded.receipts@.len() + decoded.branches@.len() + 2 > MAX_EXCHANGE_LEAVES {
                r == Err::<(), ExchangeError>(ExchangeError::Exchange(ExchangeErrorCode::ResourceLimit))
            } else if decoded@.4 == leaves && decoded@.5 == merkle_spec(exchange_node_domain(), leaves) {
                r is Ok
            } else {
                r == Err::<(), ExchangeError>(ExchangeError::Exchange(ExchangeErrorCode::DigestTreeMismatch))
            }
        }),
{
    let expected = compute_leaves(
        pack_id,
        decoded.object_pack.as_slice(),
        &decoded.receipts,
        &decoded.accepted_head,
        &decoded.branches,
        branch_keys,
    )?;
    if !digests_equal(&decoded.leaves, &expected) {
        return Err(ExchangeError::Exchange(ExchangeErrorCode::DigestTreeMismatch));
    }
    let root = merkle_root(&expected)?;
    if !bytes_equal(root.as_slice(), decoded.digest_tree_root.as_slice()) {
        return Err(ExchangeError::Exchange(ExchangeErrorCode::DigestTreeMismatch));
    }
    Ok(())
}

/// Builds the payload of an exchange from its sections: at least one and at
/// most `MAX_EXCHANGE_RECEIPTS` receipts and at most
/// `MAX_EXCHANGE_BRANCHES` branches, with the leaves those sections
/// determine and their tree's root.
pub fn build_exchange_payload(
    pack_id: &[u8; 32],
    object_pack: &[u8],
    receipts: &Vec<ExchangeReceiptEntry>,
    head: &ExchangeHeadEntry,
    branches: &Vec<ExchangeBranchEntry>,
    branch_keys: &Vec<[u8; 32]>,
) -> (r: Result<Vec<u8>, ExchangeError>)
    requires
        branch_keys@.len() == branches@.len(),
    ensures
        ({
            let rs = receipts@.map_values(|e: ExchangeReceiptEntry| e@);
            let bs = branches@.map_values(|e: ExchangeBranchEntry| e@);
            let h = (head.transaction_id@, head.receipt_id@);
            let leaves = exchange_leaves(pack_id@, object_pack@, rs, bs, digests_view(branch_keys@), h);
            if receipts@.len() == 0 || receipts@.len() > MAX_EXCHANGE_RECEIPTS || branches@.len()
                > MAX_EXCHANGE_BRANCHES {
                r == Err::<Vec<u8>, ExchangeError>(ExchangeError::Exchange(ExchangeErrorCode::ResourceLimit))
            } else {
                let v = (object_pack@, rs, h, bs, leaves, merkle_spec(exchange_node_domain(), leaves));
                &&& r is Ok
                &&& r->Ok_0@ == exchange_payload_bytes(v)
                &&& crate::exchange::all_32(leaves)
                &&& v.5.len() == 32
                &&& crate::exchange_laws::exchange_valid(v) ==> {
                    &&& exchange_payload_spec(r->Ok_0@) == Ok::<ExchangeView, ExchangeError>(v)
                    &&& v.4 == expected_leaves(v, pack_id@, digests_view(branch_keys@))
                    &&& v.5 == merkle_spec(exchange_node_domain(), expected_leaves(v, pack_id@, digests_view(branch_keys@)))
                }
            }
        }),
{
    if receipts.len() == 0 || receipts.len() > MAX_EXCHANGE_RECEIPTS || branches.len() > MAX_EXCHANGE_BRANCHES {
        return Err(ExchangeError::Exchange(ExchangeErrorCode::ResourceLimit));
    }
    let leaves = compute_leaves(pack_id, object_pack, receipts, head, branches, branch_keys)?;
    let root = merkle_root(&leaves)?;
    proof {
        let rs = receipts@.map_values(|e: ExchangeReceiptEntry| e@);
        let bs = branches@.map_values(|e: ExchangeBranchEntry| e@);
        let h = (head.transaction_id@, head.receipt_id@);
        let lv = exchange_leaves(pack_id@, object_pack@, rs, bs, digests_view(branch_keys@), h);
        assert(digests_view(leaves@) == lv);
        assert forall|i: int| 0 <= i < lv.len() implies (#[trigger] lv[i]).len() == 32 by {
            assert(lv[i] == leaves@[i]@);
        }
        let v = (object_pack@, rs, h, bs, lv, merkle_spec(exchange_node_domain(), lv));
        if crate::exchange_laws::exchange_valid(v) {
            crate::exchange_laws::lemma_built_exchange_verifies(
                pack_id@,
                object_pack@,
                rs,
                h,
                bs,
                digests_view(branch_keys@),
            );
        }
    }
    Ok(encode_exchange_payload(object_pack, receipts, head, branches, &leaves, &root))
}

} // verus!
