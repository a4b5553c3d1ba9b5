//! What the exchange codec promises as a whole: a valid exchange payload,
//! once encoded, decodes back to exactly itself, and a sealed exchange reads
//! back as its schema epoch and payload.

use vstd::prelude::*;

use crate::bytes::{lex, ByteOrder};
use crate::digest::merkle_spec;
use crate::exchange::{
    all_32, branch_fields, branch_spec, branches_from, branches_spec, exchange_leaves,
    exchange_node_domain, exchange_tree_spec, head_entry_spec, receipt_spec, receipts_from,
    receipts_spec, BranchView, ExchangeError, ReceiptView, MAX_EMBEDDED_PACK_BYTES,
    MAX_EXCHANGE_ALLOCATION, MAX_EXCHANGE_BRANCHES, MAX_EXCHANGE_BYTES, MAX_EXCHANGE_LEAVES,
    MAX_EXCHANGE_RECEIPTS,
};
use crate::exchange_payload::{
    branch_bytes_total, exchange_envelope_spec, exchange_payload_bytes, exchange_payload_fields,
    exchange_payload_spec, exchange_preimage_spec, expected_leaves, receipt_bytes_total,
    receipt_fields, ExchangeView, EXCHANGE_CONTRACT_TAG,
};
use crate::pack::{
    absent_signature_spec, lemma_id_order_ok, strictly_ascending, PackFault, COMPRESSION_NONE,
    FORMAT_VERSION, MAX_PACK_BYTES, TREE_ALGORITHM_TAG,
};
use crate::pack_encode::tree_fields;
use crate::pack_envelope::magic;
use crate::scb::{
    enc_bytes, enc_list, enc_record, enc_union, fields_numbered, items_fit, lemma_bytes_roundtrip,
    lemma_cursor_finish, lemma_cursor_start, lemma_cursor_step, lemma_enc_fields_len,
    lemma_enc_items_len, lemma_list_roundtrip, lemma_record_roundtrip, lemma_single_uvar_roundtrip,
    lemma_uvar_roundtrip, field_values, uvar_bytes,
};

verus! {

/// The list elements of a receipt section.
pub open spec fn receipt_elements(rs: Seq<ReceiptView>) -> Seq<Seq<u8>> {
    rs.map_values(|r: ReceiptView| enc_record(receipt_fields(r)))
}

/// The list elements of a branch section.
pub open spec fn branch_elements(bs: Seq<BranchView>) -> Seq<Seq<u8>> {
    bs.map_values(|b: BranchView| enc_record(branch_fields(b)))
}

/// The transactions of a receipt section, in order.
pub open spec fn receipt_transactions(rs: Seq<ReceiptView>) -> Seq<Seq<u8>> {
    rs.map_values(|r: ReceiptView| r.0)
}

/// Every receipt names a 32-byte transaction and a 32-byte receipt.
pub open spec fn receipt_ids_32(rs: Seq<ReceiptView>) -> bool {
    forall|i: int| 0 <= i < rs.len() ==> (#[trigger] rs[i]).0.len() == 32 && rs[i].1.len() == 32
}

/// An exchange the payload codec accepts: an embedded pack within its
/// ceiling, at least one receipt, receipts strictly ascending by
/// transaction, branches strictly ascending by their encoded elements,
/// one leaf per receipt and branch plus two, 32-byte identities, the
/// expansion ceiling, and a payload within the byte-string ceiling.
pub open spec fn exchange_valid(v: ExchangeView) -> bool {
    &&& v.0.len() <= MAX_EMBEDDED_PACK_BYTES
    &&& 1 <= v.1.len() <= MAX_EXCHANGE_RECEIPTS
    &&& receipt_ids_32(v.1)
    &&& strictly_ascending(receipt_transactions(v.1))
    &&& v.2.0.len() == 32
    &&& v.2.1.len() == 32
    &&& v.3.len() <= MAX_EXCHANGE_BRANCHES
    &&& strictly_ascending(branch_elements(v.3))
    &&& v.4.len() == v.1.len() + v.3.len() + 2
    &&& v.4.len() <= MAX_EXCHANGE_LEAVES
    &&& all_32(v.4)
    &&& v.5.len() == 32
    &&& v.0.len() + receipt_bytes_total(v.1) + branch_bytes_total(v.3) <= MAX_EXCHANGE_ALLOCATION
    &&& exchange_payload_bytes(v).len() <= MAX_PACK_BYTES
}

proof fn lemma_numbered(fs: Seq<(u64, Seq<u8>)>)
    requires
        enc_record(fs).len() <= MAX_PACK_BYTES,
        fs.len() <= 20,
        forall|i: int| 0 <= i < fs.len() ==> (#[trigger] fs[i]).0 == i + 1,
    ensures
        fields_numbered(fs, 1),
{
    assert forall|i: int| 0 <= i < fs.len() implies (#[trigger] fs[i]).1.len() <= MAX_PACK_BYTES by {
        lemma_enc_fields_len(fs, i);
    }
}

proof fn lemma_items_fit(es: Seq<Seq<u8>>)
    requires
        enc_list(es).len() <= MAX_PACK_BYTES,
    ensures
        items_fit(es),
{
    assert forall|i: int| 0 <= i < es.len() implies #[trigger] es[i].len() <= MAX_PACK_BYTES by {
        lemma_enc_items_len(es, i);
    }
}

/// One encoded receipt decodes back to itself.
#[verifier::rlimit(60)]
proof fn lemma_receipt_roundtrip(r: ReceiptView)
    requires
        r.0.len() == 32,
        r.1.len() == 32,
        enc_record(receipt_fields(r)).len() <= MAX_PACK_BYTES,
    ensures
        receipt_spec(enc_record(receipt_fields(r))) == Ok::<ReceiptView, ExchangeError>(r),
{
    reveal(receipt_spec);
    let fs = receipt_fields(r);
    lemma_numbered(fs);
    lemma_cursor_start(fs);
    lemma_cursor_step(fs, 0);
    lemma_cursor_step(fs, 1);
    lemma_cursor_step(fs, 2);
    lemma_cursor_finish(fs);
}

proof fn lemma_receipts_from(rs: Seq<ReceiptView>)
    requires
        receipt_ids_32(rs),
        items_fit(receipt_elements(rs)),
    ensures
        receipts_from(receipt_elements(rs)) == Ok::<Seq<ReceiptView>, ExchangeError>(rs),
    decreases rs.len(),
{
    reveal(receipts_from);
    let els = receipt_elements(rs);
    if rs.len() == 0 {
        assert(els =~= Seq::<Seq<u8>>::empty());
        assert(rs =~= Seq::<ReceiptView>::empty());
    } else {
        let t = rs.drop_first();
        let te = receipt_elements(t);
        assert(te =~= els.drop_first());
        assert forall|i: int| 0 <= i < t.len() implies (#[trigger] t[i]).0.len() == 32 && t[i].1.len()
            == 32 by {
            assert(t[i] == rs[i + 1]);
        }
        assert forall|i: int| 0 <= i < te.len() implies #[trigger] te[i].len() <= MAX_PACK_BYTES by {
            assert(te[i] == els[i + 1]);
        }
        lemma_receipts_from(t);
        assert(els[0] == enc_record(receipt_fields(rs[0])));
        lemma_receipt_roundtrip(rs[0]);
        assert(seq![rs[0]] + t =~= rs);
    }
}

/// An encoded receipt section decodes back to its receipts.
proof fn lemma_receipts_roundtrip(rs: Seq<ReceiptView>)
    requires
        receipt_ids_32(rs),
        rs.len() <= MAX_EXCHANGE_RECEIPTS,
        strictly_ascending(receipt_transactions(rs)),
        enc_list(receipt_elements(rs)).len() <= MAX_PACK_BYTES,
    ensures
        receipts_spec(enc_list(receipt_elements(rs))) == Ok::<Seq<ReceiptView>, ExchangeError>(rs),
{
    let els = receipt_elements(rs);
    lemma_items_fit(els);
    lemma_list_roundtrip(els, MAX_EXCHANGE_RECEIPTS);
    lemma_receipts_from(rs);
    lemma_id_order_ok(receipt_transactions(rs));
    assert(rs.map_values(|r: ReceiptView| r.0) =~= receipt_transactions(rs));
}

/// An encoded head entry decodes back to its transaction and receipt.
#[verifier::rlimit(60)]
proof fn lemma_head_entry_roundtrip(t: Seq<u8>, r: Seq<u8>)
    requires
        t.len() == 32,
        r.len() == 32,
    ensures
        head_entry_spec(enc_record(seq![(1u64, t), (2u64, r)])) == Ok::<
            (Seq<u8>, Seq<u8>),
            ExchangeError,
        >((t, r)),
{
    let fs = seq![(1u64, t), (2u64, r)];
    assert(fields_numbered(fs, 1));
    lemma_cursor_start(fs);
    lemma_cursor_step(fs, 0);
    lemma_cursor_step(fs, 1);
    lemma_cursor_finish(fs);
}

/// One encoded branch decodes back to itself.
#[verifier::rlimit(60)]
proof fn lemma_branch_roundtrip(b: BranchView)
    requires
        enc_record(branch_fields(b)).len() <= MAX_PACK_BYTES,
    ensures
        branch_spec(enc_record(branch_fields(b))) == Ok::<BranchView, ExchangeError>(b),
{
    reveal(branch_spec);
    let fs = branch_fields(b);
    lemma_numbered(fs);
    lemma_cursor_start(fs);
    lemma_cursor_step(fs, 0);
    lemma_cursor_step(fs, 1);
    lemma_cursor_step(fs, 2);
    lemma_cursor_finish(fs);
}

proof fn lemma_branches_from(bs: Seq<BranchView>, previous: Option<Seq<u8>>)
    requires
        items_fit(branch_elements(bs)),
        strictly_ascending(branch_elements(bs)),
        bs.len() > 0 && previous is Some ==> lex(previous->0, branch_elements(bs)[0])
            == ByteOrder::Less,
    ensures
        branches_from(branch_elements(bs), previous) == Ok::<Seq<BranchView>, ExchangeError>(bs),
    decreases bs.len(),
{
    reveal(branches_from);
    let els = branch_elements(bs);
    if bs.len() == 0 {
        assert(els =~= Seq::<Seq<u8>>::empty());
        assert(bs =~= Seq::<BranchView>::empty());
    } else {
        let t = bs.drop_first();
        let te = branch_elements(t);
        assert(te =~= els.drop_first());
        assert forall|i: int| 0 <= i < te.len() implies #[trigger] te[i].len() <= MAX_PACK_BYTES by {
            assert(te[i] == els[i + 1]);
        }
        assert forall|i: int| 0 <= i < te.len() - 1 implies #[trigger] lex(te[i], te[i + 1])
            == ByteOrder::Less by {
            assert(te[i] == els[i + 1]);
            assert(te[i + 1] == els[i + 2]);
            assert(lex(els[i + 1], els[(i + 1) + 1]) == ByteOrder::Less);
        }
        if t.len() > 0 {
            assert(te[0] == els[1]);
            assert(lex(els[0], els[0int + 1]) == ByteOrder::Less);
        }
        lemma_branches_from(t, Some(els[0]));
        assert(els[0] == enc_record(branch_fields(bs[0])));
        lemma_branch_roundtrip(bs[0]);
        assert(seq![bs[0]] + t =~= bs);
    }
}

/// An encoded branch section decodes back to its branches.
proof fn lemma_branches_roundtrip(bs: Seq<BranchView>)
    requires
        bs.len() <= MAX_EXCHANGE_BRANCHES,
        strictly_ascending(branch_elements(bs)),
        enc_list(branch_elements(bs)).len() <= MAX_PACK_BYTES,
    ensures
        branches_spec(enc_list(branch_elements(bs))) == Ok::<Seq<BranchView>, ExchangeError>(bs),
{
    let els = branch_elements(bs);
    lemma_items_fit(els);
    lemma_list_roundtrip(els, MAX_EXCHANGE_BRANCHES);
    lemma_branches_from(bs, None);
}

/// An encoded digest tree decodes back to its leaves and root.
#[verifier::spinoff_prover]
#[verifier::rlimit(90)]
proof fn lemma_tree_roundtrip(leaves: Seq<Seq<u8>>, root: Seq<u8>)
    requires
        3 <= leaves.len() <= MAX_EXCHANGE_LEAVES,
        all_32(leaves),
        root.len() == 32,
        enc_record(tree_fields(leaves, root)).len() <= MAX_PACK_BYTES,
    ensures
        exchange_tree_spec(enc_record(tree_fields(leaves, root))) == Ok::<
            (Seq<Seq<u8>>, Seq<u8>),
            ExchangeError,
        >((leaves, root)),
{
    reveal(exchange_tree_spec);
    let fs = tree_fields(leaves, root);
    lemma_numbered(fs);
    lemma_cursor_start(fs);
    lemma_cursor_step(fs, 0);
    lemma_cursor_step(fs, 1);
    lemma_cursor_step(fs, 2);
    lemma_cursor_step(fs, 3);
    lemma_cursor_finish(fs);
    lemma_single_uvar_roundtrip(TREE_ALGORITHM_TAG);
    lemma_single_uvar_roundtrip(leaves.len() as u64);
    assert(items_fit(leaves)) by {
        assert forall|i: int| 0 <= i < leaves.len() implies #[trigger] leaves[i].len()
            <= MAX_PACK_BYTES by {
            assert(leaves[i].len() == 32);
        }
    }
    lemma_list_roundtrip(leaves, MAX_EXCHANGE_LEAVES);
}

proof fn lemma_absent_signature()
    ensures
        absent_signature_spec(enc_union(0, Seq::empty())) == Ok::<(), PackFault>(()),
{
    let u = uvar_bytes(0);
    lemma_uvar_roundtrip(0, enc_bytes(Seq::empty()));
    lemma_bytes_roundtrip(Seq::empty(), Seq::empty());
    assert(enc_bytes(Seq::<u8>::empty()) + Seq::<u8>::empty() =~= enc_bytes(Seq::empty()));
    assert(enc_union(0, Seq::empty()).skip(u.len() as int) =~= enc_bytes(Seq::empty()));
}

/// A valid exchange, encoded as a payload, decodes back to exactly itself:
/// its embedded pack, receipts, head, branches, leaves and root.
#[verifier::rlimit(60)]
pub proof fn lemma_exchange_payload_roundtrip(v: ExchangeView)
    requires
        exchange_valid(v),
    ensures
        exchange_payload_spec(exchange_payload_bytes(v)) == Ok::<ExchangeView, ExchangeError>(v),
{
    let fs = exchange_payload_fields(v);
    lemma_numbered(fs);
    lemma_record_roundtrip(fs);
    let vs = field_values(fs);
    assert(vs.len() == 8);
    assert(vs[0] == uvar_bytes(FORMAT_VERSION as nat));
    assert(vs[1] == v.0);
    assert(vs[5] == uvar_bytes(COMPRESSION_NONE as nat));
    assert(vs[7] == enc_union(0, Seq::empty()));
    lemma_single_uvar_roundtrip(FORMAT_VERSION);
    lemma_single_uvar_roundtrip(COMPRESSION_NONE);
    lemma_absent_signature();
    assert(v.1.map_values(|r: ReceiptView| enc_record(receipt_fields(r))) =~= receipt_elements(v.1));
    assert(v.3.map_values(|b: BranchView| enc_record(branch_fields(b))) =~= branch_elements(v.3));
    assert(vs[2] == enc_list(receipt_elements(v.1)));
    assert(vs[3] == enc_record(seq![(1u64, v.2.0), (2u64, v.2.1)]));
    assert(vs[4] == enc_list(branch_elements(v.3)));
    assert(vs[6] == enc_record(tree_fields(v.4, v.5)));
    lemma_receipts_roundtrip(v.1);
    lemma_head_entry_roundtrip(v.2.0, v.2.1);
    lemma_branches_roundtrip(v.3);
    lemma_tree_roundtrip(v.4, v.5);
    assert((vs[1], v.1, (v.2.0, v.2.1), v.3, v.4, v.5) == v);
}

/// A sealed exchange, built from a schema epoch and a payload and closed
/// with the identity derived from that preimage, reads back as the epoch and
/// the payload.
pub proof fn lemma_exchange_envelope_roundtrip(epoch: Seq<u8>, payload: Seq<u8>, derived: Seq<u8>)
    requires
        epoch.len() == 32,
        derived.len() == 32,
        exchange_preimage_spec(epoch, payload).len() + 32 <= MAX_EXCHANGE_BYTES,
    ensures
        exchange_envelope_spec(exchange_preimage_spec(epoch, payload) + derived, derived) == Ok::<
            (Seq<u8>, Seq<u8>),
            ExchangeError,
        >((epoch, payload)),
{
    reveal_strlit("SLEYSCB1");
    assert(magic().len() == 8);
    let s = exchange_preimage_spec(epoch, payload) + derived;
    let uv = uvar_bytes(FORMAT_VERSION as nat);
    let ut = uvar_bytes(EXCHANGE_CONTRACT_TAG as nat);
    let ul = uvar_bytes(payload.len());
    let tail4 = ul + payload + derived;
    let tail3 = epoch + tail4;
    let tail2 = ut + tail3;
    let tail1 = uv + tail2;
    assert(s =~= magic() + tail1);
    assert(s.take(8) =~= magic());
    assert(s.skip(8) =~= tail1);
    lemma_uvar_roundtrip(FORMAT_VERSION, tail2);
    assert(tail1.skip(uv.len() as int) =~= tail2);
    lemma_uvar_roundtrip(EXCHANGE_CONTRACT_TAG, tail3);
    assert(tail2.skip(ut.len() as int) =~= tail3);
    assert(tail3.take(32) =~= epoch);
    assert(tail3.skip(32) =~= tail4);
    lemma_uvar_roundtrip(payload.len() as u64, payload + derived);
    assert(tail4 =~= ul + (payload + derived));
    assert(tail4.skip(ul.len() as int) =~= payload + derived);
    assert((payload + derived).take(payload.len() as int) =~= payload);
    assert((payload + derived).skip(payload.len() as int) =~= derived);
}

/// A valid exchange, encoded, sealed under a schema epoch and read back,
/// gives back its epoch and exactly itself.
pub proof fn lemma_exchange_roundtrip(v: ExchangeView, epoch: Seq<u8>, derived: Seq<u8>)
    requires
        exchange_valid(v),
        epoch.len() == 32,
        derived.len() == 32,
        exchange_preimage_spec(epoch, exchange_payload_bytes(v)).len() + 32 <= MAX_EXCHANGE_BYTES,
    ensures
        exchange_envelope_spec(exchange_preimage_spec(epoch, exchange_payload_bytes(v)) + derived, derived)
            == Ok::<(Seq<u8>, Seq<u8>), ExchangeError>((epoch, exchange_payload_bytes(v))),
        exchange_payload_spec(exchange_payload_bytes(v)) == Ok::<ExchangeView, ExchangeError>(v),
{
    lemma_exchange_envelope_roundtrip(epoch, exchange_payload_bytes(v), derived);
    lemma_exchange_payload_roundtrip(v);
}

/// An exchange built from valid sections reads back as itself, and its
/// declared digest tree is exactly the one its sections determine, so the
/// import-side tree check accepts it.
pub proof fn lemma_built_exchange_verifies(
    pack_id: Seq<u8>,
    object_pack: Seq<u8>,
    receipts: Seq<ReceiptView>,
    head: (Seq<u8>, Seq<u8>),
    branches: Seq<BranchView>,
    branch_keys: Seq<Seq<u8>>,
)
    requires
        exchange_valid(
            (
                object_pack,
                receipts,
                head,
                branches,
                exchange_leaves(pack_id, object_pack, receipts, branches, branch_keys, head),
                merkle_spec(
                    exchange_node_domain(),
                    exchange_leaves(pack_id, object_pack, receipts, branches, branch_keys, head),
                ),
            ),
        ),
    ensures
        ({
            let leaves = exchange_leaves(pack_id, object_pack, receipts, branches, branch_keys, head);
            let v = (object_pack, receipts, head, branches, leaves, merkle_spec(exchange_node_domain(), leaves));
            &&& exchange_payload_spec(exchange_payload_bytes(v)) == Ok::<ExchangeView, ExchangeError>(v)
            &&& v.4 == expected_leaves(v, pack_id, branch_keys)
            &&& v.5 == merkle_spec(exchange_node_domain(), expected_leaves(v, pack_id, branch_keys))
        }),
{
    let leaves = exchange_leaves(pack_id, object_pack, receipts, branches, branch_keys, head);
    let v = (object_pack, receipts, head, branches, leaves, merkle_spec(exchange_node_domain(), leaves));
    lemma_exchange_payload_roundtrip(v);
}

} // verus!
