//! What the conflict codec promises as a whole: a valid conflict, once
//! encoded and sealed, decodes back to exactly itself.

use vstd::prelude::*;

use crate::delta_laws::{all_32, object_ok};
use crate::merge::{ConflictReason, MergeError, MAX_CONFLICT_BYTES, MAX_CONFLICT_ENTRIES};
use crate::merge_conflict::{
    body_after_ids, conflict_body_spec, conflict_entries_spec, conflict_entry_spec,
    conflict_envelope_spec, conflict_payload_spec, conflict_preimage_spec, entries_sorted,
    entry_fields, entry_valid, header_ids_spec, object_field, stored_object, EntryView,
    CONFLICT_CONTRACT_TAG, CONFLICT_FORMAT_VERSION,
};
use crate::pack::MAX_PACK_BYTES;
use crate::pack_envelope::magic;
use crate::scb::{
    cursor_at, enc_list, enc_record, fields_numbered, lemma_cursor_finish, lemma_cursor_start,
    lemma_cursor_step, lemma_enc_fields_len, lemma_enc_items_len, lemma_list_roundtrip,
    lemma_single_uvar_roundtrip, lemma_uvar_roundtrip, uvar_bytes, Cursor,
};

verus! {

/// A conflict entry the decoder accepts: a 32-byte identity, stored objects
/// that are not all zeros, and the entry rules.
pub open spec fn conflict_entry_ok(e: EntryView) -> bool {
    e.0.len() == 32 && object_ok(e.4) && object_ok(e.5) && entry_valid(e)
}

/// A conflict the codec accepts: six 32-byte header identities and between
/// one and `MAX_CONFLICT_ENTRIES` valid entries in strictly ascending order.
pub open spec fn conflict_valid(ids: Seq<Seq<u8>>, entries: Seq<EntryView>) -> bool {
    &&& ids.len() == 6
    &&& all_32(ids)
    &&& 1 <= entries.len() <= MAX_CONFLICT_ENTRIES
    &&& forall|i: int| 0 <= i < entries.len() ==> conflict_entry_ok(#[trigger] entries[i])
    &&& entries_sorted(entries)
}

/// The stored list elements of conflict entries.
pub open spec fn entry_elements(entries: Seq<EntryView>) -> Seq<Seq<u8>> {
    entries.map_values(|e: EntryView| enc_record(entry_fields(e)))
}

proof fn lemma_values_fit(fs: Seq<(u64, Seq<u8>)>)
    requires
        enc_record(fs).len() <= MAX_PACK_BYTES,
        fs.len() <= 20,
        forall|i: int| 0 <= i < fs.len() ==> (#[trigger] fs[i]).0 == i + 1,
    ensures
        fields_numbered(fs, 1),
{
    assert forall|i: int| 0 <= i < fs.len() implies (#[trigger] fs[i]).1.len() <= MAX_PACK_BYTES by {
        lemma_enc_fields_len(fs, i);
    }
}

proof fn lemma_small_u32(x: u32)
    ensures
        crate::merge_conflict::small_u32_spec(uvar_bytes(x as nat)) == Ok::<u32, MergeError>(x),
{
    lemma_single_uvar_roundtrip(x as u64);
}

#[verifier::spinoff_prover]
#[verifier::rlimit(40)]
proof fn lemma_entry_tail(e: EntryView)
    requires
        conflict_entry_ok(e),
        fields_numbered(entry_fields(e), 1),
    ensures
        crate::merge_conflict::entry_tail_spec(cursor_at(entry_fields(e), 4), e.0, e.1, e.2, e.3)
            == Ok::<EntryView, MergeError>(e),
{
    let fs = entry_fields(e);
    lemma_cursor_step(fs, 4);
    lemma_cursor_step(fs, 5);
    lemma_cursor_step(fs, 6);
    lemma_cursor_finish(fs);
    lemma_small_u32(e.6);
    assert(stored_object(object_field(e.4)) == e.4);
    assert(stored_object(object_field(e.5)) == e.5);
}

/// One encoded conflict entry decodes back to itself.
#[verifier::spinoff_prover]
#[verifier::rlimit(40)]
proof fn lemma_conflict_entry_roundtrip(e: EntryView)
    requires
        conflict_entry_ok(e),
        enc_record(entry_fields(e)).len() <= MAX_PACK_BYTES,
    ensures
        conflict_entry_spec(enc_record(entry_fields(e))) == Ok::<EntryView, MergeError>(e),
{
    let fs = entry_fields(e);
    lemma_values_fit(fs);
    lemma_cursor_start(fs);
    lemma_cursor_step(fs, 0);
    lemma_cursor_step(fs, 1);
    lemma_cursor_step(fs, 2);
    lemma_cursor_step(fs, 3);
    lemma_single_uvar_roundtrip(e.1.tag_spec() as u64);
    assert(crate::merge_conflict::reason_of(e.1.tag_spec() as u64) == Some(e.1));
    assert(crate::merge_conflict::reason_spec(fs[1].1) == Ok::<crate::merge::ConflictReason, MergeError>(e.1));
    lemma_small_u32(e.2);
    lemma_small_u32(e.3);
    lemma_entry_tail(e);
    let s = enc_record(fs);
    let tail = crate::merge_conflict::entry_tail_spec(cursor_at(fs, 4), e.0, e.1, e.2, e.3);
    assert(crate::merge_conflict::fmt(crate::scb::record_start(s)) == Ok::<Cursor, MergeError>(cursor_at(fs, 0)));
    assert(crate::merge_conflict::fixed32_spec(e.0) == Ok::<Seq<u8>, MergeError>(e.0));
    assert(conflict_entry_spec(s) == tail) by {
        reveal(conflict_entry_spec);
    }
}

proof fn lemma_entries_decoded(entries: Seq<EntryView>)
    requires
        forall|i: int| 0 <= i < entries.len() ==> conflict_entry_ok(#[trigger] entries[i]),
        forall|i: int|
            0 <= i < entries.len() ==> (#[trigger] entry_elements(entries)[i]).len() <= MAX_PACK_BYTES,
    ensures
        conflict_entries_spec(entry_elements(entries)) == Ok::<Seq<EntryView>, MergeError>(entries),
    decreases entries.len(),
{
    let els = entry_elements(entries);
    reveal(conflict_entries_spec);
    if entries.len() == 0 {
        assert(els =~= Seq::<Seq<u8>>::empty());
        assert(entries =~= Seq::<EntryView>::empty());
    } else {
        let t = entries.drop_first();
        assert(entry_elements(t) =~= els.drop_first());
        assert forall|i: int| 0 <= i < t.len() implies conflict_entry_ok(#[trigger] t[i]) by {
            assert(t[i] == entries[i + 1]);
        }
        assert forall|i: int| 0 <= i < t.len() implies (#[trigger] entry_elements(t)[i]).len()
            <= MAX_PACK_BYTES by {
            assert(entry_elements(t)[i] == els[i + 1]);
        }
        lemma_entries_decoded(t);
        assert(els[0] == enc_record(entry_fields(entries[0])));
        lemma_conflict_entry_roundtrip(entries[0]);
        assert(seq![entries[0]] + t =~= entries);
    }
}

proof fn lemma_header_ids(fs: Seq<(u64, Seq<u8>)>, ids: Seq<Seq<u8>>, k: int)
    requires
        fields_numbered(fs, 1),
        fs.len() == 8,
        ids.len() == 6,
        all_32(ids),
        forall|i: int| 1 <= i <= 6 ==> (#[trigger] fs[i]).1 == ids[i - 1],
        1 <= k <= 7,
    ensures
        header_ids_spec(cursor_at(fs, k), (k + 1) as u64, (7 - k) as nat) == Ok::<
            (Seq<Seq<u8>>, Cursor),
            MergeError,
        >((ids.skip(k - 1), cursor_at(fs, 7))),
    decreases 7 - k,
{
    if k == 7 {
        assert(ids.skip(6) =~= Seq::<Seq<u8>>::empty());
    } else {
        lemma_cursor_step(fs, k);
        lemma_header_ids(fs, ids, k + 1);
        assert(fs[k].1 == ids[k - 1]);
        assert(ids[k - 1].len() == 32);
        assert(seq![ids[k - 1]] + ids.skip(k) =~= ids.skip(k - 1));
    }
}

/// A valid conflict's payload decodes back to its header identities and
/// entries.
#[verifier::spinoff_prover]
#[verifier::rlimit(60)]
pub proof fn lemma_conflict_body_roundtrip(ids: Seq<Seq<u8>>, entries: Seq<EntryView>)
    requires
        conflict_valid(ids, entries),
        conflict_payload_spec(ids, entries).len() <= MAX_PACK_BYTES,
    ensures
        conflict_body_spec(conflict_payload_spec(ids, entries)) == Ok::<
            (Seq<Seq<u8>>, Seq<EntryView>),
            MergeError,
        >((ids, entries)),
{
    let els = entry_elements(entries);
    let fs = seq![
        (1u64, uvar_bytes(CONFLICT_FORMAT_VERSION as nat)),
        (2u64, ids[0]),
        (3u64, ids[1]),
        (4u64, ids[2]),
        (5u64, ids[3]),
        (6u64, ids[4]),
        (7u64, ids[5]),
        (8u64, enc_list(els)),
    ];
    let p = conflict_payload_spec(ids, entries);
    assert(p == enc_record(fs));
    lemma_values_fit(fs);
    lemma_cursor_start(fs);
    lemma_cursor_step(fs, 0);
    lemma_single_uvar_roundtrip(CONFLICT_FORMAT_VERSION);
    lemma_header_ids(fs, ids, 1);
    assert(ids.skip(0) =~= ids);
    lemma_cursor_step(fs, 7);
    lemma_cursor_finish(fs);
    assert forall|i: int| 0 <= i < els.len() implies #[trigger] els[i].len() <= MAX_PACK_BYTES by {
        lemma_enc_items_len(els, i);
    }
    lemma_list_roundtrip(els, MAX_CONFLICT_ENTRIES);
    lemma_entries_decoded(entries);
    reveal(body_after_ids);
}

/// A stored conflict built from a schema epoch and a payload reads back as
/// that payload, given the identity it was sealed with.
pub proof fn lemma_conflict_envelope_roundtrip(epoch: Seq<u8>, payload: Seq<u8>, derived: Seq<u8>)
    requires
        epoch.len() == 32,
        derived.len() == 32,
        conflict_preimage_spec(epoch, payload).len() + 32 <= MAX_CONFLICT_BYTES,
    ensures
        conflict_envelope_spec(conflict_preimage_spec(epoch, payload) + derived, epoch, derived) == Ok::<
            Seq<u8>,
            MergeError,
        >(payload),
{
    reveal_strlit("SLEYSCB1");
    assert(magic().len() == 8);
    let s = conflict_preimage_spec(epoch, payload) + derived;
    let uv = uvar_bytes(CONFLICT_FORMAT_VERSION as nat);
    let ut = uvar_bytes(CONFLICT_CONTRACT_TAG as nat);
    let ul = uvar_bytes(payload.len());
    let tail4 = ul + payload + derived;
    let tail3 = epoch + tail4;
    let tail2 = ut + tail3;
    let tail1 = uv + tail2;
    assert(s =~= magic() + tail1);
    assert(s.take(8) =~= magic());
    assert(s.skip(8) =~= tail1);
    lemma_uvar_roundtrip(CONFLICT_FORMAT_VERSION, tail2);
    assert(tail1.skip(uv.len() as int) =~= tail2);
    lemma_uvar_roundtrip(CONFLICT_CONTRACT_TAG, tail3);
    assert(tail2.skip(ut.len() as int) =~= tail3);
    assert(tail3.take(32) =~= epoch);
    assert(tail3.skip(32) =~= tail4);
    lemma_uvar_roundtrip(payload.len() as u64, payload + derived);
    assert(tail4 =~= ul + (payload + derived));
    assert(tail4.skip(ul.len() as int) =~= payload + derived);
    assert((payload + derived).take(payload.len() as int) =~= payload);
    assert((payload + derived).skip(payload.len() as int) =~= derived);
}

/// A valid conflict, encoded under the conflict schema epoch and sealed
/// with the identity derived from its preimage, decodes back to exactly its
/// header identities and entries.
pub proof fn lemma_conflict_roundtrip(
    ids: Seq<Seq<u8>>,
    entries: Seq<EntryView>,
    epoch: Seq<u8>,
    derived: Seq<u8>,
)
    requires
        conflict_valid(ids, entries),
        epoch.len() == 32,
        derived.len() == 32,
        conflict_preimage_spec(epoch, conflict_payload_spec(ids, entries)).len() + 32
            <= MAX_CONFLICT_BYTES,
    ensures
        conflict_envelope_spec(
            conflict_preimage_spec(epoch, conflict_payload_spec(ids, entries)) + derived,
            epoch,
            derived,
        ) == Ok::<Seq<u8>, MergeError>(conflict_payload_spec(ids, entries)),
        conflict_body_spec(conflict_payload_spec(ids, entries)) == Ok::<
            (Seq<Seq<u8>>, Seq<EntryView>),
            MergeError,
        >((ids, entries)),
{
    let p = conflict_payload_spec(ids, entries);
    assert(p.len() <= conflict_preimage_spec(epoch, p).len());
    lemma_conflict_envelope_roundtrip(epoch, p, derived);
    lemma_conflict_body_roundtrip(ids, entries);
}


/// A field-edit entry on any field number `1..=8` of an entity kind in
/// `1..=18`, with a zero detail, obeys the entry rules: field edits on every
/// field of the modeled kinds, the last ones included, are storable.
pub proof fn lemma_field_edit_entry_valid(e: EntryView)
    requires
        e.1 == ConflictReason::FieldEdit,
        1 <= e.3 <= 8,
        1 <= e.2 <= 18,
        e.6 == 0,
    ensures
        entry_valid(e),
{
}

/// A conflict made of field-edit entries round-trips: with six 32-byte
/// header identities and between one and `MAX_CONFLICT_ENTRIES` entries in
/// ascending order, each a field edit on a field `1..=8` of a kind in
/// `1..=18` with a 32-byte identity, a zero detail and stored objects that
/// are not all zeros, the sealed record opens and decodes back to exactly
/// the header identities and entries that were encoded.
pub proof fn lemma_field_edit_conflict_roundtrip(
    ids: Seq<Seq<u8>>,
    entries: Seq<EntryView>,
    epoch: Seq<u8>,
    derived: Seq<u8>,
)
    requires
        ids.len() == 6,
        all_32(ids),
        1 <= entries.len() <= MAX_CONFLICT_ENTRIES,
        entries_sorted(entries),
        forall|i: int|
            0 <= i < entries.len() ==> {
                let e = #[trigger] entries[i];
                &&& e.0.len() == 32
                &&& e.1 == ConflictReason::FieldEdit
                &&& 1 <= e.2 <= 18
                &&& 1 <= e.3 <= 8
                &&& object_ok(e.4)
                &&& object_ok(e.5)
                &&& e.6 == 0
            },
        epoch.len() == 32,
        derived.len() == 32,
        conflict_preimage_spec(epoch, conflict_payload_spec(ids, entries)).len() + 32
            <= MAX_CONFLICT_BYTES,
    ensures
        conflict_envelope_spec(
            conflict_preimage_spec(epoch, conflict_payload_spec(ids, entries)) + derived,
            epoch,
            derived,
        ) == Ok::<Seq<u8>, MergeError>(conflict_payload_spec(ids, entries)),
        conflict_body_spec(conflict_payload_spec(ids, entries)) == Ok::<
            (Seq<Seq<u8>>, Seq<EntryView>),
            MergeError,
        >((ids, entries)),
{
    assert forall|i: int| 0 <= i < entries.len() implies conflict_entry_ok(#[trigger] entries[i]) by {
        lemma_field_edit_entry_valid(entries[i]);
    }
    lemma_conflict_roundtrip(ids, entries, epoch, derived);
}

} // verus!
