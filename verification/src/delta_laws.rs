//! What the delta codec promises as a whole: a valid delta, once encoded and
//! sealed, decodes back to exactly itself.

use vstd::prelude::*;

use crate::compare::CompareError;
use crate::delta::{
    delta_payload_spec, delta_preimage_spec, disorder, elements, encode_fault, entity_fields,
    field_fields, body_fields, payload_fields, relation_fields, BodyDelta, BodyView, DeltaView,
    EntityDelta, EntityView, FieldDelta, FieldView, Keyed, RelationDelta, RelationView,
    DELTA_CONTRACT_TAG, DELTA_FORMAT_VERSION, MAX_BODY_DELTAS, MAX_DELTA_BYTES, MAX_ENTITY_DELTAS,
    MAX_FIELD_DELTAS, MAX_IDENTITY_SET, MAX_RELATION_DELTAS,
};
use crate::delta_decode::{
    body_entry_spec, canonical_check, decoded_all, delta_body_spec, delta_envelope_spec,
    delta_sections_spec, delta_sets_spec, edge_kind_ok, entity_entry_spec, entity_shape_ok,
    field_entry_spec, field_rules_ok, fixed_all, id_set_spec, kind_ok, relation_entry_spec,
    section_spec, StoredEntry,
};
use crate::merge_conflict::{object_field, stored_object, zero32};
use crate::pack::MAX_PACK_BYTES;
use crate::pack_envelope::magic;
use crate::scb::{
    cursor_at, enc_list, enc_record, fields_numbered, items_fit, lemma_cursor_finish,
    lemma_cursor_start, lemma_cursor_step, lemma_enc_fields_len, lemma_enc_items_len,
    lemma_list_roundtrip, lemma_single_uvar_roundtrip, lemma_uvar_roundtrip, uvar_bytes,
};

verus! {

/// Every identity in the list is 32 bytes long.
pub open spec fn all_32(ids: Seq<Seq<u8>>) -> bool {
    forall|i: int| 0 <= i < ids.len() ==> (#[trigger] ids[i]).len() == 32
}

/// A stored object is a 32-byte identity other than all zeros, which
/// stands for no object.
pub open spec fn object_ok(o: Option<Seq<u8>>) -> bool {
    match o {
        Some(x) => x.len() == 32 && x != zero32(),
        None => true,
    }
}

/// An entity entry the decoder accepts.
pub open spec fn entity_valid(v: EntityView) -> bool {
    &&& v.0.len() == 32
    &&& kind_ok(v.2, true)
    &&& kind_ok(v.3, true)
    &&& object_ok(v.4)
    &&& object_ok(v.5)
    &&& entity_shape_ok(v)
}

/// A field entry the decoder accepts.
pub open spec fn field_valid(v: FieldView) -> bool {
    &&& v.0.len() == 32
    &&& kind_ok(v.1, false)
    &&& field_rules_ok(v.2, v.3)
    &&& all_32(v.4)
    &&& all_32(v.5)
    &&& v.4.len() <= MAX_IDENTITY_SET
    &&& v.5.len() <= MAX_IDENTITY_SET
    &&& disorder::<[u8; 32]>(v.4) is None
    &&& disorder::<[u8; 32]>(v.5) is None
}

/// A body entry the decoder accepts.
pub open spec fn body_valid(v: BodyView) -> bool {
    v.0.len() == 32 && v.1.len() == 32 && v.2.len() == 32 && v.1 != v.2
}

/// A relation entry the decoder accepts.
pub open spec fn relation_valid(v: RelationView) -> bool {
    v.0.len() == 32 && v.1.len() == 32 && edge_kind_ok(v.2)
}

/// A delta the codec accepts: 32-byte identities, entries that obey their
/// rules, sections within their limits, and every section and identity set
/// strictly ascending.
pub open spec fn delta_valid(d: DeltaView) -> bool {
    &&& d.0.len() == 4
    &&& all_32(d.0)
    &&& d.5.len() == 5
    &&& forall|i: int| 0 <= i < 5 ==> all_32(#[trigger] d.5[i]) && d.5[i].len() <= MAX_IDENTITY_SET
    &&& d.1.len() <= MAX_ENTITY_DELTAS
    &&& d.2.len() <= MAX_FIELD_DELTAS
    &&& d.3.len() <= MAX_BODY_DELTAS
    &&& d.4.len() <= MAX_RELATION_DELTAS
    &&& forall|i: int| 0 <= i < d.1.len() ==> entity_valid(#[trigger] d.1[i])
    &&& forall|i: int| 0 <= i < d.2.len() ==> field_valid(#[trigger] d.2[i])
    &&& forall|i: int| 0 <= i < d.3.len() ==> body_valid(#[trigger] d.3[i])
    &&& forall|i: int| 0 <= i < d.4.len() ==> relation_valid(#[trigger] d.4[i])
    &&& encode_fault(d) is None
}

proof fn lemma_record_values_fit(fs: Seq<(u64, Seq<u8>)>)
    requires
        enc_record(fs).len() <= MAX_PACK_BYTES,
    ensures
        forall|i: int| 0 <= i < fs.len() ==> (#[trigger] fs[i]).1.len() <= MAX_PACK_BYTES,
{
    assert forall|i: int| 0 <= i < fs.len() implies (#[trigger] fs[i]).1.len() <= MAX_PACK_BYTES by {
        lemma_enc_fields_len(fs, i);
    }
}

proof fn lemma_list_items_fit(es: Seq<Seq<u8>>)
    requires
        enc_list(es).len() <= MAX_PACK_BYTES,
    ensures
        items_fit(es),
{
    assert forall|i: int| 0 <= i < es.len() implies #[trigger] es[i].len() <= MAX_PACK_BYTES by {
        lemma_enc_items_len(es, i);
    }
}

proof fn lemma_fixed_all(ids: Seq<Seq<u8>>)
    requires
        all_32(ids),
    ensures
        fixed_all(ids) == Ok::<Seq<Seq<u8>>, CompareError>(ids),
    decreases ids.len(),
{
    if ids.len() > 0 {
        let t = ids.drop_first();
        assert(all_32(t)) by {
            assert forall|i: int| 0 <= i < t.len() implies (#[trigger] t[i]).len() == 32 by {
                assert(t[i] == ids[i + 1]);
            }
        }
        lemma_fixed_all(t);
        assert(seq![ids[0]] + t =~= ids);
    } else {
        assert(ids =~= Seq::<Seq<u8>>::empty());
    }
}

/// An encoded identity set reads back as itself.
proof fn lemma_id_set_roundtrip(ids: Seq<Seq<u8>>, maximum: usize)
    requires
        all_32(ids),
        ids.len() <= maximum,
        disorder::<[u8; 32]>(ids) is None,
        enc_list(ids).len() <= MAX_PACK_BYTES,
    ensures
        id_set_spec(enc_list(ids), maximum) == Ok::<Seq<Seq<u8>>, CompareError>(ids),
{
    lemma_list_items_fit(ids);
    lemma_list_roundtrip(ids, maximum);
    lemma_fixed_all(ids);
}

proof fn lemma_numbered(fs: Seq<(u64, Seq<u8>)>)
    requires
        enc_record(fs).len() <= MAX_PACK_BYTES,
        fs.len() <= 20,
        forall|i: int| 0 <= i < fs.len() ==> (#[trigger] fs[i]).0 == i + 1,
    ensures
        fields_numbered(fs, 1),
{
    lemma_record_values_fit(fs);
}

/// One encoded entity entry decodes back to itself.
#[verifier::spinoff_prover]
#[verifier::rlimit(60)]
proof fn lemma_entity_roundtrip(v: EntityView)
    requires
        entity_valid(v),
        enc_record(entity_fields(v)).len() <= MAX_PACK_BYTES,
    ensures
        entity_entry_spec(enc_record(entity_fields(v))) == Ok::<EntityView, CompareError>(v),
{
    let fs = entity_fields(v);
    lemma_numbered(fs);
    lemma_cursor_start(fs);
    lemma_cursor_step(fs, 0);
    lemma_cursor_step(fs, 1);
    lemma_cursor_step(fs, 2);
    lemma_cursor_step(fs, 3);
    lemma_cursor_step(fs, 4);
    lemma_cursor_step(fs, 5);
    lemma_cursor_finish(fs);
    let tag = v.1.tag_spec() as u64;
    lemma_single_uvar_roundtrip(tag);
    lemma_single_uvar_roundtrip(v.2 as u64);
    lemma_single_uvar_roundtrip(v.3 as u64);
    assert(crate::delta_decode::fixed_field(cursor_at(fs, 0), 1) == Ok::<(Seq<u8>, crate::scb::Cursor), CompareError>((v.0, cursor_at(fs, 1))));
    assert(crate::delta_decode::uvar_field(cursor_at(fs, 1), 2) == Ok::<(u64, crate::scb::Cursor), CompareError>((tag, cursor_at(fs, 2))));
    assert(crate::delta_decode::change_of(tag) == Some(v.1));
    assert(crate::delta_decode::kind_field(cursor_at(fs, 2), 3, true) == Ok::<(u32, crate::scb::Cursor), CompareError>((v.2, cursor_at(fs, 3))));
    assert(crate::delta_decode::kind_field(cursor_at(fs, 3), 4, true) == Ok::<(u32, crate::scb::Cursor), CompareError>((v.3, cursor_at(fs, 4))));
    assert(crate::delta_decode::fixed_field(cursor_at(fs, 4), 5) == Ok::<(Seq<u8>, crate::scb::Cursor), CompareError>((object_field(v.4), cursor_at(fs, 5))));
    assert(crate::delta_decode::fixed_field(cursor_at(fs, 5), 6) == Ok::<(Seq<u8>, crate::scb::Cursor), CompareError>((object_field(v.5), cursor_at(fs, 6))));
    assert(stored_object(object_field(v.4)) == v.4);
    assert(stored_object(object_field(v.5)) == v.5);
    reveal(entity_entry_spec);
}

/// One encoded field entry decodes back to itself.
#[verifier::rlimit(60)]
proof fn lemma_field_roundtrip(v: FieldView)
    requires
        field_valid(v),
        enc_record(field_fields(v)).len() <= MAX_PACK_BYTES,
    ensures
        field_entry_spec(enc_record(field_fields(v))) == Ok::<FieldView, CompareError>(v),
{
    reveal(field_entry_spec);
    let fs = field_fields(v);
    lemma_numbered(fs);
    lemma_cursor_start(fs);
    lemma_cursor_step(fs, 0);
    lemma_cursor_step(fs, 1);
    lemma_cursor_step(fs, 2);
    lemma_cursor_step(fs, 3);
    lemma_cursor_step(fs, 4);
    lemma_cursor_step(fs, 5);
    lemma_cursor_finish(fs);
    lemma_single_uvar_roundtrip(v.1 as u64);
    lemma_single_uvar_roundtrip(v.2 as u64);
    lemma_single_uvar_roundtrip(v.3 as u64);
    lemma_id_set_roundtrip(v.4, MAX_IDENTITY_SET);
    lemma_id_set_roundtrip(v.5, MAX_IDENTITY_SET);
}

/// One encoded body entry decodes back to itself.
#[verifier::rlimit(60)]
proof fn lemma_body_roundtrip(v: BodyView)
    requires
        body_valid(v),
        enc_record(body_fields(v)).len() <= MAX_PACK_BYTES,
    ensures
        body_entry_spec(enc_record(body_fields(v))) == Ok::<BodyView, CompareError>(v),
{
    reveal(body_entry_spec);
    let fs = body_fields(v);
    lemma_numbered(fs);
    lemma_cursor_start(fs);
    lemma_cursor_step(fs, 0);
    lemma_cursor_step(fs, 1);
    lemma_cursor_step(fs, 2);
    lemma_cursor_step(fs, 3);
    lemma_cursor_step(fs, 4);
    lemma_cursor_step(fs, 5);
    lemma_cursor_step(fs, 6);
    lemma_cursor_finish(fs);
    lemma_single_uvar_roundtrip(v.3 as u64);
    lemma_single_uvar_roundtrip(v.4 as u64);
    lemma_single_uvar_roundtrip(v.5 as u64);
    lemma_single_uvar_roundtrip(v.6 as u64);
}

/// One encoded relation entry decodes back to itself.
#[verifier::rlimit(60)]
proof fn lemma_relation_roundtrip(v: RelationView)
    requires
        relation_valid(v),
        enc_record(relation_fields(v)).len() <= MAX_PACK_BYTES,
    ensures
        relation_entry_spec(enc_record(relation_fields(v))) == Ok::<RelationView, CompareError>(v),
{
    reveal(relation_entry_spec);
    let fs = relation_fields(v);
    lemma_numbered(fs);
    lemma_cursor_start(fs);
    lemma_cursor_step(fs, 0);
    lemma_cursor_step(fs, 1);
    lemma_cursor_step(fs, 2);
    lemma_cursor_step(fs, 3);
    lemma_cursor_finish(fs);
    lemma_single_uvar_roundtrip(v.2 as u64);
    lemma_single_uvar_roundtrip(v.3.tag_spec() as u64);
}

proof fn lemma_decoded_all<K: StoredEntry>(vs: Seq<K::V>)
    requires
        forall|i: int|
            #![trigger vs[i]]
            0 <= i < vs.len() ==> K::decode_spec(K::element(vs[i])) == Ok::<K::V, CompareError>(vs[i]),
    ensures
        decoded_all::<K>(elements::<K>(vs)) == Ok::<Seq<K::V>, CompareError>(vs),
    decreases vs.len(),
{
    let els = elements::<K>(vs);
    if vs.len() == 0 {
        assert(els =~= Seq::<Seq<u8>>::empty());
        assert(vs =~= Seq::<K::V>::empty());
    } else {
        let t = vs.drop_first();
        assert(elements::<K>(t) =~= els.drop_first());
        assert forall|i: int|
            #![trigger t[i]]
            0 <= i < t.len() implies K::decode_spec(K::element(t[i])) == Ok::<K::V, CompareError>(t[i]) by {
            assert(t[i] == vs[i + 1]);
        }
        lemma_decoded_all::<K>(t);
        assert(els[0] == K::element(vs[0]));
        assert(K::decode_spec(K::element(vs[0])) == Ok::<K::V, CompareError>(vs[0]));
        assert(seq![vs[0]] + t =~= vs);
    }
}

proof fn lemma_section_roundtrip<K: StoredEntry>(vs: Seq<K::V>, maximum: usize)
    requires
        forall|i: int|
            #![trigger vs[i]]
            0 <= i < vs.len() ==> K::decode_spec(K::element(vs[i])) == Ok::<K::V, CompareError>(vs[i]),
        vs.len() <= maximum,
        disorder::<K>(vs) is None,
        enc_list(elements::<K>(vs)).len() <= MAX_PACK_BYTES,
    ensures
        section_spec::<K>(enc_list(elements::<K>(vs)), maximum) == Ok::<Seq<K::V>, CompareError>(vs),
{
    let els = elements::<K>(vs);
    lemma_list_items_fit(els);
    lemma_list_roundtrip(els, maximum);
    lemma_decoded_all::<K>(vs);
}

proof fn lemma_element_fits<K: Keyed>(vs: Seq<K::V>, i: int)
    requires
        0 <= i < vs.len(),
        enc_list(elements::<K>(vs)).len() <= MAX_PACK_BYTES,
    ensures
        K::element(vs[i]).len() <= MAX_PACK_BYTES,
{
    lemma_enc_items_len(elements::<K>(vs), i);
}

proof fn lemma_entities_section(vs: Seq<EntityView>)
    requires
        forall|i: int| 0 <= i < vs.len() ==> entity_valid(#[trigger] vs[i]),
        vs.len() <= MAX_ENTITY_DELTAS,
        disorder::<EntityDelta>(vs) is None,
        enc_list(elements::<EntityDelta>(vs)).len() <= MAX_PACK_BYTES,
    ensures
        section_spec::<EntityDelta>(enc_list(elements::<EntityDelta>(vs)), MAX_ENTITY_DELTAS) == Ok::<
            Seq<EntityView>,
            CompareError,
        >(vs),
{
    assert forall|i: int|
        #![trigger vs[i]]
        0 <= i < vs.len() implies EntityDelta::decode_spec(EntityDelta::element(vs[i])) == Ok::<
            EntityView,
            CompareError,
        >(vs[i]) by {
        lemma_element_fits::<EntityDelta>(vs, i);
        lemma_entity_roundtrip(vs[i]);
    }
    lemma_section_roundtrip::<EntityDelta>(vs, MAX_ENTITY_DELTAS);
}

proof fn lemma_fields_section(vs: Seq<FieldView>)
    requires
        forall|i: int| 0 <= i < vs.len() ==> field_valid(#[trigger] vs[i]),
        vs.len() <= MAX_FIELD_DELTAS,
        disorder::<FieldDelta>(vs) is None,
        enc_list(elements::<FieldDelta>(vs)).len() <= MAX_PACK_BYTES,
    ensures
        section_spec::<FieldDelta>(enc_list(elements::<FieldDelta>(vs)), MAX_FIELD_DELTAS) == Ok::<
            Seq<FieldView>,
            CompareError,
        >(vs),
{
    assert forall|i: int|
        #![trigger vs[i]]
        0 <= i < vs.len() implies FieldDelta::decode_spec(FieldDelta::element(vs[i])) == Ok::<
            FieldView,
            CompareError,
        >(vs[i]) by {
        lemma_element_fits::<FieldDelta>(vs, i);
        lemma_field_roundtrip(vs[i]);
    }
    lemma_section_roundtrip::<FieldDelta>(vs, MAX_FIELD_DELTAS);
}

proof fn lemma_bodies_section(vs: Seq<BodyView>)
    requires
        forall|i: int| 0 <= i < vs.len() ==> body_valid(#[trigger] vs[i]),
        vs.len() <= MAX_BODY_DELTAS,
        disorder::<BodyDelta>(vs) is None,
        enc_list(elements::<BodyDelta>(vs)).len() <= MAX_PACK_BYTES,
    ensures
        section_spec::<BodyDelta>(enc_list(elements::<BodyDelta>(vs)), MAX_BODY_DELTAS) == Ok::<
            Seq<BodyView>,
            CompareError,
        >(vs),
{
    assert forall|i: int|
        #![trigger vs[i]]
        0 <= i < vs.len() implies BodyDelta::decode_spec(BodyDelta::element(vs[i])) == Ok::<
            BodyView,
            CompareError,
        >(vs[i]) by {
        lemma_element_fits::<BodyDelta>(vs, i);
        lemma_body_roundtrip(vs[i]);
    }
    lemma_section_roundtrip::<BodyDelta>(vs, MAX_BODY_DELTAS);
}

proof fn lemma_relations_section(vs: Seq<RelationView>)
    requires
        forall|i: int| 0 <= i < vs.len() ==> relation_valid(#[trigger] vs[i]),
        vs.len() <= MAX_RELATION_DELTAS,
        disorder::<RelationDelta>(vs) is None,
        enc_list(elements::<RelationDelta>(vs)).len() <= MAX_PACK_BYTES,
    ensures
        section_spec::<RelationDelta>(enc_list(elements::<RelationDelta>(vs)), MAX_RELATION_DELTAS)
            == Ok::<Seq<RelationView>, CompareError>(vs),
{
    assert forall|i: int|
        #![trigger vs[i]]
        0 <= i < vs.len() implies RelationDelta::decode_spec(RelationDelta::element(vs[i])) == Ok::<
            RelationView,
            CompareError,
        >(vs[i]) by {
        lemma_element_fits::<RelationDelta>(vs, i);
        lemma_relation_roundtrip(vs[i]);
    }
    lemma_section_roundtrip::<RelationDelta>(vs, MAX_RELATION_DELTAS);
}

proof fn lemma_body_head(d: DeltaView, epoch: Seq<u8>)
    requires
        delta_valid(d),
        fields_numbered(payload_fields(d), 1),
    ensures
        delta_body_spec(delta_payload_spec(d), epoch) == delta_sections_spec(
            delta_payload_spec(d),
            epoch,
            seq![d.0[0], d.0[1], d.0[2], d.0[3]],
            cursor_at(payload_fields(d), 5),
        ),
{
    let fs = payload_fields(d);
    lemma_cursor_start(fs);
    lemma_cursor_step(fs, 0);
    lemma_cursor_step(fs, 1);
    lemma_cursor_step(fs, 2);
    lemma_cursor_step(fs, 3);
    lemma_cursor_step(fs, 4);
    lemma_single_uvar_roundtrip(DELTA_FORMAT_VERSION);
    assert(d.0[0].len() == 32 && d.0[1].len() == 32 && d.0[2].len() == 32 && d.0[3].len() == 32);
}

#[verifier::spinoff_prover]
#[verifier::rlimit(60)]
proof fn lemma_body_sections(d: DeltaView, epoch: Seq<u8>, ids: Seq<Seq<u8>>)
    requires
        delta_valid(d),
        fields_numbered(payload_fields(d), 1),
    ensures
        delta_sections_spec(delta_payload_spec(d), epoch, ids, cursor_at(payload_fields(d), 5))
            == delta_sets_spec(
            delta_payload_spec(d),
            epoch,
            ids,
            d.1,
            d.2,
            d.3,
            d.4,
            cursor_at(payload_fields(d), 9),
        ),
{
    let fs = payload_fields(d);
    lemma_cursor_step(fs, 5);
    lemma_cursor_step(fs, 6);
    lemma_cursor_step(fs, 7);
    lemma_cursor_step(fs, 8);
    assert(fs[5].1.len() <= MAX_PACK_BYTES);
    assert(fs[6].1.len() <= MAX_PACK_BYTES);
    assert(fs[7].1.len() <= MAX_PACK_BYTES);
    assert(fs[8].1.len() <= MAX_PACK_BYTES);
    lemma_entities_section(d.1);
    lemma_fields_section(d.2);
    lemma_bodies_section(d.3);
    lemma_relations_section(d.4);
    reveal(delta_sections_spec);
}

#[verifier::spinoff_prover]
#[verifier::rlimit(60)]
proof fn lemma_body_sets(d: DeltaView, epoch: Seq<u8>, ids: Seq<Seq<u8>>)
    requires
        delta_valid(d),
        fields_numbered(payload_fields(d), 1),
    ensures
        delta_sets_spec(delta_payload_spec(d), epoch, ids, d.1, d.2, d.3, d.4, cursor_at(payload_fields(d), 9))
            == canonical_check(
            delta_payload_spec(d),
            epoch,
            (ids, d.1, d.2, d.3, d.4, seq![d.5[0], d.5[1], d.5[2], d.5[3], d.5[4]]),
        ),
{
    let fs = payload_fields(d);
    lemma_cursor_step(fs, 9);
    lemma_cursor_step(fs, 10);
    lemma_cursor_step(fs, 11);
    lemma_cursor_step(fs, 12);
    lemma_cursor_step(fs, 13);
    lemma_cursor_finish(fs);
    assert(all_32(d.5[0]) && d.5[0].len() <= MAX_IDENTITY_SET);
    assert(all_32(d.5[1]) && d.5[1].len() <= MAX_IDENTITY_SET);
    assert(all_32(d.5[2]) && d.5[2].len() <= MAX_IDENTITY_SET);
    assert(all_32(d.5[3]) && d.5[3].len() <= MAX_IDENTITY_SET);
    assert(all_32(d.5[4]) && d.5[4].len() <= MAX_IDENTITY_SET);
    assert(fs[9].1.len() <= MAX_PACK_BYTES);
    assert(fs[10].1.len() <= MAX_PACK_BYTES);
    assert(fs[11].1.len() <= MAX_PACK_BYTES);
    assert(fs[12].1.len() <= MAX_PACK_BYTES);
    assert(fs[13].1.len() <= MAX_PACK_BYTES);
    lemma_id_set_roundtrip(d.5[0], MAX_IDENTITY_SET);
    lemma_id_set_roundtrip(d.5[1], MAX_IDENTITY_SET);
    lemma_id_set_roundtrip(d.5[2], MAX_IDENTITY_SET);
    lemma_id_set_roundtrip(d.5[3], MAX_IDENTITY_SET);
    lemma_id_set_roundtrip(d.5[4], MAX_IDENTITY_SET);
    reveal(delta_sets_spec);
}

/// A valid delta's payload decodes back to exactly that delta.
#[verifier::spinoff_prover]
#[verifier::rlimit(60)]
pub proof fn lemma_delta_body_roundtrip(d: DeltaView, epoch: Seq<u8>)
    requires
        delta_valid(d),
        delta_preimage_spec(epoch, delta_payload_spec(d)).len() + 32 <= MAX_DELTA_BYTES,
    ensures
        delta_body_spec(delta_payload_spec(d), epoch) == Ok::<DeltaView, CompareError>(d),
{
    let fs = payload_fields(d);
    let p = delta_payload_spec(d);
    assert(p.len() <= delta_preimage_spec(epoch, p).len());
    lemma_numbered(fs);
    let ids = seq![d.0[0], d.0[1], d.0[2], d.0[3]];
    let sets = seq![d.5[0], d.5[1], d.5[2], d.5[3], d.5[4]];
    assert(ids =~= d.0);
    assert(sets =~= d.5);
    assert((ids, d.1, d.2, d.3, d.4, sets) == d);
    lemma_body_head(d, epoch);
    lemma_body_sections(d, epoch, ids);
    lemma_body_sets(d, epoch, ids);
    assert(canonical_check(p, epoch, (ids, d.1, d.2, d.3, d.4, sets)) == Ok::<DeltaView, CompareError>(d));
}

/// A stored delta built from a schema epoch and a payload reads back as
/// that payload, given the identity it was sealed with.
pub proof fn lemma_delta_envelope_roundtrip(epoch: Seq<u8>, payload: Seq<u8>, derived: Seq<u8>)
    requires
        epoch.len() == 32,
        derived.len() == 32,
        delta_preimage_spec(epoch, payload).len() + 32 <= MAX_DELTA_BYTES,
    ensures
        delta_envelope_spec(delta_preimage_spec(epoch, payload) + derived, epoch, derived) == Ok::<
            Seq<u8>,
            CompareError,
        >(payload),
{
    reveal_strlit("SLEYSCB1");
    assert(magic().len() == 8);
    let s = delta_preimage_spec(epoch, payload) + derived;
    let uv = uvar_bytes(DELTA_FORMAT_VERSION as nat);
    let ut = uvar_bytes(DELTA_CONTRACT_TAG as nat);
    let ul = uvar_bytes(payload.len());
    let tail4 = ul + payload + derived;
    let tail3 = epoch + tail4;
    let tail2 = ut + tail3;
    let tail1 = uv + tail2;
    assert(s =~= magic() + tail1);
    assert(s.take(8) =~= magic());
    assert(s.skip(8) =~= tail1);
    lemma_uvar_roundtrip(DELTA_FORMAT_VERSION, tail2);
    assert(tail1.skip(uv.len() as int) =~= tail2);
    lemma_uvar_roundtrip(DELTA_CONTRACT_TAG, tail3);
    assert(tail2.skip(ut.len() as int) =~= tail3);
    assert(tail3.take(32) =~= epoch);
    assert(tail3.skip(32) =~= tail4);
    lemma_uvar_roundtrip(payload.len() as u64, payload + derived);
    assert(tail4 =~= ul + (payload + derived));
    assert(tail4.skip(ul.len() as int) =~= payload + derived);
    assert((payload + derived).take(payload.len() as int) =~= payload);
    assert((payload + derived).skip(payload.len() as int) =~= derived);
}

/// A valid delta, encoded under a schema epoch and sealed with the identity
/// derived from its preimage, decodes back to exactly itself: the decoder
/// accepts what the encoder writes and never repairs it.
pub proof fn lemma_delta_roundtrip(d: DeltaView, epoch: Seq<u8>, derived: Seq<u8>)
    requires
        delta_valid(d),
        epoch.len() == 32,
        derived.len() == 32,
        delta_preimage_spec(epoch, delta_payload_spec(d)).len() + 32 <= MAX_DELTA_BYTES,
    ensures
        delta_envelope_spec(delta_preimage_spec(epoch, delta_payload_spec(d)) + derived, epoch, derived)
            == Ok::<Seq<u8>, CompareError>(delta_payload_spec(d)),
        delta_body_spec(delta_payload_spec(d), epoch) == Ok::<DeltaView, CompareError>(d),
{
    lemma_delta_envelope_roundtrip(epoch, delta_payload_spec(d), derived);
    lemma_delta_body_roundtrip(d, epoch);
}

} // verus!
