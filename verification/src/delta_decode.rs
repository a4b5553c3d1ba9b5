//! Decoding and checking stored semantic deltas: every field is read in
//! order, every entry is validated, every section must strictly ascend, and
//! the decoded delta must re-encode to the very bytes that were read.

use vstd::prelude::*;

use crate::bytes::bytes_equal;
use crate::compare::{ChangeClass, CompareError, CompareErrorCode, RelationChange};
use crate::delta::{
    disorder, encode_delta_payload, encode_fault, delta_payload_spec, delta_preimage_spec,
    require_sorted, views, BodyDelta, BodyView, DeltaView, EntityDelta, EntityView, FieldDelta,
    FieldView, Keyed, RelationDelta, RelationView, SemanticDelta, DELTA_CONTRACT_TAG,
    DELTA_FORMAT_VERSION, MAX_BODY_DELTAS, MAX_DELTA_BYTES, MAX_ENTITY_DELTAS, MAX_FIELD_DELTAS,
    MAX_IDENTITY_SET, MAX_RELATION_DELTAS,
};
use crate::merge_conflict::{is_zero, magic_bytes, stored_object};
use crate::pack::{PackError, PackFault};
use crate::pack_envelope::magic;
use crate::scb::{
    decode_list, decode_list_spec, field_step, finish_spec, read_len_spec, read_single_uvar,
    read_uvar_spec, record_start, single_uvar_spec, Cursor, Reader, RecordReader, ScbErrorCode,
};

verus! {

/// A lower-layer result with its failure wrapped as a format failure.
pub open spec fn wire<T>(r: Result<T, PackFault>) -> Result<T, CompareError> {
    match r {
        Ok(v) => Ok(v),
        Err(f) => Err(CompareError::Format(f)),
    }
}

fn lift<T>(r: Result<T, PackError>) -> (out: Result<T, CompareError>)
    ensures
        match r {
            Ok(v) => out == Ok::<T, CompareError>(v),
            Err(e) => out == Err::<T, CompareError>(CompareError::Format(e@)),
        },
{
    match r {
        Ok(v) => Ok(v),
        Err(e) => Err(CompareError::from_pack(e)),
    }
}

/// Reading the field tagged `tag` as a 32-byte identity.
pub open spec fn fixed_field(c: Cursor, tag: u64) -> Result<(Seq<u8>, Cursor), CompareError> {
    match wire(field_step(c, tag)) {
        Err(e) => Err(e),
        Ok((v, c2)) => if v.len() == 32 {
            Ok((v, c2))
        } else {
            Err(CompareError::Format(PackFault::Scb(ScbErrorCode::LengthOverflow)))
        },
    }
}

/// Reading the field tagged `tag` as one varint.
pub open spec fn uvar_field(c: Cursor, tag: u64) -> Result<(u64, Cursor), CompareError> {
    match wire(field_step(c, tag)) {
        Err(e) => Err(e),
        Ok((v, c2)) => match wire(single_uvar_spec(v)) {
            Err(e) => Err(e),
            Ok(x) => Ok((x, c2)),
        },
    }
}

/// Reading the field tagged `tag` as a varint that must fit in 32 bits.
pub open spec fn u32_field(c: Cursor, tag: u64) -> Result<(u32, Cursor), CompareError> {
    match uvar_field(c, tag) {
        Err(e) => Err(e),
        Ok((x, c2)) => if x > u32::MAX {
            Err(CompareError::Compare(CompareErrorCode::FormatInvalid))
        } else {
            Ok((x as u32, c2))
        },
    }
}

/// A kind tag is `1..=18`, or zero where an absent side is allowed.
pub open spec fn kind_ok(value: u32, allow_zero: bool) -> bool {
    (value == 0 && allow_zero) || (1 <= value <= 18)
}

/// Reading the field tagged `tag` as a kind tag.
pub open spec fn kind_field(c: Cursor, tag: u64, allow_zero: bool) -> Result<(u32, Cursor), CompareError> {
    match u32_field(c, tag) {
        Err(e) => Err(e),
        Ok((x, c2)) => if kind_ok(x, allow_zero) {
            Ok((x, c2))
        } else {
            Err(CompareError::Compare(CompareErrorCode::FormatInvalid))
        },
    }
}

/// The change class with tag `t`, if any.
pub open spec fn change_of(t: u64) -> Option<ChangeClass> {
    if t == 1 {
        Some(ChangeClass::Added)
    } else if t == 2 {
        Some(ChangeClass::Removed)
    } else if t == 3 {
        Some(ChangeClass::Changed)
    } else if t == 4 {
        Some(ChangeClass::Retyped)
    } else if t == 5 {
        Some(ChangeClass::MetadataOnly)
    } else {
        None
    }
}

/// The relation direction with tag `t`, if any.
pub open spec fn direction_of(t: u64) -> Option<RelationChange> {
    if t == 1 {
        Some(RelationChange::Added)
    } else if t == 2 {
        Some(RelationChange::Removed)
    } else {
        None
    }
}

/// The shape each change class requires of an entity entry: an added
/// entity has no base side, a removed one no target side, a changed or
/// metadata-only one keeps its kind and changes its object, and a retyped
/// one has two different kinds.
pub open spec fn entity_shape_ok(v: EntityView) -> bool {
    match v.1 {
        ChangeClass::Added => v.2 == 0 && v.4 is None && v.3 != 0,
        ChangeClass::Removed => v.3 == 0 && v.5 is None && v.2 != 0,
        ChangeClass::Changed | ChangeClass::MetadataOnly => v.2 != 0 && v.2 == v.3 && v.4 != v.5,
        ChangeClass::Retyped => v.2 != 0 && v.3 != 0 && v.2 != v.3,
    }
}

/// The rules on a field entry: a field number in `1..=8`, and flags with
/// the lowest bit set and nothing above bit 3.
pub open spec fn field_rules_ok(field: u32, flags: u32) -> bool {
    1 <= field <= 8 && flags % 2 == 1 && flags <= 15
}

/// A known relation edge kind is `1..=12`.
pub open spec fn edge_kind_ok(kind: u32) -> bool {
    1 <= kind <= 12
}

fn fixed(record: &mut RecordReader, tag: u64) -> (r: Result<[u8; 32], CompareError>)
    requires
        old(record).wf(),
    ensures
        final(record).wf(),
        match fixed_field(old(record).cursor(), tag) {
            Ok((v, c)) => r is Ok && r->Ok_0@ == v && final(record).cursor() == c,
            Err(e) => r == Err::<[u8; 32], CompareError>(e),
        },
{
    let value = lift(record.required(tag))?;
    match crate::scb::exact_array(value.as_slice()) {
        Ok(a) => Ok(a),
        Err(e) => Err(CompareError::from_pack(e)),
    }
}

fn uvar(record: &mut RecordReader, tag: u64) -> (r: Result<u64, CompareError>)
    requires
        old(record).wf(),
    ensures
        final(record).wf(),
        match uvar_field(old(record).cursor(), tag) {
            Ok((v, c)) => r == Ok::<u64, CompareError>(v) && final(record).cursor() == c,
            Err(e) => r == Err::<u64, CompareError>(e),
        },
{
    let value = lift(record.required(tag))?;
    lift(read_single_uvar(value.as_slice()))
}

fn small_u32(record: &mut RecordReader, tag: u64) -> (r: Result<u32, CompareError>)
    requires
        old(record).wf(),
    ensures
        final(record).wf(),
        match u32_field(old(record).cursor(), tag) {
            Ok((v, c)) => r == Ok::<u32, CompareError>(v) && final(record).cursor() == c,
            Err(e) => r == Err::<u32, CompareError>(e),
        },
{
    let value = uvar(record, tag)?;
    if value > u32::MAX as u64 {
        return Err(CompareError::Compare(CompareErrorCode::FormatInvalid));
    }
    Ok(value as u32)
}

/// Checks a kind tag: `1..=18`, or zero where `allow_zero` holds.
pub fn kind_tag(value: u32, allow_zero: bool) -> (r: Result<u32, CompareError>)
    ensures
        kind_ok(value, allow_zero) ==> r == Ok::<u32, CompareError>(value),
        !kind_ok(value, allow_zero) ==> r == Err::<u32, CompareError>(
            CompareError::Compare(CompareErrorCode::FormatInvalid),
        ),
{
    if (value == 0 && allow_zero) || (1 <= value && value <= 18) {
        Ok(value)
    } else {
        Err(CompareError::Compare(CompareErrorCode::FormatInvalid))
    }
}

fn kind(record: &mut RecordReader, tag: u64, allow_zero: bool) -> (r: Result<u32, CompareError>)
    requires
        old(record).wf(),
    ensures
        final(record).wf(),
        match kind_field(old(record).cursor(), tag, allow_zero) {
            Ok((v, c)) => r == Ok::<u32, CompareError>(v) && final(record).cursor() == c,
            Err(e) => r == Err::<u32, CompareError>(e),
        },
{
    let value = small_u32(record, tag)?;
    kind_tag(value, allow_zero)
}

fn stored(bytes: [u8; 32]) -> (r: Option<[u8; 32]>)
    ensures
        crate::merge_conflict::object_view(r) == stored_object(bytes@),
{
    if is_zero(&bytes) {
        None
    } else {
        Some(bytes)
    }
}

/// Reading a list of identities: each element exactly 32 bytes.
pub open spec fn fixed_all(elems: Seq<Seq<u8>>) -> Result<Seq<Seq<u8>>, CompareError>
    decreases elems.len(),
{
    if elems.len() == 0 {
        Ok(Seq::empty())
    } else if elems[0].len() != 32 {
        Err(CompareError::Format(PackFault::Scb(ScbErrorCode::LengthOverflow)))
    } else {
        match fixed_all(elems.drop_first()) {
            Err(e) => Err(e),
            Ok(rest) => Ok(seq![elems[0]] + rest),
        }
    }
}

/// Decoding a stored identity set of at most `maximum` identities: a list
/// of 32-byte identities in strictly ascending order.
pub open spec fn id_set_spec(v: Seq<u8>, maximum: usize) -> Result<Seq<Seq<u8>>, CompareError> {
    match wire(decode_list_spec(v, maximum)) {
        Err(e) => Err(e),
        Ok(elems) => match fixed_all(elems) {
            Err(e) => Err(e),
            Ok(ids) => match disorder::<[u8; 32]>(ids) {
                Some(c) => Err(CompareError::Compare(c)),
                None => Ok(ids),
            },
        },
    }
}

/// Reading the field tagged `tag` as an identity set.
pub open spec fn id_set_field(c: Cursor, tag: u64, maximum: usize) -> Result<(Seq<Seq<u8>>, Cursor), CompareError> {
    match wire(field_step(c, tag)) {
        Err(e) => Err(e),
        Ok((v, c2)) => match id_set_spec(v, maximum) {
            Err(e) => Err(e),
            Ok(ids) => Ok((ids, c2)),
        },
    }
}

proof fn lemma_fixed_all_step(elems: Seq<Seq<u8>>, i: int)
    requires
        0 <= i < elems.len(),
    ensures
        fixed_all(elems.skip(i)) == if elems[i].len() != 32 {
            Err(CompareError::Format(PackFault::Scb(ScbErrorCode::LengthOverflow)))
        } else {
            match fixed_all(elems.skip(i + 1)) {
                Err(e) => Err(e),
                Ok(rest) => Ok(seq![elems[i]] + rest),
            }
        },
{
    let t = elems.skip(i);
    assert(t[0] == elems[i]);
    assert(t.drop_first() =~= elems.skip(i + 1));
}

spec fn prepend<T>(done: Seq<T>, r: Result<Seq<T>, CompareError>) -> Result<Seq<T>, CompareError> {
    match r {
        Ok(vs) => Ok(done + vs),
        Err(e) => Err(e),
    }
}

/// Decodes a stored identity set of at most `maximum` identities.
pub fn decode_ids(input: &[u8], maximum: usize) -> (r: Result<Vec<[u8; 32]>, CompareError>)
    ensures
        match id_set_spec(input@, maximum) {
            Ok(ids) => r is Ok && views(r->Ok_0@) == ids,
            Err(e) => r == Err::<Vec<[u8; 32]>, CompareError>(e),
        },
{
    let elements = lift(decode_list(input, maximum))?;
    let ghost elems = elements.deep_view();
    let mut out: Vec<[u8; 32]> = Vec::new();
    let mut i: usize = 0;
    proof {
        assert(elems.skip(0) =~= elems);
        assert(views(out@) =~= Seq::<Seq<u8>>::empty());
        assert(prepend(Seq::<Seq<u8>>::empty(), fixed_all(elems)) =~= fixed_all(elems));
    }
    while i < elements.len()
        invariant
            i <= elements.len(),
            elems == elements.deep_view(),
            decode_list_spec(input@, maximum) == Ok::<Seq<Seq<u8>>, PackFault>(elems),
            fixed_all(elems) == prepend(views(out@), fixed_all(elems.skip(i as int))),
        decreases elements.len() - i,
    {
        proof {
            lemma_fixed_all_step(elems, i as int);
            assert(elems[i as int] == elements@[i as int]@);
        }
        let id = match crate::scb::exact_array(elements[i].as_slice()) {
            Ok(a) => a,
            Err(e) => {
                proof {
                    assert(elements@[i as int]@.len() != 32);
                    assert(fixed_all(elems.skip(i as int)) == Err::<Seq<Seq<u8>>, CompareError>(
                        CompareError::Format(PackFault::Scb(ScbErrorCode::LengthOverflow)),
                    ));
                }
                return Err(CompareError::from_pack(e));
            },
        };
        let ghost before = views(out@);
        out.push(id);
        proof {
            assert(views(out@) =~= before.push(id@));
            if let Ok(rest) = fixed_all(elems.skip(i + 1)) {
                assert(before + (seq![id@] + rest) =~= before.push(id@) + rest);
            }
        }
        i = i + 1;
    }
    proof {
        assert(elems.skip(i as int) =~= Seq::<Seq<u8>>::empty());
        assert(fixed_all(elems.skip(i as int)) == Ok::<Seq<Seq<u8>>, CompareError>(Seq::empty()));
        assert(views(out@) + Seq::<Seq<u8>>::empty() =~= views(out@));
        assert(fixed_all(elems) == Ok::<Seq<Seq<u8>>, CompareError>(views(out@)));
    }
    require_sorted(&out)?;
    Ok(out)
}

fn id_set(record: &mut RecordReader, tag: u64, maximum: usize) -> (r: Result<Vec<[u8; 32]>, CompareError>)
    requires
        old(record).wf(),
    ensures
        final(record).wf(),
        match id_set_field(old(record).cursor(), tag, maximum) {
            Ok((v, c)) => r is Ok && views(r->Ok_0@) == v && final(record).cursor() == c,
            Err(e) => r == Err::<Vec<[u8; 32]>, CompareError>(e),
        },
{
    let value = lift(record.required(tag))?;
    decode_ids(value.as_slice(), maximum)
}

/// Decoding one stored entity entry.
#[verifier::opaque]
pub open spec fn entity_entry_spec(s: Seq<u8>) -> Result<EntityView, CompareError> {
    match wire(record_start(s)) {
        Err(e) => Err(e),
        Ok(c0) => match fixed_field(c0, 1) {
            Err(e) => Err(e),
            Ok((id, c1)) => match uvar_field(c1, 2) {
                Err(e) => Err(e),
                Ok((t, c2)) => match change_of(t) {
                    None => Err(CompareError::Compare(CompareErrorCode::FormatInvalid)),
                    Some(change) => match kind_field(c2, 3, true) {
                        Err(e) => Err(e),
                        Ok((bk, c3)) => match kind_field(c3, 4, true) {
                            Err(e) => Err(e),
                            Ok((tk, c4)) => match fixed_field(c4, 5) {
                                Err(e) => Err(e),
                                Ok((bo, c5)) => match fixed_field(c5, 6) {
                                    Err(e) => Err(e),
                                    Ok((to, c6)) => match wire(finish_spec(c6)) {
                                        Err(e) => Err(e),
                                        Ok(_) => {
                                            let v = (id, change, bk, tk, stored_object(bo), stored_object(to));
                                            if entity_shape_ok(v) {
                                                Ok(v)
                                            } else {
                                                Err(CompareError::Compare(CompareErrorCode::FormatInvalid))
                                            }
                                        },
                                    },
                                },
                            },
                        },
                    },
                },
            },
        },
    }
}

/// Decoding one stored field entry.
#[verifier::opaque]
pub open spec fn field_entry_spec(s: Seq<u8>) -> Result<FieldView, CompareError> {
    match wire(record_start(s)) {
        Err(e) => Err(e),
        Ok(c0) => match fixed_field(c0, 1) {
            Err(e) => Err(e),
            Ok((id, c1)) => match kind_field(c1, 2, false) {
                Err(e) => Err(e),
                Ok((k, c2)) => match u32_field(c2, 3) {
                    Err(e) => Err(e),
                    Ok((field, c3)) => match u32_field(c3, 4) {
                        Err(e) => Err(e),
                        Ok((flags, c4)) => match id_set_field(c4, 5, MAX_IDENTITY_SET) {
                            Err(e) => Err(e),
                            Ok((added, c5)) => match id_set_field(c5, 6, MAX_IDENTITY_SET) {
                                Err(e) => Err(e),
                                Ok((removed, c6)) => match wire(finish_spec(c6)) {
                                    Err(e) => Err(e),
                                    Ok(_) => if field_rules_ok(field, flags) {
                                        Ok((id, k, field, flags, added, removed))
                                    } else {
                                        Err(CompareError::Compare(CompareErrorCode::FormatInvalid))
                                    },
                                },
                            },
                        },
                    },
                },
            },
        },
    }
}

/// Decoding one stored body entry.
#[verifier::opaque]
pub open spec fn body_entry_spec(s: Seq<u8>) -> Result<BodyView, CompareError> {
    match wire(record_start(s)) {
        Err(e) => Err(e),
        Ok(c0) => match fixed_field(c0, 1) {
            Err(e) => Err(e),
            Ok((id, c1)) => match fixed_field(c1, 2) {
                Err(e) => Err(e),
                Ok((bf, c2)) => match fixed_field(c2, 3) {
                    Err(e) => Err(e),
                    Ok((tf, c3)) => match u32_field(c3, 4) {
                        Err(e) => Err(e),
                        Ok((bb, c4)) => match u32_field(c4, 5) {
                            Err(e) => Err(e),
                            Ok((tb, c5)) => match u32_field(c5, 6) {
                                Err(e) => Err(e),
                                Ok((bo, c6)) => match u32_field(c6, 7) {
                                    Err(e) => Err(e),
                                    Ok((to, c7)) => match wire(finish_spec(c7)) {
                                        Err(e) => Err(e),
                                        Ok(_) => if bf == tf {
                                            Err(CompareError::Compare(CompareErrorCode::FormatInvalid))
                                        } else {
                                            Ok((id, bf, tf, bb, tb, bo, to))
                                        },
                                    },
                                },
                            },
                        },
                    },
                },
            },
        },
    }
}

/// Decoding one stored relation entry.
#[verifier::opaque]
pub open spec fn relation_entry_spec(s: Seq<u8>) -> Result<RelationView, CompareError> {
    match wire(record_start(s)) {
        Err(e) => Err(e),
        Ok(c0) => match fixed_field(c0, 1) {
            Err(e) => Err(e),
            Ok((dependent, c1)) => match fixed_field(c1, 2) {
                Err(e) => Err(e),
                Ok((dependency, c2)) => match u32_field(c2, 3) {
                    Err(e) => Err(e),
                    Ok((k, c3)) => if !edge_kind_ok(k) {
                        Err(CompareError::Compare(CompareErrorCode::FormatInvalid))
                    } else {
                        match uvar_field(c3, 4) {
                            Err(e) => Err(e),
                            Ok((t, c4)) => match direction_of(t) {
                                None => Err(CompareError::Compare(CompareErrorCode::FormatInvalid)),
                                Some(change) => match wire(finish_spec(c4)) {
                                    Err(e) => Err(e),
                                    Ok(_) => Ok((dependent, dependency, k, change)),
                                },
                            },
                        }
                    },
                },
            },
        },
    }
}

/// Decodes one stored entity entry.
#[verifier::rlimit(40)]
pub fn decode_entity(element: &[u8]) -> (r: Result<EntityDelta, CompareError>)
    ensures
        match entity_entry_spec(element@) {
            Ok(v) => r is Ok && r->Ok_0@ == v,
            Err(e) => r == Err::<EntityDelta, CompareError>(e),
        },
{
    reveal(entity_entry_spec);
    let mut entry = lift(RecordReader::new(element))?;
    let entity_id = fixed(&mut entry, 1)?;
    let change = ChangeClass::from_tag(uvar(&mut entry, 2)?)?;
    let base_kind = kind(&mut entry, 3, true)?;
    let target_kind = kind(&mut entry, 4, true)?;
    let base_object = stored(fixed(&mut entry, 5)?);
    let target_object = stored(fixed(&mut entry, 6)?);
    lift(entry.finish())?;
    let shape_ok = match change {
        ChangeClass::Added => base_kind == 0 && base_object.is_none() && target_kind != 0,
        ChangeClass::Removed => target_kind == 0 && target_object.is_none() && base_kind != 0,
        ChangeClass::Changed | ChangeClass::MetadataOnly => base_kind != 0 && base_kind == target_kind
            && !same_object(&base_object, &target_object),
        ChangeClass::Retyped => base_kind != 0 && target_kind != 0 && base_kind != target_kind,
    };
    if !shape_ok {
        return Err(CompareError::Compare(CompareErrorCode::FormatInvalid));
    }
    Ok(EntityDelta { entity_id, change, base_kind, target_kind, base_object, target_object })
}

fn same_object(a: &Option<[u8; 32]>, b: &Option<[u8; 32]>) -> (r: bool)
    ensures
        r == (crate::merge_conflict::object_view(*a) == crate::merge_conflict::object_view(*b)),
{
    match (a, b) {
        (Some(x), Some(y)) => bytes_equal(x.as_slice(), y.as_slice()),
        (None, None) => true,
        _ => false,
    }
}

/// Decodes one stored field entry.
#[verifier::rlimit(40)]
pub fn decode_field(element: &[u8]) -> (r: Result<FieldDelta, CompareError>)
    ensures
        match field_entry_spec(element@) {
            Ok(v) => r is Ok && r->Ok_0@ == v,
            Err(e) => r == Err::<FieldDelta, CompareError>(e),
        },
{
    reveal(field_entry_spec);
    let mut entry = lift(RecordReader::new(element))?;
    let entity_id = fixed(&mut entry, 1)?;
    let kind = kind(&mut entry, 2, false)?;
    let field = small_u32(&mut entry, 3)?;
    let flags = small_u32(&mut entry, 4)?;
    let added = id_set(&mut entry, 5, MAX_IDENTITY_SET)?;
    let removed = id_set(&mut entry, 6, MAX_IDENTITY_SET)?;
    lift(entry.finish())?;
    if field == 0 || field > 8 || flags % 2 == 0 || flags > 15 {
        return Err(CompareError::Compare(CompareErrorCode::FormatInvalid));
    }
    Ok(FieldDelta { entity_id, kind, field, flags, added, removed })
}

/// Decodes one stored body entry.
#[verifier::rlimit(40)]
pub fn decode_body(element: &[u8]) -> (r: Result<BodyDelta, CompareError>)
    ensures
        match body_entry_spec(element@) {
            Ok(v) => r is Ok && r->Ok_0@ == v,
            Err(e) => r == Err::<BodyDelta, CompareError>(e),
        },
{
    reveal(body_entry_spec);
    let mut entry = lift(RecordReader::new(element))?;
    let entity_id = fixed(&mut entry, 1)?;
    let base_fingerprint = fixed(&mut entry, 2)?;
    let target_fingerprint = fixed(&mut entry, 3)?;
    let base_blocks = small_u32(&mut entry, 4)?;
    let target_blocks = small_u32(&mut entry, 5)?;
    let base_operations = small_u32(&mut entry, 6)?;
    let target_operations = small_u32(&mut entry, 7)?;
    lift(entry.finish())?;
    if bytes_equal(base_fingerprint.as_slice(), target_fingerprint.as_slice()) {
        return Err(CompareError::Compare(CompareErrorCode::FormatInvalid));
    }
    Ok(BodyDelta {
        entity_id,
        base_fingerprint,
        target_fingerprint,
        base_blocks,
        target_blocks,
        base_operations,
        target_operations,
    })
}

/// Decodes one stored relation entry.
#[verifier::rlimit(40)]
pub fn decode_relation(element: &[u8]) -> (r: Result<RelationDelta, CompareError>)
    ensures
        match relation_entry_spec(element@) {
            Ok(v) => r is Ok && r->Ok_0@ == v,
            Err(e) => r == Err::<RelationDelta, CompareError>(e),
        },
{
    reveal(relation_entry_spec);
    let mut entry = lift(RecordReader::new(element))?;
    let dependent = fixed(&mut entry, 1)?;
    let dependency = fixed(&mut entry, 2)?;
    let kind = small_u32(&mut entry, 3)?;
    if kind == 0 || kind > 12 {
        return Err(CompareError::Compare(CompareErrorCode::FormatInvalid));
    }
    let change = match uvar(&mut entry, 4)? {
        1 => RelationChange::Added,
        2 => RelationChange::Removed,
        _ => {
            return Err(CompareError::Compare(CompareErrorCode::FormatInvalid));
        },
    };
    lift(entry.finish())?;
    Ok(RelationDelta { dependent, dependency, kind, change })
}

/// An entry section of a stored delta, decoded element by element.
pub trait StoredEntry: Keyed {
    /// Decoding one stored list element.
    spec fn decode_spec(s: Seq<u8>) -> Result<Self::V, CompareError>;

    /// Decodes one stored list element.
    fn decode_element(element: &[u8]) -> (r: Result<Self, CompareError>)
        ensures
            match Self::decode_spec(element@) {
                Ok(v) => r is Ok && r->Ok_0@ == v,
                Err(e) => r == Err::<Self, CompareError>(e),
            };
}

impl StoredEntry for EntityDelta {
    open spec fn decode_spec(s: Seq<u8>) -> Result<EntityView, CompareError> {
        entity_entry_spec(s)
    }

    fn decode_element(element: &[u8]) -> (r: Result<Self, CompareError>) {
        decode_entity(element)
    }
}

impl StoredEntry for FieldDelta {
    open spec fn decode_spec(s: Seq<u8>) -> Result<FieldView, CompareError> {
        field_entry_spec(s)
    }

    fn decode_element(element: &[u8]) -> (r: Result<Self, CompareError>) {
        decode_field(element)
    }
}

impl StoredEntry for BodyDelta {
    open spec fn decode_spec(s: Seq<u8>) -> Result<BodyView, CompareError> {
        body_entry_spec(s)
    }

    fn decode_element(element: &[u8]) -> (r: Result<Self, CompareError>) {
        decode_body(element)
    }
}

impl StoredEntry for RelationDelta {
    open spec fn decode_spec(s: Seq<u8>) -> Result<RelationView, CompareError> {
        relation_entry_spec(s)
    }

    fn decode_element(element: &[u8]) -> (r: Result<Self, CompareError>) {
        decode_relation(element)
    }
}

/// Decoding stored elements in turn; the first failure decides.
pub open spec fn decoded_all<K: StoredEntry>(elems: Seq<Seq<u8>>) -> Result<Seq<K::V>, CompareError>
    decreases elems.len(),
{
    if elems.len() == 0 {
        Ok(Seq::empty())
    } else {
        match K::decode_spec(elems[0]) {
            Err(e) => Err(e),
            Ok(v) => match decoded_all::<K>(elems.drop_first()) {
                Err(e) => Err(e),
                Ok(vs) => Ok(seq![v] + vs),
            },
        }
    }
}

/// Decoding a stored section of at most `maximum` entries: the list, each
/// entry, then strict ascent by key.
pub open spec fn section_spec<K: StoredEntry>(v: Seq<u8>, maximum: usize) -> Result<Seq<K::V>, CompareError> {
    match wire(decode_list_spec(v, maximum)) {
        Err(e) => Err(e),
        Ok(elems) => match decoded_all::<K>(elems) {
            Err(e) => Err(e),
            Ok(vs) => match disorder::<K>(vs) {
                Some(c) => Err(CompareError::Compare(c)),
                None => Ok(vs),
            },
        },
    }
}

/// Reading the field tagged `tag` as a section.
pub open spec fn section_field<K: StoredEntry>(c: Cursor, tag: u64, maximum: usize) -> Result<
    (Seq<K::V>, Cursor),
    CompareError,
> {
    match wire(field_step(c, tag)) {
        Err(e) => Err(e),
        Ok((v, c2)) => match section_spec::<K>(v, maximum) {
            Err(e) => Err(e),
            Ok(vs) => Ok((vs, c2)),
        },
    }
}

proof fn lemma_decoded_step<K: StoredEntry>(elems: Seq<Seq<u8>>, i: int)
    requires
        0 <= i < elems.len(),
    ensures
        decoded_all::<K>(elems.skip(i)) == match K::decode_spec(elems[i]) {
            Err(e) => Err(e),
            Ok(v) => match decoded_all::<K>(elems.skip(i + 1)) {
                Err(e) => Err(e),
                Ok(vs) => Ok(seq![v] + vs),
            },
        },
{
    let t = elems.skip(i);
    assert(t[0] == elems[i]);
    assert(t.drop_first() =~= elems.skip(i + 1));
}

/// Decodes a stored section of at most `maximum` entries.
pub fn decode_section<K: StoredEntry>(input: &[u8], maximum: usize) -> (r: Result<Vec<K>, CompareError>)
    ensures
        match section_spec::<K>(input@, maximum) {
            Ok(vs) => r is Ok && views(r->Ok_0@) == vs,
            Err(e) => r == Err::<Vec<K>, CompareError>(e),
        },
{
    let elements = lift(decode_list(input, maximum))?;
    let ghost elems = elements.deep_view();
    let mut out: Vec<K> = Vec::new();
    let mut i: usize = 0;
    proof {
        assert(elems.skip(0) =~= elems);
        assert(views(out@) =~= Seq::<K::V>::empty());
        assert(prepend(Seq::<K::V>::empty(), decoded_all::<K>(elems)) =~= decoded_all::<K>(elems));
    }
    while i < elements.len()
        invariant
            i <= elements.len(),
            elems == elements.deep_view(),
            decode_list_spec(input@, maximum) == Ok::<Seq<Seq<u8>>, PackFault>(elems),
            decoded_all::<K>(elems) == prepend(views(out@), decoded_all::<K>(elems.skip(i as int))),
        decreases elements.len() - i,
    {
        proof {
            lemma_decoded_step::<K>(elems, i as int);
            assert(elems[i as int] == elements@[i as int]@);
        }
        let entry = K::decode_element(elements[i].as_slice())?;
        let ghost before = views(out@);
        let ghost v = entry@;
        out.push(entry);
        proof {
            assert(views(out@) =~= before.push(v));
            if let Ok(vs) = decoded_all::<K>(elems.skip(i + 1)) {
                assert(before + (seq![v] + vs) =~= before.push(v) + vs);
            }
        }
        i = i + 1;
    }
    proof {
        assert(elems.skip(i as int) =~= Seq::<Seq<u8>>::empty());
        assert(decoded_all::<K>(elems.skip(i as int)) == Ok::<Seq<K::V>, CompareError>(Seq::empty()));
        assert(views(out@) + Seq::<K::V>::empty() =~= views(out@));
        assert(decoded_all::<K>(elems) == Ok::<Seq<K::V>, CompareError>(views(out@)));
    }
    require_sorted(&out)?;
    Ok(out)
}

fn section<K: StoredEntry>(record: &mut RecordReader, tag: u64, maximum: usize) -> (r: Result<
    Vec<K>,
    CompareError,
>)
    requires
        old(record).wf(),
    ensures
        final(record).wf(),
        match section_field::<K>(old(record).cursor(), tag, maximum) {
            Ok((v, c)) => r is Ok && views(r->Ok_0@) == v && final(record).cursor() == c,
            Err(e) => r == Err::<Vec<K>, CompareError>(e),
        },
{
    let value = lift(record.required(tag))?;
    decode_section::<K>(value.as_slice(), maximum)
}

/// Reading a stored delta's envelope under the delta schema epoch `epoch`,
/// whose identity derived from every byte before the trailer is `derived`:
/// its payload.
pub open spec fn delta_envelope_spec(s: Seq<u8>, epoch: Seq<u8>, derived: Seq<u8>) -> Result<
    Seq<u8>,
    CompareError,
> {
    if s.len() > MAX_DELTA_BYTES {
        Err(CompareError::Compare(CompareErrorCode::ResourceLimit))
    } else if s.len() < 8 {
        Err(CompareError::Format(PackFault::Scb(ScbErrorCode::LengthOverflow)))
    } else if s.take(8) != magic() {
        Err(CompareError::Format(PackFault::Scb(ScbErrorCode::MagicInvalid)))
    } else {
        let s1 = s.skip(8);
        match read_uvar_spec(s1) {
            Err(c) => Err(CompareError::Format(PackFault::Scb(c))),
            Ok((version, n1)) => if version != DELTA_FORMAT_VERSION {
                Err(CompareError::Compare(CompareErrorCode::VersionUnsupported))
            } else {
                let s2 = s1.skip(n1 as int);
                match read_uvar_spec(s2) {
                    Err(c) => Err(CompareError::Format(PackFault::Scb(c))),
                    Ok((tag, n2)) => if tag != DELTA_CONTRACT_TAG {
                        Err(CompareError::Format(PackFault::Scb(ScbErrorCode::ContractUnknown)))
                    } else {
                        let s3 = s2.skip(n2 as int);
                        if s3.len() < 32 {
                            Err(CompareError::Format(PackFault::Scb(ScbErrorCode::LengthOverflow)))
                        } else if s3.take(32) != epoch {
                            Err(CompareError::Format(PackFault::Scb(ScbErrorCode::EpochMismatch)))
                        } else {
                            envelope_tail_spec(s3.skip(32), derived)
                        }
                    },
                }
            },
        }
    }
}

/// The rest of an envelope after its schema epoch: the payload length, the
/// payload, and the 32-byte identity trailer.
pub open spec fn envelope_tail_spec(s4: Seq<u8>, derived: Seq<u8>) -> Result<Seq<u8>, CompareError> {
    match read_len_spec(s4, MAX_DELTA_BYTES) {
        Err(f) => Err(CompareError::Format(f)),
        Ok((len, n4)) => {
            let s5 = s4.skip(n4 as int);
            if len > s5.len() {
                Err(CompareError::Format(PackFault::Scb(ScbErrorCode::LengthOverflow)))
            } else {
                let s6 = s5.skip(len as int);
                if s6.len() < 32 {
                    Err(CompareError::Format(PackFault::Scb(ScbErrorCode::LengthOverflow)))
                } else if s6.len() != 32 {
                    Err(CompareError::Format(PackFault::Scb(ScbErrorCode::TrailingBytes)))
                } else if s6 != derived {
                    Err(CompareError::Compare(CompareErrorCode::DigestMismatch))
                } else {
                    Ok(s5.take(len as int))
                }
            }
        },
    }
}

/// Reads the envelope of a stored delta and returns its payload.
#[verifier::rlimit(40)]
pub fn decode_delta_envelope(input: &[u8], epoch_id: &[u8; 32], derived_id: &[u8; 32]) -> (r: Result<
    Vec<u8>,
    CompareError,
>)
    ensures
        match delta_envelope_spec(input@, epoch_id@, derived_id@) {
            Ok(p) => r is Ok && r->Ok_0@ == p,
            Err(e) => r == Err::<Vec<u8>, CompareError>(e),
        },
{
    if input.len() > MAX_DELTA_BYTES {
        return Err(CompareError::Compare(CompareErrorCode::ResourceLimit));
    }
    let mut reader = Reader::new(input);
    let head = lift(reader.take_exact(8))?;
    if !bytes_equal(head.as_slice(), magic_bytes()) {
        return Err(CompareError::Format(PackFault::Scb(ScbErrorCode::MagicInvalid)));
    }
    let ghost s1 = reader.rest();
    assert(s1 =~= input@.skip(8));
    let version = lift(reader.read_uvar())?;
    if version != DELTA_FORMAT_VERSION {
        return Err(CompareError::Compare(CompareErrorCode::VersionUnsupported));
    }
    let ghost s2 = reader.rest();
    proof {
        let n1 = read_uvar_spec(s1)->Ok_0.1;
        assert(s2 =~= s1.skip(n1 as int));
    }
    let tag = lift(reader.read_uvar())?;
    if tag != DELTA_CONTRACT_TAG {
        return Err(CompareError::Format(PackFault::Scb(ScbErrorCode::ContractUnknown)));
    }
    let ghost s3 = reader.rest();
    proof {
        let n2 = read_uvar_spec(s2)->Ok_0.1;
        assert(s3 =~= s2.skip(n2 as int));
    }
    let epoch = lift(reader.take_array())?;
    if !bytes_equal(epoch.as_slice(), epoch_id.as_slice()) {
        return Err(CompareError::Format(PackFault::Scb(ScbErrorCode::EpochMismatch)));
    }
    let ghost s4 = reader.rest();
    assert(s4 =~= s3.skip(32));
    let len = lift(reader.read_len(MAX_DELTA_BYTES))?;
    let ghost s5 = reader.rest();
    proof {
        let n4 = read_len_spec(s4, MAX_DELTA_BYTES)->Ok_0.1;
        assert(s5 =~= s4.skip(n4 as int));
    }
    let payload = lift(reader.take_exact(len))?;
    let ghost s6 = reader.rest();
    assert(s6 =~= s5.skip(len as int));
    let trailer = lift(reader.take_array())?;
    if !reader.is_finished() {
        return Err(CompareError::Format(PackFault::Scb(ScbErrorCode::TrailingBytes)));
    }
    assert(s6.take(32) =~= s6);
    if !bytes_equal(trailer.as_slice(), derived_id.as_slice()) {
        return Err(CompareError::Compare(CompareErrorCode::DigestMismatch));
    }
    Ok(payload)
}

/// The canonical-form check that closes decoding: the decoded delta must
/// encode without failure and to the very payload that was read.
pub open spec fn canonical_check(p: Seq<u8>, epoch: Seq<u8>, d: DeltaView) -> Result<DeltaView, CompareError> {
    match encode_fault(d) {
        Some(c) => Err(CompareError::Compare(c)),
        None => {
            let p2 = delta_payload_spec(d);
            if delta_preimage_spec(epoch, p2).len() + 32 > MAX_DELTA_BYTES {
                Err(CompareError::Compare(CompareErrorCode::ResourceLimit))
            } else if p2 != p {
                Err(CompareError::Compare(CompareErrorCode::CanonicalOrder))
            } else {
                Ok(d)
            }
        },
    }
}

/// Decoding a delta payload: the version, the four header identities, the
/// four entry sections, the five identity sets, then the canonical check.
pub open spec fn delta_body_spec(p: Seq<u8>, epoch: Seq<u8>) -> Result<DeltaView, CompareError> {
    match wire(record_start(p)) {
        Err(e) => Err(e),
        Ok(c0) => match uvar_field(c0, 1) {
            Err(e) => Err(e),
            Ok((version, c1)) => if version != DELTA_FORMAT_VERSION {
                Err(CompareError::Compare(CompareErrorCode::VersionUnsupported))
            } else {
                match fixed_field(c1, 2) {
                    Err(e) => Err(e),
                    Ok((ws, c2)) => match fixed_field(c2, 3) {
                        Err(e) => Err(e),
                        Ok((se, c3)) => match fixed_field(c3, 4) {
                            Err(e) => Err(e),
                            Ok((base, c4)) => match fixed_field(c4, 5) {
                                Err(e) => Err(e),
                                Ok((target, c5)) => delta_sections_spec(p, epoch, seq![ws, se, base, target], c5),
                            },
                        },
                    },
                }
            },
        },
    }
}

/// The four entry sections of a payload, then its identity sets.
#[verifier::opaque]
pub open spec fn delta_sections_spec(p: Seq<u8>, epoch: Seq<u8>, ids: Seq<Seq<u8>>, c5: Cursor) -> Result<
    DeltaView,
    CompareError,
> {
    match section_field::<EntityDelta>(c5, 6, MAX_ENTITY_DELTAS) {
        Err(e) => Err(e),
        Ok((es, c6)) => match section_field::<FieldDelta>(c6, 7, MAX_FIELD_DELTAS) {
            Err(e) => Err(e),
            Ok((fs, c7)) => match section_field::<BodyDelta>(c7, 8, MAX_BODY_DELTAS) {
                Err(e) => Err(e),
                Ok((bs, c8)) => match section_field::<RelationDelta>(c8, 9, MAX_RELATION_DELTAS) {
                    Err(e) => Err(e),
                    Ok((rs, c9)) => delta_sets_spec(p, epoch, ids, es, fs, bs, rs, c9),
                },
            },
        },
    }
}

/// The five identity sets of a payload, the end of its record, and the
/// canonical check.
#[verifier::opaque]
pub open spec fn delta_sets_spec(
    p: Seq<u8>,
    epoch: Seq<u8>,
    ids: Seq<Seq<u8>>,
    es: Seq<EntityView>,
    fs: Seq<FieldView>,
    bs: Seq<BodyView>,
    rs: Seq<RelationView>,
    c9: Cursor,
) -> Result<DeltaView, CompareError> {
    match id_set_field(c9, 10, MAX_IDENTITY_SET) {
        Err(e) => Err(e),
        Ok((a, c10)) => match id_set_field(c10, 11, MAX_IDENTITY_SET) {
            Err(e) => Err(e),
            Ok((b, c11)) => match id_set_field(c11, 12, MAX_IDENTITY_SET) {
                Err(e) => Err(e),
                Ok((c, c12)) => match id_set_field(c12, 13, MAX_IDENTITY_SET) {
                    Err(e) => Err(e),
                    Ok((d, c13)) => match id_set_field(c13, 14, MAX_IDENTITY_SET) {
                        Err(e) => Err(e),
                        Ok((x, c14)) => match wire(finish_spec(c14)) {
                            Err(e) => Err(e),
                            Ok(_) => canonical_check(p, epoch, (ids, es, fs, bs, rs, seq![a, b, c, d, x])),
                        },
                    },
                },
            },
        },
    }
}

/// Decodes and checks a delta payload under the delta schema epoch
/// `epoch_id`.
#[verifier::rlimit(80)]
pub fn decode_delta_body(payload: &[u8], epoch_id: &[u8; 32]) -> (r: Result<SemanticDelta, CompareError>)
    ensures
        match delta_body_spec(payload@, epoch_id@) {
            Ok(d) => r is Ok && r->Ok_0@ == d,
            Err(e) => r == Err::<SemanticDelta, CompareError>(e),
        },
{
    let mut record = lift(RecordReader::new(payload))?;
    let version = uvar(&mut record, 1)?;
    if version != DELTA_FORMAT_VERSION {
        return Err(CompareError::Compare(CompareErrorCode::VersionUnsupported));
    }
    let workspace_id = fixed(&mut record, 2)?;
    let root_schema_epoch = fixed(&mut record, 3)?;
    let base_root = fixed(&mut record, 4)?;
    let target_root = fixed(&mut record, 5)?;
    let ghost ids = seq![workspace_id@, root_schema_epoch@, base_root@, target_root@];
    let ghost c5 = record.cursor();
    assert(delta_body_spec(payload@, epoch_id@) == delta_sections_spec(payload@, epoch_id@, ids, c5));
    reveal(delta_sections_spec);
    let entities = section::<EntityDelta>(&mut record, 6, MAX_ENTITY_DELTAS)?;
    let fields = section::<FieldDelta>(&mut record, 7, MAX_FIELD_DELTAS)?;
    let bodies = section::<BodyDelta>(&mut record, 8, MAX_BODY_DELTAS)?;
    let relations = section::<RelationDelta>(&mut record, 9, MAX_RELATION_DELTAS)?;
    let ghost c9 = record.cursor();
    assert(delta_body_spec(payload@, epoch_id@) == delta_sets_spec(
        payload@,
        epoch_id@,
        ids,
        views(entities@),
        views(fields@),
        views(bodies@),
        views(relations@),
        c9,
    ));
    reveal(delta_sets_spec);
    let dependency_roots_added = id_set(&mut record, 10, MAX_IDENTITY_SET)?;
    let dependency_roots_removed = id_set(&mut record, 11, MAX_IDENTITY_SET)?;
    let entry_points_added = id_set(&mut record, 12, MAX_IDENTITY_SET)?;
    let entry_points_removed = id_set(&mut record, 13, MAX_IDENTITY_SET)?;
    let collateral = id_set(&mut record, 14, MAX_IDENTITY_SET)?;
    lift(record.finish())?;
    let delta = SemanticDelta {
        workspace_id,
        root_schema_epoch,
        base_root,
        target_root,
        entities,
        fields,
        bodies,
        relations,
        dependency_roots_added,
        dependency_roots_removed,
        entry_points_added,
        entry_points_removed,
        collateral,
    };
    assert(delta@.0 =~= ids);
    let reencoded = encode_delta_payload(&delta)?;
    crate::delta::encode_delta_preimage(epoch_id, reencoded.as_slice())?;
    if !bytes_equal(reencoded.as_slice(), payload) {
        return Err(CompareError::Compare(CompareErrorCode::CanonicalOrder));
    }
    Ok(delta)
}

/// Canonical delta bytes with their identity and decoded form.
#[derive(Clone, Debug, PartialEq, Eq)]
pub struct StoredSemanticDelta {
    /// Derived identity.
    pub delta_id: [u8; 32],
    /// Exact stored bytes including the trailer.
    pub stored_bytes: Vec<u8>,
    /// Decoded delta.
    pub delta: SemanticDelta,
}

/// Decodes and verifies stored delta bytes under the delta schema epoch
/// `epoch_id`, where `derived_id` is the identity derived from every byte
/// before the 32-byte trailer. A decoder never sorts or repairs input.
pub fn decode_semantic_delta(input: &[u8], epoch_id: &[u8; 32], derived_id: &[u8; 32]) -> (r: Result<
    StoredSemanticDelta,
    CompareError,
>)
    ensures
        match delta_envelope_spec(input@, epoch_id@, derived_id@) {
            Err(e) => r == Err::<StoredSemanticDelta, CompareError>(e),
            Ok(p) => match delta_body_spec(p, epoch_id@) {
                Ok(d) => r is Ok && r->Ok_0.delta@ == d && r->Ok_0.stored_bytes@ == input@
                    && r->Ok_0.delta_id@ == derived_id@,
                Err(e) => r == Err::<StoredSemanticDelta, CompareError>(e),
            },
        },
{
    let payload = decode_delta_envelope(input, epoch_id, derived_id)?;
    let delta = decode_delta_body(payload.as_slice(), epoch_id)?;
    let mut stored_bytes: Vec<u8> = Vec::new();
    crate::bytes::append_bytes(&mut stored_bytes, input);
    assert(stored_bytes@ =~= input@);
    Ok(StoredSemanticDelta { delta_id: *derived_id, stored_bytes, delta })
}

} // verus!
