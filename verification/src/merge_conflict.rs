//! The canonical stored form of a merge conflict.

use vstd::prelude::*;

use crate::bytes::{append_bytes, bytes_equal, lex, ByteOrder, compare_bytes};
use crate::digest::digests_view;
use crate::merge::{
    ConflictEntry, ConflictReason, MergeError, MergeErrorCode, MAX_CONFLICT_BYTES,
    MAX_CONFLICT_ENTRIES,
};
use crate::pack::{PackError, PackFault};
use crate::pack_envelope::magic;

use crate::scb::{
    decode_list, decode_list_spec, enc_list, enc_record, encode_list, encode_record, encode_uvar,
    exact_array, field_step, finish_spec, read_len_spec, read_single_uvar, read_uvar_spec,
    record_start, single_uvar_spec, uvar_bytes, Cursor, Reader, RecordReader, ScbErrorCode,
};

verus! {

/// Wire format version of a stored conflict.
pub const CONFLICT_FORMAT_VERSION: u64 = 1;
/// Contract tag of a stored conflict.
pub const CONFLICT_CONTRACT_TAG: u64 = 520;

/// A canonical merge conflict.
#[derive(Clone, Debug, PartialEq, Eq)]
pub struct MergeConflict {
    /// Shared workspace.
    pub workspace_id: [u8; 32],
    /// Ancestor root.
    pub ancestor_root: [u8; 32],
    /// Ours root.
    pub ours_root: [u8; 32],
    /// Theirs root.
    pub theirs_root: [u8; 32],
    /// Delta identity of ancestor to ours.
    pub ours_delta: [u8; 32],
    /// Delta identity of ancestor to theirs.
    pub theirs_delta: [u8; 32],
    /// Canonical conflict entries.
    pub conflicts: Vec<ConflictEntry>,
}

/// The all-zero identity.
pub open spec fn zero32() -> Seq<u8> {
    Seq::new(32, |i: int| 0u8)
}

/// The stored form of an optional object: its identity, or all zeros.
pub open spec fn object_field(o: Option<Seq<u8>>) -> Seq<u8> {
    match o {
        Some(x) => x,
        None => zero32(),
    }
}

/// A conflict entry as values: identity, reason, kind, field, ours object,
/// theirs object and detail.
pub type EntryView = (Seq<u8>, ConflictReason, u32, u32, Option<Seq<u8>>, Option<Seq<u8>>, u32);

/// The value of an optional object.
pub open spec fn object_view(o: Option<[u8; 32]>) -> Option<Seq<u8>> {
    match o {
        Some(x) => Some(x@),
        None => None,
    }
}

/// A conflict entry as values.
pub open spec fn entry_view(e: ConflictEntry) -> EntryView {
    (e.entity_id@, e.reason, e.kind, e.field, object_view(e.ours_object), object_view(e.theirs_object), e.detail)
}

/// The values of conflict entries.
pub open spec fn entry_views(es: Seq<ConflictEntry>) -> Seq<EntryView> {
    es.map_values(|e: ConflictEntry| entry_view(e))
}

/// Entry `a` sorts strictly before entry `b` by (identity, reason, field).
pub open spec fn entry_key_lt(a: EntryView, b: EntryView) -> bool {
    lex(a.0, b.0) == ByteOrder::Less || (a.0 == b.0 && (a.1.tag_spec() < b.1.tag_spec() || (
    a.1.tag_spec() == b.1.tag_spec() && a.3 < b.3)))
}

/// Entries strictly ascend by (identity, reason, field).
pub open spec fn entries_sorted(es: Seq<EntryView>) -> bool {
    forall|i: int| 0 <= i < es.len() - 1 ==> #[trigger] entry_key_lt(es[i], es[i + 1])
}

fn entry_lt(a: &ConflictEntry, b: &ConflictEntry) -> (r: bool)
    ensures
        r == entry_key_lt(entry_view(*a), entry_view(*b)),
{
    proof {
        crate::bytes::lemma_lex_equal(a.entity_id@, b.entity_id@);
    }
    match compare_bytes(a.entity_id.as_slice(), b.entity_id.as_slice()) {
        ByteOrder::Less => true,
        ByteOrder::Greater => false,
        ByteOrder::Equal => {
            let ta = a.reason.tag();
            let tb = b.reason.tag();
            ta < tb || (ta == tb && a.field < b.field)
        },
    }
}

/// Checks that the entries strictly ascend by (identity, reason, field).
pub fn require_sorted(es: &Vec<ConflictEntry>) -> (r: Result<(), MergeError>)
    ensures
        entries_sorted(entry_views(es@)) ==> r is Ok,
        !entries_sorted(entry_views(es@)) ==> r == Err::<(), MergeError>(
            MergeError::Merge(MergeErrorCode::ConflictCanonicalOrder),
        ),
{
    let n = es.len();
    if n < 2 {
        return Ok(());
    }
    let mut i: usize = 0;
    while i < n - 1
        invariant
            n == es@.len(),
            n >= 2,
            i <= n - 1,
            forall|k: int| 0 <= k < i ==> #[trigger] entry_key_lt(entry_views(es@)[k], entry_views(es@)[k + 1]),
        decreases n - 1 - i,
    {
        if !entry_lt(&es[i], &es[i + 1]) {
            assert(!entry_key_lt(entry_views(es@)[i as int], entry_views(es@)[i + 1]));
            return Err(MergeError::Merge(MergeErrorCode::ConflictCanonicalOrder));
        }
        i = i + 1;
    }
    Ok(())
}

/// The record fields of one stored entry.
pub open spec fn entry_fields(e: EntryView) -> Seq<(u64, Seq<u8>)> {
    seq![
        (1u64, e.0),
        (2u64, uvar_bytes(e.1.tag_spec() as nat)),
        (3u64, uvar_bytes(e.2 as nat)),
        (4u64, uvar_bytes(e.3 as nat)),
        (5u64, object_field(e.4)),
        (6u64, object_field(e.5)),
        (7u64, uvar_bytes(e.6 as nat)),
    ]
}

/// The stored payload of a conflict.
pub open spec fn conflict_payload_spec(ids: Seq<Seq<u8>>, conflicts: Seq<EntryView>) -> Seq<u8> {
    enc_record(
        seq![
            (1u64, uvar_bytes(CONFLICT_FORMAT_VERSION as nat)),
            (2u64, ids[0]),
            (3u64, ids[1]),
            (4u64, ids[2]),
            (5u64, ids[3]),
            (6u64, ids[4]),
            (7u64, ids[5]),
            (8u64, enc_list(conflicts.map_values(|e: EntryView| enc_record(entry_fields(e))))),
        ],
    )
}

impl MergeConflict {
    /// The six header identities, in field order.
    pub open spec fn ids(&self) -> Seq<Seq<u8>> {
        seq![
            self.workspace_id@,
            self.ancestor_root@,
            self.ours_root@,
            self.theirs_root@,
            self.ours_delta@,
            self.theirs_delta@,
        ]
    }
}

pub(crate) fn copy32(id: &[u8; 32]) -> (r: Vec<u8>)
    ensures
        r@ == id@,
{
    let mut out: Vec<u8> = Vec::new();
    append_bytes(&mut out, id.as_slice());
    assert(out@ =~= id@);
    out
}

pub(crate) fn object_bytes(o: Option<[u8; 32]>) -> (r: Vec<u8>)
    ensures
        r@ == object_field(object_view(o)),
{
    match o {
        Some(x) => copy32(&x),
        None => zero_bytes(),
    }
}

pub(crate) fn push_field(fields: &mut Vec<(u64, Vec<u8>)>, tag: u64, value: Vec<u8>)
    ensures
        final(fields).deep_view() == old(fields).deep_view().push((tag, value@)),
{
    let ghost before = fields.deep_view();
    let ghost v = value@;
    assert(value.deep_view() =~= v);
    fields.push((tag, value));
    assert(fields.deep_view() =~= before.push((tag, v)));
}

fn encode_entry(e: &ConflictEntry) -> (r: Vec<u8>)
    ensures
        r@ == enc_record(entry_fields(entry_view(*e))),
{
    let mut fields: Vec<(u64, Vec<u8>)> = Vec::new();
    assert(fields.deep_view() =~= Seq::<(u64, Seq<u8>)>::empty());
    push_field(&mut fields, 1, copy32(&e.entity_id));
    push_field(&mut fields, 2, encode_uvar(e.reason.tag() as u64));
    push_field(&mut fields, 3, encode_uvar(e.kind as u64));
    push_field(&mut fields, 4, encode_uvar(e.field as u64));
    push_field(&mut fields, 5, object_bytes(e.ours_object));
    push_field(&mut fields, 6, object_bytes(e.theirs_object));
    push_field(&mut fields, 7, encode_uvar(e.detail as u64));
    assert(fields.deep_view() =~= entry_fields(entry_view(*e)));
    encode_record(&fields)
}

/// Encodes the payload of a conflict: it must hold between one and
/// `MAX_CONFLICT_ENTRIES` entries in strictly ascending order.
pub fn encode_conflict_payload(conflict: &MergeConflict) -> (r: Result<Vec<u8>, MergeError>)
    ensures
        (conflict.conflicts@.len() == 0 || conflict.conflicts@.len() > MAX_CONFLICT_ENTRIES) ==> r
            == Err::<Vec<u8>, MergeError>(MergeError::Merge(MergeErrorCode::ConflictFormatInvalid)),
        (1 <= conflict.conflicts@.len() <= MAX_CONFLICT_ENTRIES && !entries_sorted(
            entry_views(conflict.conflicts@),
        )) ==> r == Err::<Vec<u8>, MergeError>(
            MergeError::Merge(MergeErrorCode::ConflictCanonicalOrder),
        ),
        (1 <= conflict.conflicts@.len() <= MAX_CONFLICT_ENTRIES && entries_sorted(
            entry_views(conflict.conflicts@),
        )) ==> r is Ok && r->Ok_0@ == conflict_payload_spec(
            conflict.ids(),
            entry_views(conflict.conflicts@),
        ),
{
    if conflict.conflicts.len() == 0 || conflict.conflicts.len() > MAX_CONFLICT_ENTRIES {
        return Err(MergeError::Merge(MergeErrorCode::ConflictFormatInvalid));
    }
    require_sorted(&conflict.conflicts)?;
    let ghost target = entry_views(conflict.conflicts@).map_values(
        |e: EntryView| enc_record(entry_fields(e)),
    );
    let mut elements: Vec<Vec<u8>> = Vec::new();
    let mut i: usize = 0;
    assert(elements.deep_view() =~= target.take(0));
    while i < conflict.conflicts.len()
        invariant
            i <= conflict.conflicts@.len(),
            target == entry_views(conflict.conflicts@).map_values(
                |e: EntryView| enc_record(entry_fields(e)),
            ),
            elements.deep_view() == target.take(i as int),
        decreases conflict.conflicts.len() - i,
    {
        let element = encode_entry(&conflict.conflicts[i]);
        let ghost before = elements.deep_view();
        let ghost v = element@;
        assert(element.deep_view() =~= v);
        elements.push(element);
        proof {
            assert(elements.deep_view() =~= before.push(v));
            assert(target.take(i + 1) =~= target.take(i as int).push(target[i as int]));
        }
        i = i + 1;
    }
    assert(target.take(i as int) =~= target);
    let mut fields: Vec<(u64, Vec<u8>)> = Vec::new();
    assert(fields.deep_view() =~= Seq::<(u64, Seq<u8>)>::empty());
    push_field(&mut fields, 1, encode_uvar(CONFLICT_FORMAT_VERSION));
    push_field(&mut fields, 2, copy32(&conflict.workspace_id));
    push_field(&mut fields, 3, copy32(&conflict.ancestor_root));
    push_field(&mut fields, 4, copy32(&conflict.ours_root));
    push_field(&mut fields, 5, copy32(&conflict.theirs_root));
    push_field(&mut fields, 6, copy32(&conflict.ours_delta));
    push_field(&mut fields, 7, copy32(&conflict.theirs_delta));
    push_field(&mut fields, 8, encode_list(&elements));
    proof {
        let ids = conflict.ids();
        assert(fields.deep_view() =~= seq![
            (1u64, uvar_bytes(CONFLICT_FORMAT_VERSION as nat)),
            (2u64, ids[0]),
            (3u64, ids[1]),
            (4u64, ids[2]),
            (5u64, ids[3]),
            (6u64, ids[4]),
            (7u64, ids[5]),
            (8u64, enc_list(target)),
        ]);
    }
    Ok(encode_record(&fields))
}

/// The bytes a conflict identity is derived from.
pub open spec fn conflict_preimage_spec(epoch: Seq<u8>, payload: Seq<u8>) -> Seq<u8> {
    magic() + uvar_bytes(CONFLICT_FORMAT_VERSION as nat) + uvar_bytes(CONFLICT_CONTRACT_TAG as nat)
        + epoch + uvar_bytes(payload.len()) + payload
}

pub(crate) fn magic_bytes() -> (r: &'static [u8])
    ensures
        r@ == magic(),
{
    let text = "SLEYSCB1";
    proof {
        reveal_strlit("SLEYSCB1");
        vstd::string::is_ascii_spec_bytes(text);
    }
    let r = text.as_bytes();
    assert(r@ =~= magic());
    r
}

/// Builds the preimage of a conflict under the conflict schema epoch,
/// refusing one whose sealed form would pass `MAX_CONFLICT_BYTES`.
pub fn encode_conflict_preimage(epoch_id: &[u8; 32], payload: &[u8]) -> (r: Result<Vec<u8>, MergeError>)
    ensures
        conflict_preimage_spec(epoch_id@, payload@).len() + 32 <= MAX_CONFLICT_BYTES ==> r is Ok
            && r->Ok_0@ == conflict_preimage_spec(epoch_id@, payload@),
        conflict_preimage_spec(epoch_id@, payload@).len() + 32 > MAX_CONFLICT_BYTES ==> r
            == Err::<Vec<u8>, MergeError>(MergeError::Merge(MergeErrorCode::ResourceLimit)),
{
    let mut out: Vec<u8> = Vec::new();
    append_bytes(&mut out, magic_bytes());
    let version = encode_uvar(CONFLICT_FORMAT_VERSION);
    append_bytes(&mut out, version.as_slice());
    let tag = encode_uvar(CONFLICT_CONTRACT_TAG);
    append_bytes(&mut out, tag.as_slice());
    append_bytes(&mut out, epoch_id.as_slice());
    let len = encode_uvar(payload.len() as u64);
    append_bytes(&mut out, len.as_slice());
    if payload.len() > MAX_CONFLICT_BYTES - 32 || out.len() > MAX_CONFLICT_BYTES - 32 - payload.len() {
        return Err(MergeError::Merge(MergeErrorCode::ResourceLimit));
    }
    append_bytes(&mut out, payload);
    assert(out@ =~= conflict_preimage_spec(epoch_id@, payload@));
    Ok(out)
}

/// A lower-layer result with its failure wrapped as a format failure.
pub open spec fn fmt<T>(r: Result<T, PackFault>) -> Result<T, MergeError> {
    match r {
        Ok(v) => Ok(v),
        Err(f) => Err(MergeError::Format(f)),
    }
}

/// Reading a 32-byte identity field.
pub open spec fn fixed32_spec(v: Seq<u8>) -> Result<Seq<u8>, MergeError> {
    if v.len() == 32 {
        Ok(v)
    } else {
        Err(MergeError::Format(PackFault::Scb(ScbErrorCode::LengthOverflow)))
    }
}

/// Reading a varint field that must fit in 32 bits.
pub open spec fn small_u32_spec(v: Seq<u8>) -> Result<u32, MergeError> {
    match fmt(single_uvar_spec(v)) {
        Err(e) => Err(e),
        Ok(x) => if x > u32::MAX {
            Err(MergeError::Merge(MergeErrorCode::ConflictFormatInvalid))
        } else {
            Ok(x as u32)
        },
    }
}

/// The reason with tag `t`, if any.
pub open spec fn reason_of(t: u64) -> Option<ConflictReason> {
    if t == 1 {
        Some(ConflictReason::AddAdd)
    } else if t == 2 {
        Some(ConflictReason::DeleteEdit)
    } else if t == 3 {
        Some(ConflictReason::FieldEdit)
    } else if t == 4 {
        Some(ConflictReason::KindEdit)
    } else if t == 5 {
        Some(ConflictReason::Collateral)
    } else if t == 6 {
        Some(ConflictReason::Closure)
    } else if t == 7 {
        Some(ConflictReason::RootAnchor)
    } else if t == 8 {
        Some(ConflictReason::PolicyRoot)
    } else if t == 9 {
        Some(ConflictReason::MetadataEdit)
    } else {
        None
    }
}

/// Reading a reason field.
pub open spec fn reason_spec(v: Seq<u8>) -> Result<ConflictReason, MergeError> {
    match fmt(single_uvar_spec(v)) {
        Err(e) => Err(e),
        Ok(t) => match reason_of(t) {
            Some(r) => Ok(r),
            None => Err(MergeError::Merge(MergeErrorCode::ConflictFormatInvalid)),
        },
    }
}

/// A stored object field: all zeros stands for no object.
pub open spec fn stored_object(v: Seq<u8>) -> Option<Seq<u8>> {
    if v == zero32() {
        None
    } else {
        Some(v)
    }
}

/// The strict validity rules of one entry: identity-free reasons carry no
/// kind and the zero identity, others a kind in `1..=18`; the detail is the
/// impact code on `Closure`, the anchor class `1..=3` on `RootAnchor` and
/// zero otherwise; the field is `1..=8` on `FieldEdit` and zero otherwise.
pub open spec fn entry_valid(e: EntryView) -> bool {
    let identity_free = e.1 == ConflictReason::Closure || e.1 == ConflictReason::RootAnchor || e.1
        == ConflictReason::PolicyRoot;
    let detail_ok = if e.1 == ConflictReason::Closure {
        e.6 != 0
    } else if e.1 == ConflictReason::RootAnchor {
        1 <= e.6 <= 3
    } else {
        e.6 == 0
    };
    let field_ok = if e.1 == ConflictReason::FieldEdit {
        1 <= e.3 <= 8
    } else {
        e.3 == 0
    };
    &&& detail_ok
    &&& field_ok
    &&& identity_free ==> e.2 == 0 && e.0 == zero32()
    &&& !identity_free ==> 1 <= e.2 <= 18
}

/// Decoding one stored entry, field by field.
#[verifier::opaque]
pub open spec fn conflict_entry_spec(s: Seq<u8>) -> Result<EntryView, MergeError> {
    match fmt(record_start(s)) {
        Err(e) => Err(e),
        Ok(c0) => match fmt(field_step(c0, 1)) {
            Err(e) => Err(e),
            Ok((v1, c1)) => match fixed32_spec(v1) {
                Err(e) => Err(e),
                Ok(id) => match fmt(field_step(c1, 2)) {
                    Err(e) => Err(e),
                    Ok((v2, c2)) => match reason_spec(v2) {
                        Err(e) => Err(e),
                        Ok(reason) => match fmt(field_step(c2, 3)) {
                            Err(e) => Err(e),
                            Ok((v3, c3)) => match small_u32_spec(v3) {
                                Err(e) => Err(e),
                                Ok(kind) => match fmt(field_step(c3, 4)) {
                                    Err(e) => Err(e),
                                    Ok((v4, c4)) => match small_u32_spec(v4) {
                                        Err(e) => Err(e),
                                        Ok(field) => entry_tail_spec(c4, id, reason, kind, field),
                                    },
                                },
                            },
                        },
                    },
                },
            },
        },
    }
}

/// The rest of an entry after its field 4.
pub open spec fn entry_tail_spec(
    c4: Cursor,
    id: Seq<u8>,
    reason: ConflictReason,
    kind: u32,
    field: u32,
) -> Result<EntryView, MergeError> {
    match fmt(field_step(c4, 5)) {
        Err(e) => Err(e),
        Ok((v5, c5)) => match fixed32_spec(v5) {
            Err(e) => Err(e),
            Ok(ours) => match fmt(field_step(c5, 6)) {
                Err(e) => Err(e),
                Ok((v6, c6)) => match fixed32_spec(v6) {
                    Err(e) => Err(e),
                    Ok(theirs) => match fmt(field_step(c6, 7)) {
                        Err(e) => Err(e),
                        Ok((v7, c7)) => match small_u32_spec(v7) {
                            Err(e) => Err(e),
                            Ok(detail) => match fmt(finish_spec(c7)) {
                                Err(e) => Err(e),
                                Ok(_) => {
                                    let v = (
                                        id,
                                        reason,
                                        kind,
                                        field,
                                        stored_object(ours),
                                        stored_object(theirs),
                                        detail,
                                    );
                                    if entry_valid(v) {
                                        Ok(v)
                                    } else {
                                        Err(MergeError::Merge(MergeErrorCode::ConflictFormatInvalid))
                                    }
                                },
                            },
                        },
                    },
                },
            },
        },
    }
}

fn fixed32(input: &[u8]) -> (r: Result<[u8; 32], MergeError>)
    ensures
        match fixed32_spec(input@) {
            Ok(v) => r is Ok && r->Ok_0@ == v,
            Err(e) => r == Err::<[u8; 32], MergeError>(e),
        },
{
    match exact_array(input) {
        Ok(a) => Ok(a),
        Err(e) => Err(MergeError::from_pack(e)),
    }
}

fn small_u32(input: &[u8]) -> (r: Result<u32, MergeError>)
    ensures
        match small_u32_spec(input@) {
            Ok(v) => r == Ok::<u32, MergeError>(v),
            Err(e) => r == Err::<u32, MergeError>(e),
        },
{
    let value = match read_single_uvar(input) {
        Ok(v) => v,
        Err(e) => {
            return Err(MergeError::from_pack(e));
        },
    };
    if value > u32::MAX as u64 {
        return Err(MergeError::Merge(MergeErrorCode::ConflictFormatInvalid));
    }
    Ok(value as u32)
}

fn reason_field(input: &[u8]) -> (r: Result<ConflictReason, MergeError>)
    ensures
        match reason_spec(input@) {
            Ok(v) => r == Ok::<ConflictReason, MergeError>(v),
            Err(e) => r == Err::<ConflictReason, MergeError>(e),
        },
{
    let tag = match read_single_uvar(input) {
        Ok(v) => v,
        Err(e) => {
            return Err(MergeError::from_pack(e));
        },
    };
    let r = ConflictReason::from_tag(tag);
    proof {
        if let Ok(x) = r {
            assert(reason_of(tag) == Some(x));
        }
    }
    r
}

fn lift<T>(r: Result<T, PackError>) -> (out: Result<T, MergeError>)
    ensures
        match r {
            Ok(v) => out == Ok::<T, MergeError>(v),
            Err(e) => out == Err::<T, MergeError>(MergeError::Format(e@)),
        },
{
    match r {
        Ok(v) => Ok(v),
        Err(e) => Err(MergeError::from_pack(e)),
    }
}

pub(crate) fn is_zero(v: &[u8; 32]) -> (r: bool)
    ensures
        r == (v@ == zero32()),
{
    let mut i: usize = 0;
    while i < 32
        invariant
            i <= 32,
            forall|k: int| 0 <= k < i ==> v@[k] == 0,
        decreases 32 - i,
    {
        if v[i] != 0 {
            assert(v@[i as int] != zero32()[i as int]);
            return false;
        }
        i = i + 1;
    }
    assert(v@ =~= zero32());
    true
}

fn zero_bytes() -> (r: Vec<u8>)
    ensures
        r@ == zero32(),
{
    let mut out: Vec<u8> = Vec::new();
    while out.len() < 32
        invariant
            out@.len() <= 32,
            forall|k: int| 0 <= k < out@.len() ==> out@[k] == 0,
        decreases 32 - out@.len(),
    {
        out.push(0);
    }
    assert(out@ =~= zero32());
    out
}

/// Decodes one stored conflict entry.
#[verifier::rlimit(60)]
pub fn decode_conflict_entry(element: &[u8]) -> (r: Result<ConflictEntry, MergeError>)
    ensures
        match conflict_entry_spec(element@) {
            Ok(v) => r is Ok && entry_view(r->Ok_0) == v,
            Err(e) => r == Err::<ConflictEntry, MergeError>(e),
        },
{
    reveal(conflict_entry_spec);
    let mut entry = lift(RecordReader::new(element))?;
    let entity_id = fixed32(lift(entry.required(1))?.as_slice())?;
    let reason = reason_field(lift(entry.required(2))?.as_slice())?;
    let kind = small_u32(lift(entry.required(3))?.as_slice())?;
    let field = small_u32(lift(entry.required(4))?.as_slice())?;
    let ours_bytes = fixed32(lift(entry.required(5))?.as_slice())?;
    let theirs_bytes = fixed32(lift(entry.required(6))?.as_slice())?;
    let detail = small_u32(lift(entry.required(7))?.as_slice())?;
    lift(entry.finish())?;
    let identity_free = reason == ConflictReason::Closure || reason == ConflictReason::RootAnchor
        || reason == ConflictReason::PolicyRoot;
    let detail_ok = if reason == ConflictReason::Closure {
        detail != 0
    } else if reason == ConflictReason::RootAnchor {
        1 <= detail && detail <= 3
    } else {
        detail == 0
    };
    let field_ok = if reason == ConflictReason::FieldEdit {
        1 <= field && field <= 8
    } else {
        field == 0
    };
    if !detail_ok || !field_ok || (identity_free && (kind != 0 || !is_zero(&entity_id))) || (
    !identity_free && (kind == 0 || kind > 18)) {
        return Err(MergeError::Merge(MergeErrorCode::ConflictFormatInvalid));
    }
    let ours_object = if is_zero(&ours_bytes) {
        None
    } else {
        Some(ours_bytes)
    };
    let theirs_object = if is_zero(&theirs_bytes) {
        None
    } else {
        Some(theirs_bytes)
    };
    Ok(ConflictEntry { entity_id, reason, kind, field, ours_object, theirs_object, detail })
}

/// Reading a stored conflict's envelope under the conflict schema epoch
/// `epoch`, whose identity derived from every byte before the trailer is
/// `derived`: its payload.
pub open spec fn conflict_envelope_spec(s: Seq<u8>, epoch: Seq<u8>, derived: Seq<u8>) -> Result<
    Seq<u8>,
    MergeError,
> {
    if s.len() > MAX_CONFLICT_BYTES {
        Err(MergeError::Merge(MergeErrorCode::ResourceLimit))
    } else if s.len() < 8 {
        Err(MergeError::Format(PackFault::Scb(ScbErrorCode::LengthOverflow)))
    } else if s.take(8) != magic() {
        Err(MergeError::Format(PackFault::Scb(ScbErrorCode::MagicInvalid)))
    } else {
        let s1 = s.skip(8);
        match read_uvar_spec(s1) {
            Err(c) => Err(MergeError::Format(PackFault::Scb(c))),
            Ok((version, n1)) => if version != CONFLICT_FORMAT_VERSION {
                Err(MergeError::Merge(MergeErrorCode::ConflictVersionUnsupported))
            } else {
                let s2 = s1.skip(n1 as int);
                match read_uvar_spec(s2) {
                    Err(c) => Err(MergeError::Format(PackFault::Scb(c))),
                    Ok((tag, n2)) => if tag != CONFLICT_CONTRACT_TAG {
                        Err(MergeError::Format(PackFault::Scb(ScbErrorCode::ContractUnknown)))
                    } else {
                        let s3 = s2.skip(n2 as int);
                        if s3.len() < 32 {
                            Err(MergeError::Format(PackFault::Scb(ScbErrorCode::LengthOverflow)))
                        } else if s3.take(32) != epoch {
                            Err(MergeError::Format(PackFault::Scb(ScbErrorCode::EpochMismatch)))
                        } else {
                            let s4 = s3.skip(32);
                            match read_len_spec(s4, MAX_CONFLICT_BYTES) {
                                Err(f) => Err(MergeError::Format(f)),
                                Ok((len, n4)) => {
                                    let s5 = s4.skip(n4 as int);
                                    if len > s5.len() {
                                        Err(
                                            MergeError::Format(
                                                PackFault::Scb(ScbErrorCode::LengthOverflow),
                                            ),
                                        )
                                    } else {
                                        let s6 = s5.skip(len as int);
                                        if s6.len() < 32 {
                                            Err(
                                                MergeError::Format(
                                                    PackFault::Scb(ScbErrorCode::LengthOverflow),
                                                ),
                                            )
                                        } else if s6.len() != 32 {
                                            Err(
                                                MergeError::Format(
                                                    PackFault::Scb(ScbErrorCode::TrailingBytes),
                                                ),
                                            )
                                        } else if s6 != derived {
                                            Err(
                                                MergeError::Merge(
                                                    MergeErrorCode::ConflictDigestMismatch,
                                                ),
                                            )
                                        } else {
                                            Ok(s5.take(len as int))
                                        }
                                    }
                                },
                            }
                        }
                    },
                }
            },
        }
    }
}

/// Reads the envelope of a stored conflict and returns its payload.
#[verifier::rlimit(40)]
pub fn decode_conflict_envelope(input: &[u8], epoch_id: &[u8; 32], derived_id: &[u8; 32]) -> (r:
    Result<Vec<u8>, MergeError>)
    ensures
        match conflict_envelope_spec(input@, epoch_id@, derived_id@) {
            Ok(p) => r is Ok && r->Ok_0@ == p,
            Err(e) => r == Err::<Vec<u8>, MergeError>(e),
        },
{
    if input.len() > MAX_CONFLICT_BYTES {
        return Err(MergeError::Merge(MergeErrorCode::ResourceLimit));
    }
    let mut reader = Reader::new(input);
    let head = lift(reader.take_exact(8))?;
    if !bytes_equal(head.as_slice(), magic_bytes()) {
        return Err(MergeError::Format(PackFault::Scb(ScbErrorCode::MagicInvalid)));
    }
    let ghost s1 = reader.rest();
    assert(s1 =~= input@.skip(8));
    let version = lift(reader.read_uvar())?;
    if version != CONFLICT_FORMAT_VERSION {
        return Err(MergeError::Merge(MergeErrorCode::ConflictVersionUnsupported));
    }
    let ghost s2 = reader.rest();
    proof {
        let n1 = read_uvar_spec(s1)->Ok_0.1;
        assert(s2 =~= s1.skip(n1 as int));
    }
    let tag = lift(reader.read_uvar())?;
    if tag != CONFLICT_CONTRACT_TAG {
        return Err(MergeError::Format(PackFault::Scb(ScbErrorCode::ContractUnknown)));
    }
    let ghost s3 = reader.rest();
    proof {
        let n2 = read_uvar_spec(s2)->Ok_0.1;
        assert(s3 =~= s2.skip(n2 as int));
    }
    let epoch = lift(reader.take_array())?;
    if !bytes_equal(epoch.as_slice(), epoch_id.as_slice()) {
        return Err(MergeError::Format(PackFault::Scb(ScbErrorCode::EpochMismatch)));
    }
    let ghost s4 = reader.rest();
    assert(s4 =~= s3.skip(32));
    let len = lift(reader.read_len(MAX_CONFLICT_BYTES))?;
    let ghost s5 = reader.rest();
    proof {
        let n4 = read_len_spec(s4, MAX_CONFLICT_BYTES)->Ok_0.1;
        assert(s5 =~= s4.skip(n4 as int));
    }
    let payload = lift(reader.take_exact(len))?;
    let ghost s6 = reader.rest();
    assert(s6 =~= s5.skip(len as int));
    let trailer = lift(reader.take_array())?;
    if !reader.is_finished() {
        return Err(MergeError::Format(PackFault::Scb(ScbErrorCode::TrailingBytes)));
    }
    assert(s6.take(32) =~= s6);
    if !bytes_equal(trailer.as_slice(), derived_id.as_slice()) {
        return Err(MergeError::Merge(MergeErrorCode::ConflictDigestMismatch));
    }
    Ok(payload)
}

/// Reading `count` consecutive identity fields tagged from `next`.
pub open spec fn header_ids_spec(c: Cursor, next: u64, count: nat) -> Result<
    (Seq<Seq<u8>>, Cursor),
    MergeError,
>
    decreases count,
{
    if count == 0 {
        Ok((Seq::empty(), c))
    } else {
        match fmt(field_step(c, next)) {
            Err(e) => Err(e),
            Ok((v, c2)) => match fixed32_spec(v) {
                Err(e) => Err(e),
                Ok(id) => if next == u64::MAX {
                    Ok((seq![id], c2))
                } else {
                    match header_ids_spec(c2, (next + 1) as u64, (count - 1) as nat) {
                        Err(e) => Err(e),
                        Ok((ids, c3)) => Ok((seq![id] + ids, c3)),
                    }
                },
            },
        }
    }
}

/// Decoding the stored entries in turn; the first failure decides.
#[verifier::opaque]
pub open spec fn conflict_entries_spec(elems: Seq<Seq<u8>>) -> Result<Seq<EntryView>, MergeError>
    decreases elems.len(),
{
    if elems.len() == 0 {
        Ok(Seq::empty())
    } else {
        match conflict_entry_spec(elems[0]) {
            Err(e) => Err(e),
            Ok(v) => match conflict_entries_spec(elems.drop_first()) {
                Err(e) => Err(e),
                Ok(vs) => Ok(seq![v] + vs),
            },
        }
    }
}

/// Decoding a conflict payload: the version, the six header identities,
/// the entries, then the canonical-form checks.
pub open spec fn conflict_body_spec(p: Seq<u8>) -> Result<(Seq<Seq<u8>>, Seq<EntryView>), MergeError> {
    match fmt(record_start(p)) {
        Err(e) => Err(e),
        Ok(c0) => match fmt(field_step(c0, 1)) {
            Err(e) => Err(e),
            Ok((v1, c1)) => match fmt(single_uvar_spec(v1)) {
                Err(e) => Err(e),
                Ok(version) => if version != CONFLICT_FORMAT_VERSION {
                    Err(MergeError::Merge(MergeErrorCode::ConflictVersionUnsupported))
                } else {
                    body_after_ids(p, header_ids_spec(c1, 2, 6))
                },
            },
        },
    }
}

/// The rest of a conflict payload once its header identities were read.
#[verifier::opaque]
pub open spec fn body_after_ids(p: Seq<u8>, header: Result<(Seq<Seq<u8>>, Cursor), MergeError>) -> Result<
    (Seq<Seq<u8>>, Seq<EntryView>),
    MergeError,
> {
    match header {
        Err(e) => Err(e),
        Ok((ids, c7)) => match fmt(field_step(c7, 8)) {
            Err(e) => Err(e),
            Ok((v8, c8)) => match fmt(decode_list_spec(v8, MAX_CONFLICT_ENTRIES)) {
                Err(e) => Err(e),
                Ok(elems) => match conflict_entries_spec(elems) {
                    Err(e) => Err(e),
                    Ok(entries) => match fmt(finish_spec(c8)) {
                        Err(e) => Err(e),
                        Ok(_) => if entries.len() == 0 {
                            Err(MergeError::Merge(MergeErrorCode::ConflictFormatInvalid))
                        } else if !entries_sorted(entries) {
                            Err(MergeError::Merge(MergeErrorCode::ConflictCanonicalOrder))
                        } else if p != conflict_payload_spec(ids, entries) {
                            Err(MergeError::Merge(MergeErrorCode::ConflictCanonicalOrder))
                        } else {
                            Ok((ids, entries))
                        },
                    },
                },
            },
        },
    }
}

spec fn prepend_ids(done: Seq<Seq<u8>>, r: Result<(Seq<Seq<u8>>, Cursor), MergeError>) -> Result<
    (Seq<Seq<u8>>, Cursor),
    MergeError,
> {
    match r {
        Ok((ids, c)) => Ok((done + ids, c)),
        Err(e) => Err(e),
    }
}

spec fn prepend_entries(done: Seq<EntryView>, r: Result<Seq<EntryView>, MergeError>) -> Result<
    Seq<EntryView>,
    MergeError,
> {
    match r {
        Ok(vs) => Ok(done + vs),
        Err(e) => Err(e),
    }
}

proof fn lemma_entries_step(elems: Seq<Seq<u8>>, i: int)
    requires
        0 <= i < elems.len(),
    ensures
        conflict_entries_spec(elems.skip(i)) == match conflict_entry_spec(elems[i]) {
            Err(e) => Err(e),
            Ok(v) => match conflict_entries_spec(elems.skip(i + 1)) {
                Err(e) => Err(e),
                Ok(vs) => Ok(seq![v] + vs),
            },
        },
{
    reveal(conflict_entries_spec);
    let t = elems.skip(i);
    assert(t[0] == elems[i]);
    assert(t.drop_first() =~= elems.skip(i + 1));
}

fn decode_entries(elements: &Vec<Vec<u8>>) -> (r: Result<Vec<ConflictEntry>, MergeError>)
    ensures
        r is Ok ==> r->Ok_0@.len() == elements@.len(),
        match conflict_entries_spec(elements.deep_view()) {
            Ok(vs) => r is Ok && entry_views(r->Ok_0@) == vs,
            Err(e) => r == Err::<Vec<ConflictEntry>, MergeError>(e),
        },
{
    let ghost elems = elements.deep_view();
    let mut out: Vec<ConflictEntry> = Vec::new();
    let mut i: usize = 0;
    proof {
        assert(elems.skip(0) =~= elems);
        assert(entry_views(out@) =~= Seq::<EntryView>::empty());
        assert(prepend_entries(Seq::empty(), conflict_entries_spec(elems)) =~= conflict_entries_spec(
            elems,
        ));
    }
    while i < elements.len()
        invariant
            i <= elements.len(),
            out@.len() == i,
            elems == elements.deep_view(),
            conflict_entries_spec(elems) == prepend_entries(
                entry_views(out@),
                conflict_entries_spec(elems.skip(i as int)),
            ),
        decreases elements.len() - i,
    {
        proof {
            lemma_entries_step(elems, i as int);
            assert(elems[i as int] == elements@[i as int]@);
        }
        let entry = match decode_conflict_entry(elements[i].as_slice()) {
            Ok(e) => e,
            Err(e) => {
                return Err(e);
            },
        };
        let ghost before = entry_views(out@);
        out.push(entry);
        proof {
            assert(entry_views(out@) =~= before.push(entry_view(entry)));
            if let Ok(vs) = conflict_entries_spec(elems.skip(i + 1)) {
                assert(before + (seq![entry_view(entry)] + vs) =~= before.push(entry_view(entry))
                    + vs);
            }
        }
        i = i + 1;
    }
    proof {
        assert(elems.skip(i as int) =~= Seq::<Seq<u8>>::empty());
        reveal(conflict_entries_spec);
        assert(entry_views(out@) + Seq::<EntryView>::empty() =~= entry_views(out@));
    }
    Ok(out)
}

fn read_header_ids(record: &mut RecordReader) -> (r: Result<Vec<[u8; 32]>, MergeError>)
    requires
        old(record).wf(),
    ensures
        final(record).wf(),
        r is Ok ==> r->Ok_0@.len() == 6,
        match header_ids_spec(old(record).cursor(), 2, 6) {
            Ok((ids, c)) => r is Ok && digests_view(r->Ok_0@) == ids && final(record).cursor() == c,
            Err(e) => r == Err::<Vec<[u8; 32]>, MergeError>(e),
        },
{
    let ghost c1 = record.cursor();
    let mut ids: Vec<[u8; 32]> = Vec::new();
    let mut k: u64 = 0;
    proof {
        assert(digests_view(ids@) =~= Seq::<Seq<u8>>::empty());
        if let Ok((xs, c)) = header_ids_spec(c1, 2, 6) {
            assert(Seq::<Seq<u8>>::empty() + xs =~= xs);
        }
    }
    while k < 6
        invariant
            k <= 6,
            ids@.len() == k,
            record.wf(),
            c1 == old(record).cursor(),
            header_ids_spec(c1, 2, 6) == prepend_ids(
                digests_view(ids@),
                header_ids_spec(record.cursor(), (2 + k) as u64, (6 - k) as nat),
            ),
        decreases 6 - k,
    {
        let ghost before = digests_view(ids@);
        let value = lift(record.required(2 + k))?;
        let id = fixed32(value.as_slice())?;
        ids.push(id);
        proof {
            assert(digests_view(ids@) =~= before.push(id@));
            if let Ok((rest, c3)) = header_ids_spec(record.cursor(), (3 + k) as u64, (5 - k) as nat) {
                assert(before + (seq![id@] + rest) =~= before.push(id@) + rest);
            }
        }
        k = k + 1;
    }
    proof {
        assert(digests_view(ids@) + Seq::<Seq<u8>>::empty() =~= digests_view(ids@));
    }
    Ok(ids)
}

/// Decodes and checks a conflict payload.
#[verifier::rlimit(60)]
pub fn decode_conflict_body(payload: &[u8]) -> (r: Result<MergeConflict, MergeError>)
    ensures
        match conflict_body_spec(payload@) {
            Ok((ids, entries)) => r is Ok && r->Ok_0.ids() == ids && entry_views(
                r->Ok_0.conflicts@,
            ) == entries,
            Err(e) => r == Err::<MergeConflict, MergeError>(e),
        },
{
    let mut record = lift(RecordReader::new(payload))?;
    let version = match read_single_uvar(lift(record.required(1))?.as_slice()) {
        Ok(v) => v,
        Err(e) => {
            return Err(MergeError::from_pack(e));
        },
    };
    if version != CONFLICT_FORMAT_VERSION {
        return Err(MergeError::Merge(MergeErrorCode::ConflictVersionUnsupported));
    }
    let ghost c1 = record.cursor();
    assert(conflict_body_spec(payload@) == body_after_ids(payload@, header_ids_spec(c1, 2, 6)));
    reveal(body_after_ids);
    let ids = read_header_ids(&mut record)?;
    let list = lift(record.required(8))?;
    let elements = lift(decode_list(list.as_slice(), MAX_CONFLICT_ENTRIES))?;
    let conflicts = decode_entries(&elements)?;
    lift(record.finish())?;
    if conflicts.len() == 0 {
        return Err(MergeError::Merge(MergeErrorCode::ConflictFormatInvalid));
    }
    require_sorted(&conflicts)?;
    let conflict = MergeConflict {
        workspace_id: ids[0],
        ancestor_root: ids[1],
        ours_root: ids[2],
        theirs_root: ids[3],
        ours_delta: ids[4],
        theirs_delta: ids[5],
        conflicts,
    };
    assert(conflict.ids() =~= digests_view(ids@));
    let reencoded = encode_conflict_payload(&conflict)?;
    if !bytes_equal(reencoded.as_slice(), payload) {
        return Err(MergeError::Merge(MergeErrorCode::ConflictCanonicalOrder));
    }
    Ok(conflict)
}

/// Decodes and checks stored conflict bytes under the conflict schema epoch
/// `epoch_id`, where `derived_id` is the identity derived from every byte
/// before the 32-byte trailer.
pub fn decode_merge_conflict(input: &[u8], epoch_id: &[u8; 32], derived_id: &[u8; 32]) -> (r:
    Result<MergeConflict, MergeError>)
    ensures
        match conflict_envelope_spec(input@, epoch_id@, derived_id@) {
            Err(e) => r == Err::<MergeConflict, MergeError>(e),
            Ok(p) => match conflict_body_spec(p) {
                Ok((ids, entries)) => r is Ok && r->Ok_0.ids() == ids && entry_views(
                    r->Ok_0.conflicts@,
                ) == entries,
                Err(e) => r == Err::<MergeConflict, MergeError>(e),
            },
        },
{
    let payload = decode_conflict_envelope(input, epoch_id, derived_id)?;
    decode_conflict_body(payload.as_slice())
}

} // verus!
