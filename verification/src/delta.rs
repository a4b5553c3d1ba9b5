//! The canonical stored form of a semantic delta between two complete
//! roots: its entries, their canonical order, and the byte codec.

use vstd::prelude::*;

use crate::bytes::{append_bytes, compare_bytes, lex, ByteOrder};
use crate::compare::{ChangeClass, CompareError, CompareErrorCode, RelationChange};
pub use crate::compare::{
    MAX_BODY_DELTAS, MAX_DELTA_BYTES, MAX_ENTITY_DELTAS, MAX_FIELD_DELTAS, MAX_IDENTITY_SET,
    MAX_RELATION_DELTAS,
};
use crate::merge_conflict::{copy32, magic_bytes, object_bytes, object_field, object_view, push_field};
use crate::pack_envelope::magic;
use crate::scb::{enc_list, enc_record, encode_list, encode_record, encode_uvar, uvar_bytes};

verus! {

/// Wire format version of a stored delta.
pub const DELTA_FORMAT_VERSION: u64 = 1;
/// Contract tag of a stored delta.
pub const DELTA_CONTRACT_TAG: u64 = 510;

/// Section 1 entry: one bound identity whose binding changed.
#[derive(Clone, Copy, Debug, PartialEq, Eq)]
pub struct EntityDelta {
    /// Stable identity.
    pub entity_id: [u8; 32],
    /// Change class.
    pub change: ChangeClass,
    /// Base kind tag, zero when absent.
    pub base_kind: u32,
    /// Target kind tag, zero when absent.
    pub target_kind: u32,
    /// Base canonical object.
    pub base_object: Option<[u8; 32]>,
    /// Target canonical object.
    pub target_object: Option<[u8; 32]>,
}

/// Section 2 entry: one changed field of one entity.
#[derive(Clone, Debug, PartialEq, Eq)]
pub struct FieldDelta {
    /// Owning entity.
    pub entity_id: [u8; 32],
    /// Kind tag.
    pub kind: u32,
    /// Field number.
    pub field: u32,
    /// Change flags.
    pub flags: u32,
    /// Identities only in the target.
    pub added: Vec<[u8; 32]>,
    /// Identities only in the base.
    pub removed: Vec<[u8; 32]>,
}

/// Section 3 entry: one function body that changed.
#[derive(Clone, Copy, Debug, PartialEq, Eq)]
pub struct BodyDelta {
    /// Function identity.
    pub entity_id: [u8; 32],
    /// Base fingerprint.
    pub base_fingerprint: [u8; 32],
    /// Target fingerprint.
    pub target_fingerprint: [u8; 32],
    /// Base owned block count.
    pub base_blocks: u32,
    /// Target owned block count.
    pub target_blocks: u32,
    /// Base owned operation count.
    pub base_operations: u32,
    /// Target owned operation count.
    pub target_operations: u32,
}

/// Section 4 entry: one relation present in only one of the two indexes.
#[derive(Clone, Copy, Debug, PartialEq, Eq)]
pub struct RelationDelta {
    /// Referring entity.
    pub dependent: [u8; 32],
    /// Referenced entity.
    pub dependency: [u8; 32],
    /// Frozen edge-kind tag.
    pub kind: u32,
    /// Direction.
    pub change: RelationChange,
}

/// An entity entry as values.
pub type EntityView = (Seq<u8>, ChangeClass, u32, u32, Option<Seq<u8>>, Option<Seq<u8>>);

/// A field entry as values.
pub type FieldView = (Seq<u8>, u32, u32, u32, Seq<Seq<u8>>, Seq<Seq<u8>>);

/// A body entry as values.
pub type BodyView = (Seq<u8>, Seq<u8>, Seq<u8>, u32, u32, u32, u32);

/// A relation entry as values.
pub type RelationView = (Seq<u8>, Seq<u8>, u32, RelationChange);

impl View for EntityDelta {
    type V = EntityView;

    open spec fn view(&self) -> EntityView {
        (
            self.entity_id@,
            self.change,
            self.base_kind,
            self.target_kind,
            object_view(self.base_object),
            object_view(self.target_object),
        )
    }
}

impl View for FieldDelta {
    type V = FieldView;

    open spec fn view(&self) -> FieldView {
        (self.entity_id@, self.kind, self.field, self.flags, views(self.added@), views(self.removed@))
    }
}

impl View for BodyDelta {
    type V = BodyView;

    open spec fn view(&self) -> BodyView {
        (
            self.entity_id@,
            self.base_fingerprint@,
            self.target_fingerprint@,
            self.base_blocks,
            self.target_blocks,
            self.base_operations,
            self.target_operations,
        )
    }
}

impl View for RelationDelta {
    type V = RelationView;

    open spec fn view(&self) -> RelationView {
        (self.dependent@, self.dependency@, self.kind, self.change)
    }
}

/// Order of two numbers.
pub open spec fn num_order(a: u32, b: u32) -> ByteOrder {
    if a < b {
        ByteOrder::Less
    } else if a == b {
        ByteOrder::Equal
    } else {
        ByteOrder::Greater
    }
}

/// Lexicographic combination: the first order unless it is `Equal`.
pub open spec fn then_order(first: ByteOrder, second: ByteOrder) -> ByteOrder {
    if first == ByteOrder::Equal {
        second
    } else {
        first
    }
}

pub(crate) fn num_compare(a: u32, b: u32) -> (r: ByteOrder)
    ensures
        r == num_order(a, b),
{
    if a < b {
        ByteOrder::Less
    } else if a == b {
        ByteOrder::Equal
    } else {
        ByteOrder::Greater
    }
}

/// An entry of a stored delta: kept in canonical order by a key and stored
/// as one list element.
pub trait Keyed: View + Sized {
    /// Order of two entries by their keys.
    spec fn key_order(a: Self::V, b: Self::V) -> ByteOrder;

    /// The stored list element of an entry.
    spec fn element(v: Self::V) -> Seq<u8>;

    /// Compares the keys of two entries.
    fn key_compare(&self, other: &Self) -> (r: ByteOrder)
        ensures
            r == Self::key_order(self@, other@);

    /// Encodes the entry as its list element.
    fn encode_element(&self) -> (r: Vec<u8>)
        ensures
            r@ == Self::element(self@);
}

/// The record fields of a stored entity entry.
pub open spec fn entity_fields(e: EntityView) -> Seq<(u64, Seq<u8>)> {
    seq![
        (1u64, e.0),
        (2u64, uvar_bytes(e.1.tag_spec() as nat)),
        (3u64, uvar_bytes(e.2 as nat)),
        (4u64, uvar_bytes(e.3 as nat)),
        (5u64, object_field(e.4)),
        (6u64, object_field(e.5)),
    ]
}

/// The record fields of a stored field entry.
pub open spec fn field_fields(f: FieldView) -> Seq<(u64, Seq<u8>)> {
    seq![
        (1u64, f.0),
        (2u64, uvar_bytes(f.1 as nat)),
        (3u64, uvar_bytes(f.2 as nat)),
        (4u64, uvar_bytes(f.3 as nat)),
        (5u64, enc_list(f.4)),
        (6u64, enc_list(f.5)),
    ]
}

/// The record fields of a stored body entry.
pub open spec fn body_fields(b: BodyView) -> Seq<(u64, Seq<u8>)> {
    seq![
        (1u64, b.0),
        (2u64, b.1),
        (3u64, b.2),
        (4u64, uvar_bytes(b.3 as nat)),
        (5u64, uvar_bytes(b.4 as nat)),
        (6u64, uvar_bytes(b.5 as nat)),
        (7u64, uvar_bytes(b.6 as nat)),
    ]
}

/// The record fields of a stored relation entry.
pub open spec fn relation_fields(r: RelationView) -> Seq<(u64, Seq<u8>)> {
    seq![
        (1u64, r.0),
        (2u64, r.1),
        (3u64, uvar_bytes(r.2 as nat)),
        (4u64, uvar_bytes(r.3.tag_spec() as nat)),
    ]
}

impl Keyed for [u8; 32] {
    open spec fn key_order(a: Seq<u8>, b: Seq<u8>) -> ByteOrder {
        lex(a, b)
    }

    open spec fn element(v: Seq<u8>) -> Seq<u8> {
        v
    }

    fn key_compare(&self, other: &Self) -> (r: ByteOrder) {
        compare_bytes(self.as_slice(), other.as_slice())
    }

    fn encode_element(&self) -> (r: Vec<u8>) {
        copy32(self)
    }
}

impl Keyed for EntityDelta {
    /// Entities order by identity.
    open spec fn key_order(a: EntityView, b: EntityView) -> ByteOrder {
        lex(a.0, b.0)
    }

    open spec fn element(v: EntityView) -> Seq<u8> {
        enc_record(entity_fields(v))
    }

    fn encode_element(&self) -> (r: Vec<u8>) {
        let mut fields: Vec<(u64, Vec<u8>)> = Vec::new();
        assert(fields.deep_view() =~= Seq::<(u64, Seq<u8>)>::empty());
        push_field(&mut fields, 1, copy32(&self.entity_id));
        push_field(&mut fields, 2, encode_uvar(self.change.tag() as u64));
        push_field(&mut fields, 3, encode_uvar(self.base_kind as u64));
        push_field(&mut fields, 4, encode_uvar(self.target_kind as u64));
        push_field(&mut fields, 5, object_bytes(self.base_object));
        push_field(&mut fields, 6, object_bytes(self.target_object));
        assert(fields.deep_view() =~= entity_fields(self@));
        encode_record(&fields)
    }

    fn key_compare(&self, other: &Self) -> (r: ByteOrder) {
        compare_bytes(self.entity_id.as_slice(), other.entity_id.as_slice())
    }
}

impl Keyed for FieldDelta {
    /// Fields order by (identity, kind, field).
    open spec fn key_order(a: FieldView, b: FieldView) -> ByteOrder {
        then_order(lex(a.0, b.0), then_order(num_order(a.1, b.1), num_order(a.2, b.2)))
    }

    open spec fn element(v: FieldView) -> Seq<u8> {
        enc_record(field_fields(v))
    }

    fn encode_element(&self) -> (r: Vec<u8>) {
        let added = encode_list(&encode_elements(&self.added));
        let removed = encode_list(&encode_elements(&self.removed));
        proof {
            lemma_raw_elements(views(self.added@));
            lemma_raw_elements(views(self.removed@));
        }
        let mut fields: Vec<(u64, Vec<u8>)> = Vec::new();
        assert(fields.deep_view() =~= Seq::<(u64, Seq<u8>)>::empty());
        push_field(&mut fields, 1, copy32(&self.entity_id));
        push_field(&mut fields, 2, encode_uvar(self.kind as u64));
        push_field(&mut fields, 3, encode_uvar(self.field as u64));
        push_field(&mut fields, 4, encode_uvar(self.flags as u64));
        push_field(&mut fields, 5, added);
        push_field(&mut fields, 6, removed);
        assert(fields.deep_view() =~= field_fields(self@));
        encode_record(&fields)
    }

    fn key_compare(&self, other: &Self) -> (r: ByteOrder) {
        let first = compare_bytes(self.entity_id.as_slice(), other.entity_id.as_slice());
        if first != ByteOrder::Equal {
            return first;
        }
        let second = num_compare(self.kind, other.kind);
        if second != ByteOrder::Equal {
            return second;
        }
        num_compare(self.field, other.field)
    }
}

impl Keyed for BodyDelta {
    /// Bodies order by identity.
    open spec fn key_order(a: BodyView, b: BodyView) -> ByteOrder {
        lex(a.0, b.0)
    }

    open spec fn element(v: BodyView) -> Seq<u8> {
        enc_record(body_fields(v))
    }

    fn encode_element(&self) -> (r: Vec<u8>) {
        let mut fields: Vec<(u64, Vec<u8>)> = Vec::new();
        assert(fields.deep_view() =~= Seq::<(u64, Seq<u8>)>::empty());
        push_field(&mut fields, 1, copy32(&self.entity_id));
        push_field(&mut fields, 2, copy32(&self.base_fingerprint));
        push_field(&mut fields, 3, copy32(&self.target_fingerprint));
        push_field(&mut fields, 4, encode_uvar(self.base_blocks as u64));
        push_field(&mut fields, 5, encode_uvar(self.target_blocks as u64));
        push_field(&mut fields, 6, encode_uvar(self.base_operations as u64));
        push_field(&mut fields, 7, encode_uvar(self.target_operations as u64));
        assert(fields.deep_view() =~= body_fields(self@));
        encode_record(&fields)
    }

    fn key_compare(&self, other: &Self) -> (r: ByteOrder) {
        compare_bytes(self.entity_id.as_slice(), other.entity_id.as_slice())
    }
}

impl Keyed for RelationDelta {
    /// Relations order by (dependent, dependency, kind).
    open spec fn key_order(a: RelationView, b: RelationView) -> ByteOrder {
        then_order(lex(a.0, b.0), then_order(lex(a.1, b.1), num_order(a.2, b.2)))
    }

    open spec fn element(v: RelationView) -> Seq<u8> {
        enc_record(relation_fields(v))
    }

    fn encode_element(&self) -> (r: Vec<u8>) {
        let mut fields: Vec<(u64, Vec<u8>)> = Vec::new();
        assert(fields.deep_view() =~= Seq::<(u64, Seq<u8>)>::empty());
        push_field(&mut fields, 1, copy32(&self.dependent));
        push_field(&mut fields, 2, copy32(&self.dependency));
        push_field(&mut fields, 3, encode_uvar(self.kind as u64));
        push_field(&mut fields, 4, encode_uvar(self.change.tag() as u64));
        assert(fields.deep_view() =~= relation_fields(self@));
        encode_record(&fields)
    }

    fn key_compare(&self, other: &Self) -> (r: ByteOrder) {
        let first = compare_bytes(self.dependent.as_slice(), other.dependent.as_slice());
        if first != ByteOrder::Equal {
            return first;
        }
        let second = compare_bytes(self.dependency.as_slice(), other.dependency.as_slice());
        if second != ByteOrder::Equal {
            return second;
        }
        num_compare(self.kind, other.kind)
    }
}

/// The values of a list of entries.
pub open spec fn views<K: Keyed>(s: Seq<K>) -> Seq<K::V> {
    s.map_values(|x: K| x@)
}

/// The first break of strict ascent from position `i` on: two equal
/// neighbouring keys are a duplicate, a descending pair is out of order.
pub open spec fn disorder_from<K: Keyed>(s: Seq<K::V>, i: int) -> Option<CompareErrorCode>
    decreases s.len() - i,
{
    if i < 0 || i + 1 >= s.len() {
        None
    } else {
        match K::key_order(s[i], s[i + 1]) {
            ByteOrder::Less => disorder_from::<K>(s, i + 1),
            ByteOrder::Equal => Some(CompareErrorCode::DuplicateEntry),
            ByteOrder::Greater => Some(CompareErrorCode::CanonicalOrder),
        }
    }
}

/// The first break of strict ascent in `s`, if any.
pub open spec fn disorder<K: Keyed>(s: Seq<K::V>) -> Option<CompareErrorCode> {
    disorder_from::<K>(s, 0)
}

/// Checks that the entries strictly ascend by key; the first break decides
/// the failure.
pub fn require_sorted<K: Keyed>(items: &Vec<K>) -> (r: Result<(), CompareError>)
    ensures
        match disorder::<K>(views(items@)) {
            None => r is Ok,
            Some(c) => r == Err::<(), CompareError>(CompareError::Compare(c)),
        },
{
    let ghost s = views(items@);
    let mut i: usize = 0;
    while items.len() - i > 1
        invariant
            i <= items@.len(),
            s == views(items@),
            disorder::<K>(s) == disorder_from::<K>(s, i as int),
        decreases items.len() - i,
    {
        let order = items[i].key_compare(&items[i + 1]);
        assert(s[i as int] == items@[i as int]@);
        assert(s[i + 1] == items@[i + 1]@);
        match order {
            ByteOrder::Less => {},
            ByteOrder::Equal => {
                return Err(CompareError::Compare(CompareErrorCode::DuplicateEntry));
            },
            ByteOrder::Greater => {
                return Err(CompareError::Compare(CompareErrorCode::CanonicalOrder));
            },
        }
        i = i + 1;
    }
    Ok(())
}

/// The stored list elements of a list of entries.
pub open spec fn elements<K: Keyed>(s: Seq<K::V>) -> Seq<Seq<u8>> {
    s.map_values(|v: K::V| K::element(v))
}

/// Identity elements are stored as the identities themselves.
pub proof fn lemma_raw_elements(s: Seq<Seq<u8>>)
    ensures
        elements::<[u8; 32]>(s) == s,
{
    assert(elements::<[u8; 32]>(s) =~= s);
}

/// Encodes each entry as its list element, in order.
pub fn encode_elements<K: Keyed>(items: &Vec<K>) -> (r: Vec<Vec<u8>>)
    ensures
        r.deep_view() == elements::<K>(views(items@)),
{
    let ghost target = elements::<K>(views(items@));
    let mut out: Vec<Vec<u8>> = Vec::new();
    let mut i: usize = 0;
    assert(out.deep_view() =~= target.take(0));
    while i < items.len()
        invariant
            i <= items@.len(),
            target == elements::<K>(views(items@)),
            out.deep_view() == target.take(i as int),
        decreases items.len() - i,
    {
        let element = items[i].encode_element();
        let ghost before = out.deep_view();
        let ghost v = element@;
        assert(element.deep_view() =~= v);
        out.push(element);
        proof {
            assert(out.deep_view() =~= before.push(v));
            assert(target.take(i + 1) =~= target.take(i as int).push(target[i as int]));
        }
        i = i + 1;
    }
    assert(target.take(i as int) =~= target);
    out
}

/// A complete typed delta between two complete roots.
#[derive(Clone, Debug, PartialEq, Eq)]
pub struct SemanticDelta {
    /// Shared workspace.
    pub workspace_id: [u8; 32],
    /// Shared schema epoch of both roots.
    pub root_schema_epoch: [u8; 32],
    /// Base root.
    pub base_root: [u8; 32],
    /// Target root.
    pub target_root: [u8; 32],
    /// Section 1.
    pub entities: Vec<EntityDelta>,
    /// Section 2.
    pub fields: Vec<FieldDelta>,
    /// Section 3.
    pub bodies: Vec<BodyDelta>,
    /// Section 4.
    pub relations: Vec<RelationDelta>,
    /// Section 5: dependency roots only in the target.
    pub dependency_roots_added: Vec<[u8; 32]>,
    /// Section 5: dependency roots only in the base.
    pub dependency_roots_removed: Vec<[u8; 32]>,
    /// Section 5: entry points only in the target.
    pub entry_points_added: Vec<[u8; 32]>,
    /// Section 5: entry points only in the base.
    pub entry_points_removed: Vec<[u8; 32]>,
    /// Section 5: unchanged entities that transitively depend on a change.
    pub collateral: Vec<[u8; 32]>,
}

/// A delta as values: the four header identities (workspace, schema epoch,
/// base root, target root), the four entry sections, and the five identity
/// sets of section 5.
pub type DeltaView = (
    Seq<Seq<u8>>,
    Seq<EntityView>,
    Seq<FieldView>,
    Seq<BodyView>,
    Seq<RelationView>,
    Seq<Seq<Seq<u8>>>,
);

impl View for SemanticDelta {
    type V = DeltaView;

    open spec fn view(&self) -> DeltaView {
        (
            seq![self.workspace_id@, self.root_schema_epoch@, self.base_root@, self.target_root@],
            views(self.entities@),
            views(self.fields@),
            views(self.bodies@),
            views(self.relations@),
            seq![
                views(self.dependency_roots_added@),
                views(self.dependency_roots_removed@),
                views(self.entry_points_added@),
                views(self.entry_points_removed@),
                views(self.collateral@),
            ],
        )
    }
}

impl SemanticDelta {
    /// Returns whether the two roots compared equal: every section empty.
    pub fn is_empty(&self) -> (r: bool)
        ensures
            r == (self.entities@.len() == 0 && self.fields@.len() == 0 && self.bodies@.len() == 0
                && self.relations@.len() == 0 && self.dependency_roots_added@.len() == 0
                && self.dependency_roots_removed@.len() == 0 && self.entry_points_added@.len() == 0
                && self.entry_points_removed@.len() == 0 && self.collateral@.len() == 0),
    {
        self.entities.len() == 0 && self.fields.len() == 0 && self.bodies.len() == 0
            && self.relations.len() == 0 && self.dependency_roots_added.len() == 0
            && self.dependency_roots_removed.len() == 0 && self.entry_points_added.len() == 0
            && self.entry_points_removed.len() == 0 && self.collateral.len() == 0
    }
}

/// The first failure of two checks made in turn.
pub open spec fn or_else(first: Option<CompareErrorCode>, second: Option<CompareErrorCode>) -> Option<
    CompareErrorCode,
> {
    if first is Some {
        first
    } else {
        second
    }
}

/// The first break of order inside the identity sets of field entries,
/// from entry `i` on: each entry's added set, then its removed set.
pub open spec fn field_sets_fault_from(fs: Seq<FieldView>, i: int) -> Option<CompareErrorCode>
    decreases fs.len() - i,
{
    if i < 0 || i >= fs.len() {
        None
    } else {
        or_else(
            disorder::<[u8; 32]>(fs[i].4),
            or_else(disorder::<[u8; 32]>(fs[i].5), field_sets_fault_from(fs, i + 1)),
        )
    }
}

/// The failure encoding a delta meets, if any: the sections and identity
/// sets must strictly ascend, checked in section order, then the identity
/// sets inside field entries.
pub open spec fn encode_fault(d: DeltaView) -> Option<CompareErrorCode> {
    or_else(
        disorder::<EntityDelta>(d.1),
        or_else(
            disorder::<FieldDelta>(d.2),
            or_else(
                disorder::<BodyDelta>(d.3),
                or_else(
                    disorder::<RelationDelta>(d.4),
                    or_else(
                        disorder::<[u8; 32]>(d.5[0]),
                        or_else(
                            disorder::<[u8; 32]>(d.5[1]),
                            or_else(
                                disorder::<[u8; 32]>(d.5[2]),
                                or_else(
                                    disorder::<[u8; 32]>(d.5[3]),
                                    or_else(disorder::<[u8; 32]>(d.5[4]), field_sets_fault_from(d.2, 0)),
                                ),
                            ),
                        ),
                    ),
                ),
            ),
        ),
    )
}

/// The record fields of a stored delta payload.
pub open spec fn payload_fields(d: DeltaView) -> Seq<(u64, Seq<u8>)> {
    seq![
        (1u64, uvar_bytes(DELTA_FORMAT_VERSION as nat)),
        (2u64, d.0[0]),
        (3u64, d.0[1]),
        (4u64, d.0[2]),
        (5u64, d.0[3]),
        (6u64, enc_list(elements::<EntityDelta>(d.1))),
        (7u64, enc_list(elements::<FieldDelta>(d.2))),
        (8u64, enc_list(elements::<BodyDelta>(d.3))),
        (9u64, enc_list(elements::<RelationDelta>(d.4))),
        (10u64, enc_list(d.5[0])),
        (11u64, enc_list(d.5[1])),
        (12u64, enc_list(d.5[2])),
        (13u64, enc_list(d.5[3])),
        (14u64, enc_list(d.5[4])),
    ]
}

/// The stored payload of a delta.
pub open spec fn delta_payload_spec(d: DeltaView) -> Seq<u8> {
    enc_record(payload_fields(d))
}

fn require_field_sets(fields: &Vec<FieldDelta>) -> (r: Result<(), CompareError>)
    ensures
        match field_sets_fault_from(views(fields@), 0) {
            None => r is Ok,
            Some(c) => r == Err::<(), CompareError>(CompareError::Compare(c)),
        },
{
    let ghost fs = views(fields@);
    let mut i: usize = 0;
    while i < fields.len()
        invariant
            i <= fields@.len(),
            fs == views(fields@),
            field_sets_fault_from(fs, 0) == field_sets_fault_from(fs, i as int),
        decreases fields.len() - i,
    {
        assert(fs[i as int] == fields@[i as int]@);
        require_sorted(&fields[i].added)?;
        require_sorted(&fields[i].removed)?;
        i = i + 1;
    }
    Ok(())
}

fn encode_section<K: Keyed>(items: &Vec<K>) -> (r: Vec<u8>)
    ensures
        r@ == enc_list(elements::<K>(views(items@))),
{
    encode_list(&encode_elements(items))
}

fn encode_ids(ids: &Vec<[u8; 32]>) -> (r: Vec<u8>)
    ensures
        r@ == enc_list(views(ids@)),
{
    proof {
        lemma_raw_elements(views(ids@));
    }
    encode_section(ids)
}

/// Encodes the payload of a delta, refusing one whose sections or identity
/// sets do not strictly ascend.
pub fn encode_delta_payload(delta: &SemanticDelta) -> (r: Result<Vec<u8>, CompareError>)
    ensures
        match encode_fault(delta@) {
            Some(c) => r == Err::<Vec<u8>, CompareError>(CompareError::Compare(c)),
            None => r is Ok && r->Ok_0@ == delta_payload_spec(delta@),
        },
{
    require_sorted(&delta.entities)?;
    require_sorted(&delta.fields)?;
    require_sorted(&delta.bodies)?;
    require_sorted(&delta.relations)?;
    require_sorted(&delta.dependency_roots_added)?;
    require_sorted(&delta.dependency_roots_removed)?;
    require_sorted(&delta.entry_points_added)?;
    require_sorted(&delta.entry_points_removed)?;
    require_sorted(&delta.collateral)?;
    require_field_sets(&delta.fields)?;
    let mut fields: Vec<(u64, Vec<u8>)> = Vec::new();
    assert(fields.deep_view() =~= Seq::<(u64, Seq<u8>)>::empty());
    push_field(&mut fields, 1, encode_uvar(DELTA_FORMAT_VERSION));
    push_field(&mut fields, 2, copy32(&delta.workspace_id));
    push_field(&mut fields, 3, copy32(&delta.root_schema_epoch));
    push_field(&mut fields, 4, copy32(&delta.base_root));
    push_field(&mut fields, 5, copy32(&delta.target_root));
    push_field(&mut fields, 6, encode_section(&delta.entities));
    push_field(&mut fields, 7, encode_section(&delta.fields));
    push_field(&mut fields, 8, encode_section(&delta.bodies));
    push_field(&mut fields, 9, encode_section(&delta.relations));
    push_field(&mut fields, 10, encode_ids(&delta.dependency_roots_added));
    push_field(&mut fields, 11, encode_ids(&delta.dependency_roots_removed));
    push_field(&mut fields, 12, encode_ids(&delta.entry_points_added));
    push_field(&mut fields, 13, encode_ids(&delta.entry_points_removed));
    push_field(&mut fields, 14, encode_ids(&delta.collateral));
    assert(fields.deep_view() =~= payload_fields(delta@));
    Ok(encode_record(&fields))
}

/// The bytes a delta identity is derived from.
pub open spec fn delta_preimage_spec(epoch: Seq<u8>, payload: Seq<u8>) -> Seq<u8> {
    magic() + uvar_bytes(DELTA_FORMAT_VERSION as nat) + uvar_bytes(DELTA_CONTRACT_TAG as nat) + epoch
        + uvar_bytes(payload.len()) + payload
}

/// Builds the preimage of a delta under the delta schema epoch, refusing
/// one whose sealed form would pass `MAX_DELTA_BYTES`.
pub fn encode_delta_preimage(epoch_id: &[u8; 32], payload: &[u8]) -> (r: Result<Vec<u8>, CompareError>)
    ensures
        delta_preimage_spec(epoch_id@, payload@).len() + 32 <= MAX_DELTA_BYTES ==> r is Ok
            && r->Ok_0@ == delta_preimage_spec(epoch_id@, payload@),
        delta_preimage_spec(epoch_id@, payload@).len() + 32 > MAX_DELTA_BYTES ==> r
            == Err::<Vec<u8>, CompareError>(CompareError::Compare(CompareErrorCode::ResourceLimit)),
{
    let mut out: Vec<u8> = Vec::new();
    append_bytes(&mut out, magic_bytes());
    let version = encode_uvar(DELTA_FORMAT_VERSION);
    append_bytes(&mut out, version.as_slice());
    let tag = encode_uvar(DELTA_CONTRACT_TAG);
    append_bytes(&mut out, tag.as_slice());
    append_bytes(&mut out, epoch_id.as_slice());
    let len = encode_uvar(payload.len() as u64);
    append_bytes(&mut out, len.as_slice());
    if payload.len() > MAX_DELTA_BYTES - 32 || out.len() > MAX_DELTA_BYTES - 32 - payload.len() {
        return Err(CompareError::Compare(CompareErrorCode::ResourceLimit));
    }
    append_bytes(&mut out, payload);
    assert(out@ =~= delta_preimage_spec(epoch_id@, payload@));
    Ok(out)
}

/// Encodes a delta into the canonical bytes its identity is derived from,
/// under the delta schema epoch `epoch_id`; the stored form appends that
/// identity.
pub fn encode_semantic_delta(delta: &SemanticDelta, epoch_id: &[u8; 32]) -> (r: Result<
    Vec<u8>,
    CompareError,
>)
    ensures
        match encode_fault(delta@) {
            Some(c) => r == Err::<Vec<u8>, CompareError>(CompareError::Compare(c)),
            None => {
                let pre = delta_preimage_spec(epoch_id@, delta_payload_spec(delta@));
                &&& pre.len() + 32 <= MAX_DELTA_BYTES ==> r is Ok && r->Ok_0@ == pre
                &&& pre.len() + 32 > MAX_DELTA_BYTES ==> r == Err::<Vec<u8>, CompareError>(
                    CompareError::Compare(CompareErrorCode::ResourceLimit),
                )
            },
        },
{
    let payload = encode_delta_payload(delta)?;
    encode_delta_preimage(epoch_id, payload.as_slice())
}

} // verus!
