//! The field section of a comparison: for one entity bound by both roots
//! with the same kind and different bodies, one entry per field that
//! changed.
//!
//! An entity is held as the values its kind's fields are compared by, in
//! field-number order: a scalar as the canonical bytes of its value, an
//! identity list, a function's parameter list with the value type of each
//! parameter, or a type definition's form.

use vstd::prelude::*;

use crate::bytes::bytes_equal;
use crate::compare::{CompareError, CompareErrorCode, MAX_COMPARE_WORK};
use crate::compare_roots::{difference, set_difference, Work};
use crate::delta::{FieldDelta, FieldView};
use crate::digest::{digests_equal, digests_view};
use crate::merge_conflict::object_view;

verus! {

/// One member of a type definition's form: its identity, what a shared
/// member is compared by (a record field's value type and visibility, a
/// variant case's payload type), and the rest of the member.
#[derive(Clone, Debug, PartialEq, Eq)]
pub struct FormMember {
    /// Member identity.
    pub member_id: [u8; 32],
    /// Canonical bytes of what a shared member is compared by.
    pub shape: Vec<u8>,
    /// Canonical bytes of the rest of the member.
    pub rest: Vec<u8>,
}

/// A member as values: identity, compared part, rest.
pub type MemberView = (Seq<u8>, Seq<u8>, Seq<u8>);

impl View for FormMember {
    type V = MemberView;

    open spec fn view(&self) -> MemberView {
        (self.member_id@, self.shape@, self.rest@)
    }
}

/// A type definition's form: a record of fields or a variant of cases.
#[derive(Clone, Debug, PartialEq, Eq)]
pub struct TypeForm {
    /// A variant rather than a record.
    pub variant: bool,
    /// Members in declaration order.
    pub members: Vec<FormMember>,
}

/// The views of a list of members.
pub open spec fn member_views(ms: Seq<FormMember>) -> Seq<MemberView> {
    ms.map_values(|m: FormMember| m@)
}

/// One compared field of an entity.
#[derive(Clone, Debug, PartialEq, Eq)]
pub enum FieldValue {
    /// A scalar, as the canonical bytes of its value.
    Scalar(Vec<u8>),
    /// An identity list.
    Identities(Vec<[u8; 32]>),
    /// A function's parameters, each with the canonical bytes of its value
    /// type where the root holds that parameter.
    Parameters(Vec<[u8; 32]>, Vec<Option<Vec<u8>>>),
    /// A type definition's form.
    Form(TypeForm),
}

/// A compared field as values.
pub enum FieldValueView {
    /// A scalar.
    Scalar(Seq<u8>),
    /// An identity list.
    Identities(Seq<Seq<u8>>),
    /// Parameters and their value types.
    Parameters(Seq<Seq<u8>>, Seq<Option<Seq<u8>>>),
    /// A form: whether it is a variant, and its members.
    Form(bool, Seq<MemberView>),
}

/// The view of an optional byte string.
pub open spec fn opt_view(o: Option<Vec<u8>>) -> Option<Seq<u8>> {
    match o {
        Some(v) => Some(v@),
        None => None,
    }
}

/// The views of a list of optional byte strings.
pub open spec fn opt_views(s: Seq<Option<Vec<u8>>>) -> Seq<Option<Seq<u8>>> {
    s.map_values(|o: Option<Vec<u8>>| opt_view(o))
}

impl View for FieldValue {
    type V = FieldValueView;

    open spec fn view(&self) -> FieldValueView {
        match self {
            FieldValue::Scalar(v) => FieldValueView::Scalar(v@),
            FieldValue::Identities(ids) => FieldValueView::Identities(digests_view(ids@)),
            FieldValue::Parameters(ids, types) => FieldValueView::Parameters(
                digests_view(ids@),
                opt_views(types@),
            ),
            FieldValue::Form(f) => FieldValueView::Form(f.variant, member_views(f.members@)),
        }
    }
}

/// The views of a list of fields.
pub open spec fn field_value_views(s: Seq<FieldValue>) -> Seq<FieldValueView> {
    s.map_values(|f: FieldValue| f@)
}

/// The identities of a list of members.
pub open spec fn member_ids(ms: Seq<MemberView>) -> Seq<Seq<u8>> {
    ms.map_values(|m: MemberView| m.0)
}

/// The identities of `xs` that `ys` holds too, in the order of `xs`.
pub open spec fn kept_in(xs: Seq<Seq<u8>>, ys: Seq<Seq<u8>>) -> Seq<Seq<u8>>
    decreases xs.len(),
{
    if xs.len() == 0 {
        Seq::empty()
    } else {
        kept_in(xs.drop_last(), ys) + if ys.contains(xs.last()) {
            seq![xs.last()]
        } else {
            Seq::empty()
        }
    }
}

/// The compared part of the first member of `ms` with identity `id`.
pub open spec fn first_shape(ms: Seq<MemberView>, id: Seq<u8>) -> Option<Seq<u8>>
    decreases ms.len(),
{
    if ms.len() == 0 {
        None
    } else if ms[0].0 == id {
        Some(ms[0].1)
    } else {
        first_shape(ms.drop_first(), id)
    }
}

/// Some member of `x` that `y` holds too is compared differently by the
/// first member of `y` with its identity.
pub open spec fn shared_member_changed(x: Seq<MemberView>, y: Seq<MemberView>) -> bool {
    exists|k: int|
        0 <= k < x.len() && match first_shape(y, #[trigger] x[k].0) {
            Some(s) => s != x[k].1,
            None => false,
        }
}

/// The change flags of a form beyond the changed bit: 2 when one form is a
/// record and the other a variant, 8 when the shared members appear in a
/// different order, 4 when forms of one shape share a member that changed.
pub open spec fn form_flags(xv: bool, x: Seq<MemberView>, yv: bool, y: Seq<MemberView>) -> u32 {
    let shape: u32 = if xv != yv {
        2
    } else {
        0
    };
    let order: u32 = if kept_in(member_ids(x), member_ids(y)) != kept_in(member_ids(y), member_ids(x)) {
        8
    } else {
        0
    };
    let member: u32 = if xv == yv && shared_member_changed(x, y) {
        4
    } else {
        0
    };
    (shape + order + member) as u32
}

/// The two values are fields of the same shape.
pub open spec fn same_shape(a: FieldValueView, b: FieldValueView) -> bool {
    match (a, b) {
        (FieldValueView::Scalar(_), FieldValueView::Scalar(_)) => true,
        (FieldValueView::Identities(_), FieldValueView::Identities(_)) => true,
        (FieldValueView::Parameters(_, _), FieldValueView::Parameters(_, _)) => true,
        (FieldValueView::Form(_, _), FieldValueView::Form(_, _)) => true,
        _ => false,
    }
}

/// Two field lists are the fields of one kind: as many of each, at most
/// `u32::MAX`, pairwise of the same shape.
pub open spec fn fields_pair(a: Seq<FieldValueView>, b: Seq<FieldValueView>) -> bool {
    &&& a.len() == b.len()
    &&& a.len() <= u32::MAX
    &&& forall|i: int| 0 <= i < a.len() ==> same_shape(#[trigger] a[i], b[i])
}

/// The entry of field `n` of entity `id` of `kind`, if it changed.
pub open spec fn field_entry(id: Seq<u8>, kind: u32, n: u32, a: FieldValueView, b: FieldValueView) -> Seq<
    FieldView,
> {
    match (a, b) {
        (FieldValueView::Scalar(x), FieldValueView::Scalar(y)) => if x == y {
            Seq::empty()
        } else {
            seq![(id, kind, n, 1u32, Seq::<Seq<u8>>::empty(), Seq::<Seq<u8>>::empty())]
        },
        (FieldValueView::Identities(x), FieldValueView::Identities(y)) => if x == y {
            Seq::empty()
        } else {
            seq![(id, kind, n, 1u32, difference(y, x), difference(x, y))]
        },
        (FieldValueView::Parameters(x, xt), FieldValueView::Parameters(y, yt)) => if x == y {
            Seq::empty()
        } else {
            seq![(id, kind, n, if xt == yt { 1u32 } else { 3u32 }, difference(y, x), difference(x, y))]
        },
        (FieldValueView::Form(xv, x), FieldValueView::Form(yv, y)) => if xv == yv && x == y {
            Seq::empty()
        } else {
            seq![
                (
                    id,
                    kind,
                    n,
                    (1 + form_flags(xv, x, yv, y)) as u32,
                    difference(member_ids(y), member_ids(x)),
                    difference(member_ids(x), member_ids(y)),
                ),
            ]
        },
        _ => Seq::empty(),
    }
}

/// The entries of the first `a.len()` fields, field `i + 1` at index `i`.
pub open spec fn field_entries(id: Seq<u8>, kind: u32, a: Seq<FieldValueView>, b: Seq<FieldValueView>) -> Seq<
    FieldView,
>
    decreases a.len(),
{
    if a.len() == 0 {
        Seq::empty()
    } else {
        field_entries(id, kind, a.drop_last(), b.take(a.len() - 1)) + field_entry(
            id,
            kind,
            a.len() as u32,
            a.last(),
            b[a.len() - 1],
        )
    }
}

/// An entity bound by one root, as the comparison reads it.
#[derive(Clone, Debug, PartialEq, Eq)]
pub struct RootEntity {
    /// Stable identity.
    pub entity_id: [u8; 32],
    /// Modeled kind tag.
    pub kind: u32,
    /// The canonical object the root binds the identity to, if any.
    pub object: Option<[u8; 32]>,
    /// Canonical bytes of the whole definition.
    pub definition: Vec<u8>,
    /// The object's label: metadata, outside the definition.
    pub label: Vec<u8>,
    /// The kind's compared fields, field `i + 1` at index `i`.
    pub fields: Vec<FieldValue>,
}

fn types_equal(a: &Vec<Option<Vec<u8>>>, b: &Vec<Option<Vec<u8>>>) -> (r: bool)
    ensures
        r == (opt_views(a@) == opt_views(b@)),
{
    if a.len() != b.len() {
        assert(opt_views(a@).len() != opt_views(b@).len());
        return false;
    }
    let mut i: usize = 0;
    while i < a.len()
        invariant
            i <= a.len(),
            a.len() == b.len(),
            forall|j: int| 0 <= j < i ==> opt_view(#[trigger] a@[j]) == opt_view(b@[j]),
        decreases a.len() - i,
    {
        let same = match (&a[i], &b[i]) {
            (Some(x), Some(y)) => bytes_equal(x.as_slice(), y.as_slice()),
            (None, None) => true,
            _ => false,
        };
        if !same {
            assert(opt_views(a@)[i as int] != opt_views(b@)[i as int]);
            return false;
        }
        i = i + 1;
    }
    assert(opt_views(a@) =~= opt_views(b@));
    true
}

fn members_equal(a: &Vec<FormMember>, b: &Vec<FormMember>) -> (r: bool)
    ensures
        r == (member_views(a@) == member_views(b@)),
{
    if a.len() != b.len() {
        assert(member_views(a@).len() != member_views(b@).len());
        return false;
    }
    let mut i: usize = 0;
    while i < a.len()
        invariant
            i <= a.len(),
            a.len() == b.len(),
            forall|j: int| 0 <= j < i ==> (#[trigger] a@[j])@ == b@[j]@,
        decreases a.len() - i,
    {
        let same = bytes_equal(a[i].member_id.as_slice(), b[i].member_id.as_slice()) && bytes_equal(
            a[i].shape.as_slice(),
            b[i].shape.as_slice(),
        ) && bytes_equal(a[i].rest.as_slice(), b[i].rest.as_slice());
        if !same {
            assert(member_views(a@)[i as int] != member_views(b@)[i as int]);
            return false;
        }
        i = i + 1;
    }
    assert(member_views(a@) =~= member_views(b@));
    true
}

fn ids_of(ms: &Vec<FormMember>) -> (r: Vec<[u8; 32]>)
    ensures
        digests_view(r@) == member_ids(member_views(ms@)),
{
    let mut out: Vec<[u8; 32]> = Vec::new();
    let mut i: usize = 0;
    while i < ms.len()
        invariant
            i <= ms@.len(),
            digests_view(out@) == member_ids(member_views(ms@)).take(i as int),
        decreases ms.len() - i,
    {
        let ghost before = digests_view(out@);
        out.push(ms[i].member_id);
        assert(digests_view(out@) =~= before.push(ms@[i as int].member_id@));
        assert(member_ids(member_views(ms@)).take(i + 1) =~= member_ids(member_views(ms@)).take(i as int).push(
            ms@[i as int].member_id@,
        ));
        i = i + 1;
    }
    assert(member_ids(member_views(ms@)).take(i as int) =~= member_ids(member_views(ms@)));
    out
}

fn holds_member(ms: &Vec<FormMember>, id: &[u8; 32]) -> (r: bool)
    ensures
        r == member_ids(member_views(ms@)).contains(id@),
{
    let ghost ids = member_ids(member_views(ms@));
    let mut i: usize = 0;
    while i < ms.len()
        invariant
            i <= ms@.len(),
            ids == member_ids(member_views(ms@)),
            forall|j: int| 0 <= j < i ==> #[trigger] ids[j] != id@,
        decreases ms.len() - i,
    {
        assert(ids[i as int] == ms@[i as int].member_id@);
        if bytes_equal(ms[i].member_id.as_slice(), id.as_slice()) {
            return true;
        }
        i = i + 1;
    }
    proof {
        if ids.contains(id@) {
            let j = choose|j: int| 0 <= j < ids.len() && ids[j] == id@;
            assert(ids[j] != id@);
        }
    }
    false
}

/// The identities of `xs` that `ys` holds too, in order.
fn kept_ids(xs: &Vec<FormMember>, ys: &Vec<FormMember>) -> (r: Vec<[u8; 32]>)
    ensures
        digests_view(r@) == kept_in(member_ids(member_views(xs@)), member_ids(member_views(ys@))),
{
    let ghost xi = member_ids(member_views(xs@));
    let ghost yi = member_ids(member_views(ys@));
    let mut out: Vec<[u8; 32]> = Vec::new();
    let mut i: usize = 0;
    assert(xi.take(0) =~= Seq::<Seq<u8>>::empty());
    while i < xs.len()
        invariant
            i <= xs@.len(),
            xi == member_ids(member_views(xs@)),
            yi == member_ids(member_views(ys@)),
            digests_view(out@) == kept_in(xi.take(i as int), yi),
        decreases xs.len() - i,
    {
        let ghost before = digests_view(out@);
        let ghost t = xi.take(i + 1);
        assert(t.drop_last() =~= xi.take(i as int));
        assert(t.last() == xs@[i as int].member_id@);
        if holds_member(ys, &xs[i].member_id) {
            out.push(xs[i].member_id);
            assert(digests_view(out@) =~= before.push(xs@[i as int].member_id@));
            assert(kept_in(t, yi) =~= kept_in(xi.take(i as int), yi) + seq![t.last()]);
        } else {
            assert(kept_in(t, yi) =~= kept_in(xi.take(i as int), yi) + Seq::<Seq<u8>>::empty());
        }
        i = i + 1;
    }
    assert(xi.take(i as int) =~= xi);
    out
}

/// The compared part of the first member of `ms` with identity `id`.
fn find_shape(ms: &Vec<FormMember>, id: &[u8; 32]) -> (r: Option<Vec<u8>>)
    ensures
        opt_view(r) == first_shape(member_views(ms@), id@),
{
    let ghost mv = member_views(ms@);
    let mut i: usize = 0;
    assert(mv.skip(0) =~= mv);
    while i < ms.len()
        invariant
            i <= ms@.len(),
            mv == member_views(ms@),
            first_shape(mv, id@) == first_shape(mv.skip(i as int), id@),
        decreases ms.len() - i,
    {
        let ghost rest = mv.skip(i as int);
        assert(rest[0] == ms@[i as int]@);
        assert(rest.drop_first() =~= mv.skip(i + 1));
        if bytes_equal(ms[i].member_id.as_slice(), id.as_slice()) {
            let mut shape: Vec<u8> = Vec::new();
            crate::bytes::append_bytes(&mut shape, ms[i].shape.as_slice());
            assert(shape@ =~= ms@[i as int].shape@);
            return Some(shape);
        }
        i = i + 1;
    }
    assert(mv.skip(i as int) =~= Seq::<MemberView>::empty());
    None
}

fn shared_changed(x: &Vec<FormMember>, y: &Vec<FormMember>) -> (r: bool)
    ensures
        r == shared_member_changed(member_views(x@), member_views(y@)),
{
    let ghost xv = member_views(x@);
    let ghost yv = member_views(y@);
    let mut k: usize = 0;
    while k < x.len()
        invariant
            k <= x@.len(),
            xv == member_views(x@),
            yv == member_views(y@),
            forall|j: int|
                0 <= j < k ==> match first_shape(yv, #[trigger] xv[j].0) {
                    Some(s) => s == xv[j].1,
                    None => true,
                },
        decreases x.len() - k,
    {
        assert(xv[k as int] == x@[k as int]@);
        match find_shape(y, &x[k].member_id) {
            Some(s) => {
                if !bytes_equal(s.as_slice(), x[k].shape.as_slice()) {
                    assert(first_shape(yv, xv[k as int].0) == Some(s@));
                    return true;
                }
            },
            None => {},
        }
        k = k + 1;
    }
    proof {
        if shared_member_changed(xv, yv) {
            let j = choose|j: int|
                0 <= j < xv.len() && match first_shape(yv, #[trigger] xv[j].0) {
                    Some(s) => s != xv[j].1,
                    None => false,
                };
            assert(match first_shape(yv, xv[j].0) {
                Some(s) => s == xv[j].1,
                None => true,
            });
        }
    }
    false
}

/// An entity as values: identity, kind, object, definition, fields.
pub type RootEntityView = (Seq<u8>, u32, Option<Seq<u8>>, Seq<u8>, Seq<FieldValueView>);

impl View for RootEntity {
    type V = RootEntityView;

    open spec fn view(&self) -> RootEntityView {
        (self.entity_id@, self.kind, object_view(self.object), self.definition@, field_value_views(self.fields@))
    }
}

/// Two entities are of one kind with fields of one shape.
pub open spec fn entities_pair(a: RootEntityView, b: RootEntityView) -> bool {
    a.1 == b.1 && fields_pair(a.4, b.4)
}

/// The field entries of an entity that changed between `a` and `b`.
pub open spec fn changed_fields(a: RootEntityView, b: RootEntityView) -> Seq<FieldView> {
    field_entries(a.0, a.1, a.4, b.4)
}

/// The views of a list of field entries.
pub open spec fn field_delta_views(s: Seq<FieldDelta>) -> Seq<FieldView> {
    s.map_values(|d: FieldDelta| d@)
}

fn push_delta(
    fields: &mut Vec<FieldDelta>,
    entity_id: &[u8; 32],
    kind: u32,
    field: u32,
    flags: u32,
    added: Vec<[u8; 32]>,
    removed: Vec<[u8; 32]>,
)
    ensures
        field_delta_views(final(fields)@) == field_delta_views(old(fields)@).push(
            (entity_id@, kind, field, flags, digests_view(added@), digests_view(removed@)),
        ),
{
    let ghost before = field_delta_views(fields@);
    let ghost av = digests_view(added@);
    let ghost rv = digests_view(removed@);
    let d = FieldDelta { entity_id: *entity_id, kind, field, flags, added, removed };
    assert(d@.4 =~= av);
    assert(d@.5 =~= rv);
    fields.push(d);
    assert(field_delta_views(fields@) =~= before.push(d@));
}

fn field_entry_of(
    fields: &mut Vec<FieldDelta>,
    entity_id: &[u8; 32],
    kind: u32,
    field: u32,
    a: &FieldValue,
    b: &FieldValue,
)
    requires
        same_shape(a@, b@),
    ensures
        field_delta_views(final(fields)@) == field_delta_views(old(fields)@) + field_entry(
            entity_id@,
            kind,
            field,
            a@,
            b@,
        ),
{
    let ghost before = field_delta_views(fields@);
    match (a, b) {
        (FieldValue::Scalar(x), FieldValue::Scalar(y)) => {
            if !bytes_equal(x.as_slice(), y.as_slice()) {
                let empty_a: Vec<[u8; 32]> = Vec::new();
                let empty_r: Vec<[u8; 32]> = Vec::new();
                push_delta(fields, entity_id, kind, field, 1, empty_a, empty_r);
                proof {
                    assert(digests_view(empty_a@) =~= Seq::<Seq<u8>>::empty());
                }
            }
        },
        (FieldValue::Identities(x), FieldValue::Identities(y)) => {
            if !digests_equal(x, y) {
                let (added, removed) = set_difference(x, y);
                push_delta(fields, entity_id, kind, field, 1, added, removed);
            }
        },
        (FieldValue::Parameters(x, xt), FieldValue::Parameters(y, yt)) => {
            if !digests_equal(x, y) {
                let flags: u32 = if types_equal(xt, yt) {
                    1
                } else {
                    3
                };
                let (added, removed) = set_difference(x, y);
                push_delta(fields, entity_id, kind, field, flags, added, removed);
            }
        },
        (FieldValue::Form(fx), FieldValue::Form(fy)) => {
            if !(fx.variant == fy.variant && members_equal(&fx.members, &fy.members)) {
                let shape: u32 = if fx.variant != fy.variant {
                    2
                } else {
                    0
                };
                let order: u32 = if !digests_equal(&kept_ids(&fx.members, &fy.members), &kept_ids(&fy.members, &fx.members)) {
                    8
                } else {
                    0
                };
                let member: u32 = if fx.variant == fy.variant && shared_changed(&fx.members, &fy.members) {
                    4
                } else {
                    0
                };
                let (added, removed) = set_difference(&ids_of(&fx.members), &ids_of(&fy.members));
                push_delta(fields, entity_id, kind, field, 1 + shape + order + member, added, removed);
            }
        },
        _ => {},
    }
}

fn fields_paired(a: &Vec<FieldValue>, b: &Vec<FieldValue>) -> (r: bool)
    ensures
        r == fields_pair(field_value_views(a@), field_value_views(b@)),
{
    let ghost av = field_value_views(a@);
    let ghost bv = field_value_views(b@);
    if a.len() != b.len() || a.len() > u32::MAX as usize {
        return false;
    }
    let mut i: usize = 0;
    while i < a.len()
        invariant
            i <= a@.len(),
            a@.len() == b@.len(),
            av == field_value_views(a@),
            bv == field_value_views(b@),
            forall|j: int| 0 <= j < i ==> same_shape(#[trigger] av[j], bv[j]),
        decreases a.len() - i,
    {
        let same = match (&a[i], &b[i]) {
            (FieldValue::Scalar(_), FieldValue::Scalar(_)) => true,
            (FieldValue::Identities(_), FieldValue::Identities(_)) => true,
            (FieldValue::Parameters(_, _), FieldValue::Parameters(_, _)) => true,
            (FieldValue::Form(_), FieldValue::Form(_)) => true,
            _ => false,
        };
        assert(av[i as int] == a@[i as int]@ && bv[i as int] == b@[i as int]@);
        if !same {
            return false;
        }
        i = i + 1;
    }
    true
}

/// The field entries of one entity bound by both roots with the same kind
/// and different bodies, after charging 8 units of work: one entry per
/// field that changed, in field order, appended to `fields`. Entities that
/// are not of one kind with fields of one shape are an internal invariant
/// failure.
pub fn field_deltas(
    fields: &mut Vec<FieldDelta>,
    before: &RootEntity,
    after: &RootEntity,
    work: &mut Work,
) -> (r: Result<(), CompareError>)
    ensures
        old(work).spent() + 8 <= u64::MAX ==> final(work).spent() == old(work).spent() + 8,
        old(work).spent() + 8 > u64::MAX ==> final(work).spent() == old(work).spent(),
        old(work).spent() + 8 > MAX_COMPARE_WORK ==> r == Err::<(), CompareError>(
            CompareError::Compare(CompareErrorCode::ResourceLimit),
        ) && final(fields)@ == old(fields)@,
        old(work).spent() + 8 <= MAX_COMPARE_WORK && !entities_pair(before@, after@) ==> r == Err::<
            (),
            CompareError,
        >(CompareError::Compare(CompareErrorCode::InternalInvariant)) && final(fields)@ == old(fields)@,
        old(work).spent() + 8 <= MAX_COMPARE_WORK && entities_pair(before@, after@) ==> r is Ok
            && field_delta_views(final(fields)@) == field_delta_views(old(fields)@) + changed_fields(
            before@,
            after@,
        ),
{
    work.charge(8)?;
    if before.kind != after.kind || !fields_paired(&before.fields, &after.fields) {
        return Err(CompareError::Compare(CompareErrorCode::InternalInvariant));
    }
    let ghost start = field_delta_views(fields@);
    let ghost av = field_value_views(before.fields@);
    let ghost bv = field_value_views(after.fields@);
    let mut i: usize = 0;
    assert(av.take(0) =~= Seq::<FieldValueView>::empty());
    while i < before.fields.len()
        invariant
            i <= before.fields@.len(),
            before.fields@.len() == after.fields@.len(),
            before.fields@.len() <= u32::MAX,
            av == field_value_views(before.fields@),
            bv == field_value_views(after.fields@),
            fields_pair(av, bv),
            field_delta_views(fields@) == start + field_entries(
                before.entity_id@,
                before.kind,
                av.take(i as int),
                bv.take(i as int),
            ),
        decreases before.fields.len() - i,
    {
        assert(av[i as int] == before.fields@[i as int]@);
        assert(bv[i as int] == after.fields@[i as int]@);
        assert(same_shape(av[i as int], bv[i as int]));
        field_entry_of(fields, &before.entity_id, before.kind, (i + 1) as u32, &before.fields[i], &after.fields[i]);
        proof {
            let a1 = av.take(i + 1);
            let b1 = bv.take(i + 1);
            assert(a1.drop_last() =~= av.take(i as int));
            assert(b1.take(a1.len() - 1) =~= bv.take(i as int));
            assert(a1.last() == av[i as int]);
            assert(b1[a1.len() - 1] == bv[i as int]);
        }
        i = i + 1;
    }
    proof {
        assert(av.take(i as int) =~= av);
        assert(bv.take(i as int) =~= bv);
    }
    Ok(())
}

fn copy_bytes(v: &Vec<u8>) -> (r: Vec<u8>)
    ensures
        r@ == v@,
{
    let mut out: Vec<u8> = Vec::new();
    crate::bytes::append_bytes(&mut out, v.as_slice());
    assert(out@ =~= v@);
    out
}

pub(crate) fn copy_ids(v: &Vec<[u8; 32]>) -> (r: Vec<[u8; 32]>)
    ensures
        digests_view(r@) == digests_view(v@),
{
    let mut out: Vec<[u8; 32]> = Vec::new();
    let mut i: usize = 0;
    while i < v.len()
        invariant
            i <= v@.len(),
            digests_view(out@) == digests_view(v@).take(i as int),
        decreases v.len() - i,
    {
        let ghost before = digests_view(out@);
        out.push(v[i]);
        assert(digests_view(out@) =~= before.push(v@[i as int]@));
        assert(digests_view(v@).take(i + 1) =~= digests_view(v@).take(i as int).push(v@[i as int]@));
        i = i + 1;
    }
    assert(digests_view(v@).take(i as int) =~= digests_view(v@));
    out
}

/// Copies a field value.
pub fn copy_value(v: &FieldValue) -> (r: FieldValue)
    ensures
        r@ == v@,
{
    match v {
        FieldValue::Scalar(x) => FieldValue::Scalar(copy_bytes(x)),
        FieldValue::Identities(ids) => FieldValue::Identities(copy_ids(ids)),
        FieldValue::Parameters(ids, types) => {
            let mut out: Vec<Option<Vec<u8>>> = Vec::new();
            let mut i: usize = 0;
            while i < types.len()
                invariant
                    i <= types@.len(),
                    opt_views(out@) == opt_views(types@).take(i as int),
                decreases types.len() - i,
            {
                let ghost before = opt_views(out@);
                let t = match &types[i] {
                    Some(b) => Some(copy_bytes(b)),
                    None => None,
                };
                out.push(t);
                assert(opt_views(out@) =~= before.push(opt_view(types@[i as int])));
                assert(opt_views(types@).take(i + 1) =~= opt_views(types@).take(i as int).push(
                    opt_view(types@[i as int]),
                ));
                i = i + 1;
            }
            assert(opt_views(types@).take(i as int) =~= opt_views(types@));
            FieldValue::Parameters(copy_ids(ids), out)
        },
        FieldValue::Form(f) => {
            let mut members: Vec<FormMember> = Vec::new();
            let mut i: usize = 0;
            while i < f.members.len()
                invariant
                    i <= f.members@.len(),
                    member_views(members@) == member_views(f.members@).take(i as int),
                decreases f.members.len() - i,
            {
                let ghost before = member_views(members@);
                let m = FormMember {
                    member_id: f.members[i].member_id,
                    shape: copy_bytes(&f.members[i].shape),
                    rest: copy_bytes(&f.members[i].rest),
                };
                members.push(m);
                assert(member_views(members@) =~= before.push(f.members@[i as int]@));
                assert(member_views(f.members@).take(i + 1) =~= member_views(f.members@).take(i as int).push(
                    f.members@[i as int]@,
                ));
                i = i + 1;
            }
            assert(member_views(f.members@).take(i as int) =~= member_views(f.members@));
            FieldValue::Form(TypeForm { variant: f.variant, members })
        },
    }
}

/// Copies a list of field values.
pub fn copy_values(v: &Vec<FieldValue>) -> (r: Vec<FieldValue>)
    ensures
        field_value_views(r@) == field_value_views(v@),
{
    let mut out: Vec<FieldValue> = Vec::new();
    let mut i: usize = 0;
    while i < v.len()
        invariant
            i <= v@.len(),
            field_value_views(out@) == field_value_views(v@).take(i as int),
        decreases v.len() - i,
    {
        let ghost before = field_value_views(out@);
        out.push(copy_value(&v[i]));
        assert(field_value_views(out@) =~= before.push(v@[i as int]@));
        assert(field_value_views(v@).take(i + 1) =~= field_value_views(v@).take(i as int).push(v@[i as int]@));
        i = i + 1;
    }
    assert(field_value_views(v@).take(i as int) =~= field_value_views(v@));
    out
}

/// Compares two field values.
pub fn values_equal(a: &FieldValue, b: &FieldValue) -> (r: bool)
    ensures
        r == (a@ == b@),
{
    match (a, b) {
        (FieldValue::Scalar(x), FieldValue::Scalar(y)) => bytes_equal(x.as_slice(), y.as_slice()),
        (FieldValue::Identities(x), FieldValue::Identities(y)) => digests_equal(x, y),
        (FieldValue::Parameters(x, xt), FieldValue::Parameters(y, yt)) => digests_equal(x, y) && types_equal(
            xt,
            yt,
        ),
        (FieldValue::Form(x), FieldValue::Form(y)) => x.variant == y.variant && members_equal(
            &x.members,
            &y.members,
        ),
        _ => false,
    }
}

} // verus!
