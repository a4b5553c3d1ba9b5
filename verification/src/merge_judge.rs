//! Judging a three-way merge identity by identity: every identity either
//! side's delta names is judged once, in ascending order, into a binding,
//! a conflict, or a field-by-field composition.

use vstd::prelude::*;

use crate::bytes::{compare_bytes, lex, ByteOrder};
use crate::compare_fields::{field_delta_views, field_value_views, FieldValueView, RootEntity};
use crate::compare_fields::{copy_ids, FieldValue};
use crate::delta::{EntityDelta, FieldDelta, FieldView};
use crate::digest::digests_view;
use crate::merge::{
    conflict_kind, conflict_kind_spec, judge_identity, judge_identity_spec, ConflictEntry, ConflictReason,
    IdentityDecision, MergeError, MergeErrorCode, SideChange, Work, MAX_MERGE_WORK,
};
use crate::merge_compose::{compose_fields, compose_fold, field_union};

verus! {

/// What the two deltas name for one identity: ours' entry, theirs', or both.
pub type EntryPair = (Option<EntityDelta>, Option<EntityDelta>);

/// The identities either delta names, ascending, each with both sides'
/// entries; both entry lists ascend by identity.
pub open spec fn entry_union(a: Seq<EntityDelta>, b: Seq<EntityDelta>) -> Seq<EntryPair>
    decreases a.len() + b.len(),
{
    if a.len() == 0 && b.len() == 0 {
        Seq::empty()
    } else if a.len() > 0 && (b.len() == 0 || lex(a[0].entity_id@, b[0].entity_id@) == ByteOrder::Less) {
        seq![(Some(a[0]), None::<EntityDelta>)] + entry_union(a.drop_first(), b)
    } else if b.len() > 0 && (a.len() == 0 || lex(a[0].entity_id@, b[0].entity_id@) == ByteOrder::Greater) {
        seq![(None::<EntityDelta>, Some(b[0]))] + entry_union(a, b.drop_first())
    } else {
        seq![(Some(a[0]), Some(b[0]))] + entry_union(a.drop_first(), b.drop_first())
    }
}

/// The identity of a pair.
pub open spec fn pair_id(p: EntryPair) -> [u8; 32] {
    match p.0 {
        Some(e) => e.entity_id,
        None => p.1->0.entity_id,
    }
}

/// What a side's entry did to the identity.
pub open spec fn side_of(e: Option<EntityDelta>) -> Option<SideChange> {
    match e {
        Some(d) => Some(SideChange { change: d.change, target_object: d.target_object }),
        None => None,
    }
}

/// The first entity of a root with identity `id`.
pub open spec fn entity_at(es: Seq<RootEntity>, id: Seq<u8>) -> Option<RootEntity>
    decreases es.len(),
{
    if es.len() == 0 {
        None
    } else if es[0].entity_id@ == id {
        Some(es[0])
    } else {
        entity_at(es.drop_first(), id)
    }
}

/// The kind a root binds `id` to, if any.
pub open spec fn kind_at(es: Seq<RootEntity>, id: Seq<u8>) -> Option<u32> {
    match entity_at(es, id) {
        Some(e) => Some(e.kind),
        None => None,
    }
}

/// The object a root binds `id` to, if any.
pub open spec fn object_at(es: Seq<RootEntity>, id: Seq<u8>) -> Option<[u8; 32]> {
    match entity_at(es, id) {
        Some(e) => e.object,
        None => None,
    }
}

/// The field entries of identity `id`, in order.
pub open spec fn fields_of(fs: Seq<FieldDelta>, id: Seq<u8>) -> Seq<FieldView>
    decreases fs.len(),
{
    if fs.len() == 0 {
        Seq::empty()
    } else {
        fields_of(fs.drop_last(), id) + if fs.last().entity_id@ == id {
            seq![fs.last()@]
        } else {
            Seq::empty()
        }
    }
}

/// What the judgment collected so far: conflicts, bindings (`None` removes
/// the identity), composed bodies, and identities whose metadata-only
/// change was overridden.
pub type JudgeAcc = (
    Seq<ConflictEntry>,
    Seq<(Seq<u8>, Option<[u8; 32]>)>,
    Seq<(Seq<u8>, Seq<FieldValueView>)>,
    Seq<Seq<u8>>,
);

/// The conflict entry of an identity.
pub open spec fn conflict_of(
    id: [u8; 32],
    reason: ConflictReason,
    kind: u32,
    field: u32,
    ours: Option<[u8; 32]>,
    theirs: Option<[u8; 32]>,
) -> ConflictEntry {
    ConflictEntry { entity_id: id, reason, kind, field, ours_object: ours, theirs_object: theirs, detail: 0 }
}

/// One identity of the judgment, after charging one unit of work.
pub open spec fn judge_step(
    p: EntryPair,
    base: Seq<RootEntity>,
    ours: Seq<RootEntity>,
    theirs: Seq<RootEntity>,
    fa: Seq<FieldDelta>,
    fb: Seq<FieldDelta>,
    acc: JudgeAcc,
    w: int,
) -> Result<(JudgeAcc, int), MergeError> {
    let id = pair_id(p);
    let ours_object = object_at(ours, id@);
    let theirs_object = object_at(theirs, id@);
    let kind = conflict_kind_spec(kind_at(base, id@), kind_at(ours, id@), kind_at(theirs, id@));
    match judge_identity_spec(side_of(p.0), side_of(p.1)) {
        None => Err(MergeError::Merge(MergeErrorCode::InternalInvariant)),
        Some(IdentityDecision::Bind(o)) => Ok(((acc.0, acc.1.push((id@, o)), acc.2, acc.3), w)),
        Some(IdentityDecision::BindOverridingMetadata(o)) => Ok(
            ((acc.0, acc.1.push((id@, o)), acc.2, acc.3.push(id@)), w),
        ),
        Some(IdentityDecision::Conflict(reason)) => Ok(
            ((acc.0.push(conflict_of(id, reason, kind, 0, ours_object, theirs_object)), acc.1, acc.2, acc.3), w),
        ),
        Some(IdentityDecision::Compose) => match (entity_at(base, id@), entity_at(ours, id@), entity_at(theirs, id@)) {
            (Some(b), Some(o), Some(t)) => {
                let bv = field_value_views(b.fields@);
                let ov = field_value_views(o.fields@);
                let tv = field_value_views(t.fields@);
                let da = fields_of(fa, id@);
                let db = fields_of(fb, id@);
                if bv.len() != ov.len() || bv.len() != tv.len() || field_union(da, db).len() == 0 {
                    Err(MergeError::Merge(MergeErrorCode::InternalInvariant))
                } else {
                    match compose_fold(b.kind, field_union(da, db), bv, ov, tv, da, db, w) {
                        Err(e) => Err(e),
                        Ok(Err((f, w2))) => Ok(
                            (
                                (
                                    acc.0.push(conflict_of(id, ConflictReason::FieldEdit, kind, f, ours_object, theirs_object)),
                                    acc.1,
                                    acc.2,
                                    acc.3,
                                ),
                                w2,
                            ),
                        ),
                        Ok(Ok((body, w2))) => Ok(
                            (
                                (
                                    acc.0,
                                    acc.1,
                                    acc.2.push((id@, body)),
                                    if o.label@ != t.label@ {
                                        acc.3.push(id@)
                                    } else {
                                        acc.3
                                    },
                                ),
                                w2,
                            ),
                        ),
                    }
                }
            },
            _ => Err(MergeError::Merge(MergeErrorCode::InternalInvariant)),
        },
    }
}

/// The judgment over the identities in turn, each charging one unit of
/// work before it is judged; the first failure decides.
pub open spec fn judge_fold(
    ps: Seq<EntryPair>,
    base: Seq<RootEntity>,
    ours: Seq<RootEntity>,
    theirs: Seq<RootEntity>,
    fa: Seq<FieldDelta>,
    fb: Seq<FieldDelta>,
    spent: int,
) -> Result<(JudgeAcc, int), MergeError>
    decreases ps.len(),
{
    if ps.len() == 0 {
        Ok(((Seq::empty(), Seq::empty(), Seq::empty(), Seq::empty()), spent))
    } else {
        match judge_fold(ps.drop_last(), base, ours, theirs, fa, fb, spent) {
            Err(e) => Err(e),
            Ok((acc, w)) => if w + 1 > MAX_MERGE_WORK {
                Err(MergeError::Merge(MergeErrorCode::ResourceLimit))
            } else {
                judge_step(ps.last(), base, ours, theirs, fa, fb, acc, w + 1)
            },
        }
    }
}

/// The outcome of judging every identity.
pub struct Judgment {
    /// Conflicts, in identity order.
    pub conflicts: Vec<ConflictEntry>,
    /// Bindings taken from a side: the identity and its object, `None` to
    /// remove it.
    pub bindings: Vec<([u8; 32], Option<[u8; 32]>)>,
    /// Composed bodies of identities both sides changed.
    pub composed: Vec<([u8; 32], Vec<FieldValue>)>,
    /// Identities whose metadata-only change the other side's change
    /// overrode.
    pub metadata_overridden: Vec<[u8; 32]>,
}

/// A judgment as values.
pub open spec fn judgment_view(j: Judgment) -> JudgeAcc {
    (
        j.conflicts@,
        j.bindings@.map_values(|b: ([u8; 32], Option<[u8; 32]>)| (b.0@, b.1)),
        j.composed@.map_values(|c: ([u8; 32], Vec<FieldValue>)| (c.0@, field_value_views(c.1@))),
        digests_view(j.metadata_overridden@),
    )
}

pub(crate) fn find_entity(es: &Vec<RootEntity>, id: &[u8; 32]) -> (r: Option<usize>)
    ensures
        match r {
            Some(k) => k < es@.len() && entity_at(es@, id@) == Some(es@[k as int]),
            None => entity_at(es@, id@) is None,
        },
{
    let mut i: usize = 0;
    assert(es@.skip(0) =~= es@);
    while i < es.len()
        invariant
            i <= es@.len(),
            entity_at(es@, id@) == entity_at(es@.skip(i as int), id@),
        decreases es.len() - i,
    {
        let ghost rest = es@.skip(i as int);
        assert(rest[0] == es@[i as int]);
        assert(rest.drop_first() =~= es@.skip(i + 1));
        if crate::bytes::bytes_equal(es[i].entity_id.as_slice(), id.as_slice()) {
            return Some(i);
        }
        i = i + 1;
    }
    None
}

fn copy_field_delta(d: &FieldDelta) -> (r: FieldDelta)
    ensures
        r@ == d@,
{
    let added = copy_ids(&d.added);
    let removed = copy_ids(&d.removed);
    let r = FieldDelta { entity_id: d.entity_id, kind: d.kind, field: d.field, flags: d.flags, added, removed };
    assert(r@.4 =~= d@.4);
    assert(r@.5 =~= d@.5);
    r
}

fn fields_for(fs: &Vec<FieldDelta>, id: &[u8; 32]) -> (r: Vec<FieldDelta>)
    ensures
        field_delta_views(r@) == fields_of(fs@, id@),
{
    let mut out: Vec<FieldDelta> = Vec::new();
    let mut i: usize = 0;
    assert(fs@.take(0) =~= Seq::<FieldDelta>::empty());
    while i < fs.len()
        invariant
            i <= fs@.len(),
            field_delta_views(out@) == fields_of(fs@.take(i as int), id@),
        decreases fs.len() - i,
    {
        let ghost before = field_delta_views(out@);
        let ghost t = fs@.take(i + 1);
        assert(t.drop_last() =~= fs@.take(i as int));
        assert(t.last() == fs@[i as int]);
        if crate::bytes::bytes_equal(fs[i].entity_id.as_slice(), id.as_slice()) {
            out.push(copy_field_delta(&fs[i]));
            assert(field_delta_views(out@) =~= before + seq![fs@[i as int]@]);
        } else {
            assert(fields_of(t, id@) =~= fields_of(fs@.take(i as int), id@) + Seq::<FieldView>::empty());
        }
        i = i + 1;
    }
    assert(fs@.take(i as int) =~= fs@);
    out
}

proof fn lemma_judge_fails_on(
    ps: Seq<EntryPair>,
    more: Seq<EntryPair>,
    base: Seq<RootEntity>,
    ours: Seq<RootEntity>,
    theirs: Seq<RootEntity>,
    fa: Seq<FieldDelta>,
    fb: Seq<FieldDelta>,
    spent: int,
)
    requires
        judge_fold(ps, base, ours, theirs, fa, fb, spent) is Err,
    ensures
        judge_fold(ps + more, base, ours, theirs, fa, fb, spent) == judge_fold(ps, base, ours, theirs, fa, fb, spent),
    decreases more.len(),
{
    if more.len() == 0 {
        assert(ps + more =~= ps);
    } else {
        lemma_judge_fails_on(ps, more.drop_last(), base, ours, theirs, fa, fb, spent);
        assert((ps + more).drop_last() =~= ps + more.drop_last());
    }
}

fn side_change_of(e: Option<&EntityDelta>) -> (r: Option<SideChange>)
    ensures
        r == side_of(
            match e {
                Some(d) => Some(*d),
                None => None,
            },
        ),
{
    match e {
        Some(d) => Some(SideChange { change: d.change, target_object: d.target_object }),
        None => None,
    }
}

/// Judges every identity either delta names, in ascending order, each
/// charging one unit of work: a one-sided or convergent change binds that
/// side's object, a divergent one conflicts or overrides a metadata-only
/// change, and both sides changing the body composes it field by field
/// from the three roots' entities and the two deltas' field entries.
#[verifier::loop_isolation(false)]
#[verifier::rlimit(100)]
pub fn judge_entities(
    delta_a: &Vec<EntityDelta>,
    fields_a: &Vec<FieldDelta>,
    delta_b: &Vec<EntityDelta>,
    fields_b: &Vec<FieldDelta>,
    base: &Vec<RootEntity>,
    ours: &Vec<RootEntity>,
    theirs: &Vec<RootEntity>,
    work: &mut Work,
) -> (r: Result<Judgment, MergeError>)
    requires
        old(work).spent() <= MAX_MERGE_WORK,
    ensures
        match judge_fold(
            entry_union(delta_a@, delta_b@),
            base@,
            ours@,
            theirs@,
            fields_a@,
            fields_b@,
            old(work).spent() as int,
        ) {
            Ok((acc, w)) => r is Ok && judgment_view(r->Ok_0) == acc && final(work).spent() == w,
            Err(e) => r == Err::<Judgment, MergeError>(e),
        },
{
    let ghost all = entry_union(delta_a@, delta_b@);
    let ghost s0 = work.spent() as int;
    let ghost mut done: Seq<EntryPair> = Seq::empty();
    let mut out = Judgment {
        conflicts: Vec::new(),
        bindings: Vec::new(),
        composed: Vec::new(),
        metadata_overridden: Vec::new(),
    };
    let mut i: usize = 0;
    let mut j: usize = 0;
    proof {
        assert(delta_a@.skip(0) =~= delta_a@);
        assert(delta_b@.skip(0) =~= delta_b@);
        assert(done + all =~= all);
        assert(judgment_view(out) =~= (
            Seq::<ConflictEntry>::empty(),
            Seq::<(Seq<u8>, Option<[u8; 32]>)>::empty(),
            Seq::<(Seq<u8>, Seq<FieldValueView>)>::empty(),
            Seq::<Seq<u8>>::empty(),
        ));
    }
    while i < delta_a.len() || j < delta_b.len()
        invariant
            i <= delta_a@.len(),
            j <= delta_b@.len(),
            all == entry_union(delta_a@, delta_b@),
            done + entry_union(delta_a@.skip(i as int), delta_b@.skip(j as int)) == all,
            judge_fold(done, base@, ours@, theirs@, fields_a@, fields_b@, s0) == Ok::<(JudgeAcc, int), MergeError>(
                (judgment_view(out), work.spent() as int),
            ),
            work.spent() <= MAX_MERGE_WORK,
        decreases delta_a.len() + delta_b.len() - i - j,
    {
        let ghost sa = delta_a@.skip(i as int);
        let ghost sb = delta_b@.skip(j as int);
        proof {
            if i < delta_a.len() {
                assert(sa[0] == delta_a@[i as int]);
                assert(sa.drop_first() =~= delta_a@.skip(i + 1));
            }
            if j < delta_b.len() {
                assert(sb[0] == delta_b@[j as int]);
                assert(sb.drop_first() =~= delta_b@.skip(j + 1));
            }
        }
        let order = if i < delta_a.len() && j < delta_b.len() {
            compare_bytes(delta_a[i].entity_id.as_slice(), delta_b[j].entity_id.as_slice())
        } else if i < delta_a.len() {
            ByteOrder::Less
        } else {
            ByteOrder::Greater
        };
        let (pa, pb): (Option<&EntityDelta>, Option<&EntityDelta>) = if order == ByteOrder::Less {
            (Some(&delta_a[i]), None)
        } else if order == ByteOrder::Greater {
            (None, Some(&delta_b[j]))
        } else {
            (Some(&delta_a[i]), Some(&delta_b[j]))
        };
        let ghost p: EntryPair = (
            match pa {
                Some(d) => Some(*d),
                None => None,
            },
            match pb {
                Some(d) => Some(*d),
                None => None,
            },
        );
        let ghost rest = if order == ByteOrder::Less {
            entry_union(delta_a@.skip(i + 1), sb)
        } else if order == ByteOrder::Greater {
            entry_union(sa, delta_b@.skip(j + 1))
        } else {
            entry_union(delta_a@.skip(i + 1), delta_b@.skip(j + 1))
        };
        assert(entry_union(sa, sb) == seq![p] + rest);
        let ghost before = done;
        let ghost acc = judgment_view(out);
        let ghost w0 = work.spent() as int;
        proof {
            done = done.push(p);
            assert(done.drop_last() =~= before);
            assert(done.last() == p);
            assert(done + rest =~= before + entry_union(sa, sb));
        }
        match work.charge(1) {
            Ok(()) => {},
            Err(e) => {
                proof {
                    lemma_judge_fails_on(done, rest, base@, ours@, theirs@, fields_a@, fields_b@, s0);
                }
                return Err(e);
            },
        }
        let id: [u8; 32] = match pa {
            Some(d) => d.entity_id,
            None => match pb {
                Some(d) => d.entity_id,
                None => [0u8; 32],
            },
        };
        assert(id == pair_id(p));
        let bi = find_entity(base, &id);
        let oi = find_entity(ours, &id);
        let ti = find_entity(theirs, &id);
        let ours_object = match oi {
            Some(k) => ours[k].object,
            None => None,
        };
        let theirs_object = match ti {
            Some(k) => theirs[k].object,
            None => None,
        };
        let base_kind = match bi {
            Some(k) => Some(base[k].kind),
            None => None,
        };
        let ours_kind = match oi {
            Some(k) => Some(ours[k].kind),
            None => None,
        };
        let theirs_kind = match ti {
            Some(k) => Some(theirs[k].kind),
            None => None,
        };
        let kind = conflict_kind(base_kind, ours_kind, theirs_kind);
        proof {
            assert(object_at(ours@, id@) == ours_object);
            assert(object_at(theirs@, id@) == theirs_object);
            assert(kind_at(base@, id@) == base_kind);
            assert(kind_at(ours@, id@) == ours_kind);
            assert(kind_at(theirs@, id@) == theirs_kind);
            assert(judge_fold(done, base@, ours@, theirs@, fields_a@, fields_b@, s0) == judge_step(
                p,
                base@,
                ours@,
                theirs@,
                fields_a@,
                fields_b@,
                acc,
                w0 + 1,
            ));
        }
        let decision = match judge_identity(side_change_of(pa), side_change_of(pb)) {
            Ok(d) => d,
            Err(e) => {
                proof {
                    lemma_judge_fails_on(done, rest, base@, ours@, theirs@, fields_a@, fields_b@, s0);
                }
                return Err(e);
            },
        };
        match decision {
            IdentityDecision::Bind(o) => {
                out.bindings.push((id, o));
                proof {
                    assert(judgment_view(out).1 =~= acc.1.push((id@, o)));
                }
            },
            IdentityDecision::BindOverridingMetadata(o) => {
                out.bindings.push((id, o));
                out.metadata_overridden.push(id);
                proof {
                    assert(judgment_view(out).1 =~= acc.1.push((id@, o)));
                    assert(judgment_view(out).3 =~= acc.3.push(id@));
                }
            },
            IdentityDecision::Conflict(reason) => {
                out.conflicts.push(
                    ConflictEntry {
                        entity_id: id,
                        reason,
                        kind,
                        field: 0,
                        ours_object,
                        theirs_object,
                        detail: 0,
                    },
                );
            },
            IdentityDecision::Compose => {
                let (x, y, z) = match (bi, oi, ti) {
                    (Some(x), Some(y), Some(z)) => (x, y, z),
                    _ => {
                        proof {
                            lemma_judge_fails_on(done, rest, base@, ours@, theirs@, fields_a@, fields_b@, s0);
                        }
                        return Err(MergeError::Merge(MergeErrorCode::InternalInvariant));
                    },
                };
                if base[x].fields.len() != ours[y].fields.len() || base[x].fields.len()
                    != theirs[z].fields.len() {
                    proof {
                        lemma_judge_fails_on(done, rest, base@, ours@, theirs@, fields_a@, fields_b@, s0);
                    }
                    return Err(MergeError::Merge(MergeErrorCode::InternalInvariant));
                }
                let fa = fields_for(fields_a, &id);
                let fb = fields_for(fields_b, &id);
                match compose_fields(
                    base[x].kind,
                    &base[x].fields,
                    &ours[y].fields,
                    &theirs[z].fields,
                    &fa,
                    &fb,
                    work,
                ) {
                    Ok(Ok(body)) => {
                        proof {
                            crate::merge_compose::lemma_compose_within(
                                base[x as int].kind,
                                field_union(field_delta_views(fa@), field_delta_views(fb@)),
                                field_value_views(base@[x as int].fields@),
                                field_value_views(ours@[y as int].fields@),
                                field_value_views(theirs@[z as int].fields@),
                                field_delta_views(fa@),
                                field_delta_views(fb@),
                                w0 + 1,
                            );
                        }
                        out.composed.push((id, body));
                        proof {
                            assert(judgment_view(out).2 =~= acc.2.push((id@, field_value_views(body@))));
                        }
                        if !crate::bytes::bytes_equal(ours[y].label.as_slice(), theirs[z].label.as_slice()) {
                            out.metadata_overridden.push(id);
                            proof {
                                assert(judgment_view(out).3 =~= acc.3.push(id@));
                            }
                        }
                    },
                    Ok(Err(f)) => {
                        proof {
                            crate::merge_compose::lemma_compose_within(
                                base[x as int].kind,
                                field_union(field_delta_views(fa@), field_delta_views(fb@)),
                                field_value_views(base@[x as int].fields@),
                                field_value_views(ours@[y as int].fields@),
                                field_value_views(theirs@[z as int].fields@),
                                field_delta_views(fa@),
                                field_delta_views(fb@),
                                w0 + 1,
                            );
                        }
                        out.conflicts.push(
                            ConflictEntry {
                                entity_id: id,
                                reason: ConflictReason::FieldEdit,
                                kind,
                                field: f,
                                ours_object,
                                theirs_object,
                                detail: 0,
                            },
                        );
                    },
                    Err(e) => {
                        proof {
                            lemma_judge_fails_on(done, rest, base@, ours@, theirs@, fields_a@, fields_b@, s0);
                        }
                        return Err(e);
                    },
                }
            },
        }
        if order == ByteOrder::Less {
            i = i + 1;
        } else if order == ByteOrder::Greater {
            j = j + 1;
        } else {
            i = i + 1;
            j = j + 1;
        }
    }
    proof {
        assert(delta_a@.skip(i as int) =~= Seq::<EntityDelta>::empty());
        assert(delta_b@.skip(j as int) =~= Seq::<EntityDelta>::empty());
        assert(done + Seq::<EntryPair>::empty() =~= done);
    }
    Ok(out)
}

/// A pair seen from the other side.
pub open spec fn swap_entries(p: EntryPair) -> EntryPair {
    (p.1, p.0)
}

/// Both entries of a pair, where both exist, name the same identity.
pub open spec fn one_identity(p: EntryPair) -> bool {
    match p {
        (Some(x), Some(y)) => x.entity_id == y.entity_id,
        (None, None) => false,
        _ => true,
    }
}

/// A conflict entry seen from the other side: ours and theirs swap.
pub open spec fn swap_objects(c: ConflictEntry) -> ConflictEntry {
    ConflictEntry { ours_object: c.theirs_object, theirs_object: c.ours_object, ..c }
}

proof fn lemma_entry_union_swap(a: Seq<EntityDelta>, b: Seq<EntityDelta>)
    ensures
        entry_union(b, a) == entry_union(a, b).map_values(|p: EntryPair| swap_entries(p)),
        forall|i: int| 0 <= i < entry_union(a, b).len() ==> one_identity(#[trigger] entry_union(a, b)[i]),
    decreases a.len() + b.len(),
{
    let u = entry_union(a, b);
    if a.len() == 0 && b.len() == 0 {
        assert(u.map_values(|p: EntryPair| swap_entries(p)) =~= Seq::<EntryPair>::empty());
    } else {
        if a.len() > 0 && b.len() > 0 {
            crate::bytes::lemma_lex_antisymmetric(a[0].entity_id@, b[0].entity_id@);
            crate::bytes::lemma_lex_equal(a[0].entity_id@, b[0].entity_id@);
            if a[0].entity_id@ == b[0].entity_id@ {
                assert(a[0].entity_id =~= b[0].entity_id);
            }
        }
        let (ra, rb) = if a.len() > 0 && (b.len() == 0 || lex(a[0].entity_id@, b[0].entity_id@) == ByteOrder::Less) {
            (a.drop_first(), b)
        } else if b.len() > 0 && (a.len() == 0 || lex(a[0].entity_id@, b[0].entity_id@) == ByteOrder::Greater) {
            (a, b.drop_first())
        } else {
            (a.drop_first(), b.drop_first())
        };
        lemma_entry_union_swap(ra, rb);
        assert(u == seq![u[0]] + entry_union(ra, rb));
        assert(u.map_values(|p: EntryPair| swap_entries(p)) =~= seq![swap_entries(u[0])] + entry_union(ra, rb).map_values(
            |p: EntryPair| swap_entries(p),
        ));
        assert forall|i: int| 0 <= i < u.len() implies one_identity(#[trigger] u[i]) by {
            if i > 0 {
                assert(u[i] == entry_union(ra, rb)[i - 1]);
            }
        }
    }
}

proof fn lemma_step_swap(
    p: EntryPair,
    base: Seq<RootEntity>,
    ours: Seq<RootEntity>,
    theirs: Seq<RootEntity>,
    fa: Seq<FieldDelta>,
    fb: Seq<FieldDelta>,
    acc: JudgeAcc,
    macc: JudgeAcc,
    w: int,
)
    requires
        one_identity(p),
        macc == (acc.0.map_values(|c: ConflictEntry| swap_objects(c)), acc.1, acc.2, acc.3),
    ensures
        match (
            judge_step(p, base, ours, theirs, fa, fb, acc, w),
            judge_step(swap_entries(p), base, theirs, ours, fb, fa, macc, w),
        ) {
            (Ok((x, v)), Ok((y, u))) => v == u && y == (
                x.0.map_values(|c: ConflictEntry| swap_objects(c)),
                x.1,
                x.2,
                x.3,
            ),
            (Err(e), Err(f)) => e == f,
            _ => false,
        },
{
    let id = pair_id(p);
    assert(pair_id(swap_entries(p)) == id);
    crate::merge::lemma_judge_identity_symmetric(side_of(p.0), side_of(p.1));
    crate::merge::lemma_conflict_kind_symmetric(kind_at(base, id@), kind_at(ours, id@), kind_at(theirs, id@));
    match judge_identity_spec(side_of(p.0), side_of(p.1)) {
        Some(IdentityDecision::Conflict(reason)) => {
            let k = conflict_kind_spec(kind_at(base, id@), kind_at(ours, id@), kind_at(theirs, id@));
            let c = conflict_of(id, reason, k, 0, object_at(ours, id@), object_at(theirs, id@));
            assert(acc.0.push(c).map_values(|c: ConflictEntry| swap_objects(c)) =~= macc.0.push(swap_objects(c)));
        },
        Some(IdentityDecision::Compose) => {
            match (entity_at(base, id@), entity_at(ours, id@), entity_at(theirs, id@)) {
                (Some(b), Some(o), Some(t)) => {
                    let da = fields_of(fa, id@);
                    let db = fields_of(fb, id@);
                    crate::merge_compose::lemma_compose_symmetric(
                        b.kind,
                        field_union(da, db),
                        field_value_views(b.fields@),
                        field_value_views(o.fields@),
                        field_value_views(t.fields@),
                        da,
                        db,
                        w,
                    );
                    match compose_fold(
                        b.kind,
                        field_union(da, db),
                        field_value_views(b.fields@),
                        field_value_views(o.fields@),
                        field_value_views(t.fields@),
                        da,
                        db,
                        w,
                    ) {
                        Ok(Err((f, w2))) => {
                            let k = conflict_kind_spec(kind_at(base, id@), kind_at(ours, id@), kind_at(theirs, id@));
                            let c = conflict_of(id, ConflictReason::FieldEdit, k, f, object_at(ours, id@), object_at(theirs, id@));
                            assert(acc.0.push(c).map_values(|c: ConflictEntry| swap_objects(c)) =~= macc.0.push(
                                swap_objects(c),
                            ));
                        },
                        _ => {},
                    }
                },
                _ => {},
            }
        },
        _ => {},
    }
}

proof fn lemma_fold_swap(
    ps: Seq<EntryPair>,
    base: Seq<RootEntity>,
    ours: Seq<RootEntity>,
    theirs: Seq<RootEntity>,
    fa: Seq<FieldDelta>,
    fb: Seq<FieldDelta>,
    spent: int,
)
    requires
        forall|i: int| 0 <= i < ps.len() ==> one_identity(#[trigger] ps[i]),
    ensures
        match (
            judge_fold(ps, base, ours, theirs, fa, fb, spent),
            judge_fold(ps.map_values(|p: EntryPair| swap_entries(p)), base, theirs, ours, fb, fa, spent),
        ) {
            (Ok((x, v)), Ok((y, u))) => v == u && y == (
                x.0.map_values(|c: ConflictEntry| swap_objects(c)),
                x.1,
                x.2,
                x.3,
            ),
            (Err(e), Err(f)) => e == f,
            _ => false,
        },
    decreases ps.len(),
{
    let qs = ps.map_values(|p: EntryPair| swap_entries(p));
    if ps.len() == 0 {
        let e = Seq::<ConflictEntry>::empty();
        assert(e.map_values(|c: ConflictEntry| swap_objects(c)) =~= e);
    } else {
        let t = ps.drop_last();
        assert forall|i: int| 0 <= i < t.len() implies one_identity(#[trigger] t[i]) by {
            assert(t[i] == ps[i]);
        }
        lemma_fold_swap(t, base, ours, theirs, fa, fb, spent);
        assert(qs.drop_last() =~= t.map_values(|p: EntryPair| swap_entries(p)));
        assert(qs.last() == swap_entries(ps.last()));
        assert(one_identity(ps[ps.len() - 1]));
        match judge_fold(t, base, ours, theirs, fa, fb, spent) {
            Ok((x, w)) => {
                if w + 1 <= MAX_MERGE_WORK {
                    lemma_step_swap(
                        ps.last(),
                        base,
                        ours,
                        theirs,
                        fa,
                        fb,
                        x,
                        (x.0.map_values(|c: ConflictEntry| swap_objects(c)), x.1, x.2, x.3),
                        w + 1,
                    );
                }
            },
            Err(_) => {},
        }
    }
}

/// Judging a merge does not depend on which side is ours: with the sides
/// swapped, the same identities conflict for the same reasons, kinds and
/// fields (each entry naming the sides' objects the other way round), the
/// same bindings and compositions are made, the same metadata overrides
/// are reported, and the same work is spent; a failure is the same failure.
pub proof fn lemma_judgment_symmetric(
    a: Seq<EntityDelta>,
    b: Seq<EntityDelta>,
    base: Seq<RootEntity>,
    ours: Seq<RootEntity>,
    theirs: Seq<RootEntity>,
    fa: Seq<FieldDelta>,
    fb: Seq<FieldDelta>,
    spent: int,
)
    ensures
        match (
            judge_fold(entry_union(a, b), base, ours, theirs, fa, fb, spent),
            judge_fold(entry_union(b, a), base, theirs, ours, fb, fa, spent),
        ) {
            (Ok((x, v)), Ok((y, u))) => v == u && y == (
                x.0.map_values(|c: ConflictEntry| swap_objects(c)),
                x.1,
                x.2,
                x.3,
            ),
            (Err(e), Err(f)) => e == f,
            _ => false,
        },
{
    lemma_entry_union_swap(a, b);
    lemma_fold_swap(entry_union(a, b), base, ours, theirs, fa, fb, spent);
}

} // verus!
