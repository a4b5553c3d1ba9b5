//! Composing an entity that both sides of a merge changed, field by field:
//! a field one side changed is taken from that side; a field both changed
//! is an identity set merged member by member when the kind's field is a
//! set, the shared value when both sides agree, and a conflict otherwise.

use vstd::prelude::*;

use crate::compare_fields::{
    copy_value, copy_values, field_delta_views, field_value_views, values_equal, FieldValue,
    FieldValueView,
};
use crate::compare_roots::{difference, set_difference};
use crate::delta::{FieldDelta, FieldView};
use crate::digest::digests_view;
use crate::gc::contains_id;
use crate::merge::{MergeError, MergeErrorCode, Work, MAX_MERGE_WORK};

verus! {

/// The (kind, field) pairs whose values are identity sets, merged member by
/// member when both sides changed them.
pub open spec fn set_field_spec(kind: u32, field: u32) -> bool {
    ||| kind == 1 && (field == 1 || field == 3 || field == 4 || field == 5)
    ||| kind == 2 && (field == 3 || field == 4)
    ||| kind == 3 && field == 2
    ||| kind == 4 && field == 3
    ||| kind == 5 && (field == 4 || field == 7)
    ||| kind == 12 && field == 3
    ||| kind == 15 && field == 6
    ||| kind == 17 && field == 2
}

/// Returns whether field `field` of an entity of `kind` is an identity set.
pub fn is_set_field(kind: u32, field: u32) -> (r: bool)
    ensures
        r == set_field_spec(kind, field),
{
    (kind == 1 && (field == 1 || field == 3 || field == 4 || field == 5)) || (kind == 2 && (field == 3
        || field == 4)) || (kind == 3 && field == 2) || (kind == 4 && field == 3) || (kind == 5 && (field
        == 4 || field == 7)) || (kind == 12 && field == 3) || (kind == 15 && field == 6) || (kind == 17
        && field == 2)
}

/// Field numbers strictly ascend.
pub open spec fn numbers_ascending(s: Seq<u32>) -> bool {
    forall|i: int, j: int| 0 <= i < j < s.len() ==> #[trigger] s[i] < #[trigger] s[j]
}

/// The field numbers of a list of field entries.
pub open spec fn field_numbers(fs: Seq<FieldView>) -> Seq<u32> {
    fs.map_values(|f: FieldView| f.2)
}

/// `r` lists, ascending and once each, the fields either side changed.
pub open spec fn is_field_union(r: Seq<u32>, a: Seq<FieldView>, b: Seq<FieldView>) -> bool {
    &&& numbers_ascending(r)
    &&& forall|x: u32| #![trigger r.contains(x)] r.contains(x) <==> field_numbers(a).contains(x)
        || field_numbers(b).contains(x)
}

/// The fields either side changed, ascending, each once.
pub open spec fn field_union(a: Seq<FieldView>, b: Seq<FieldView>) -> Seq<u32> {
    choose|r: Seq<u32>| is_field_union(r, a, b)
}

proof fn lemma_numbers_unique(a: Seq<u32>, b: Seq<u32>)
    requires
        numbers_ascending(a),
        numbers_ascending(b),
        forall|x: u32| a.contains(x) <==> b.contains(x),
    ensures
        a == b,
    decreases a.len(),
{
    if a.len() == 0 {
        if b.len() > 0 {
            assert(b.contains(b[0]));
        }
        assert(a =~= b);
    } else {
        assert(a.contains(a[0]));
        assert(b.len() > 0);
        assert(b.contains(b[0]));
        let j = choose|j: int| 0 <= j < a.len() && a[j] == b[0];
        let k = choose|k: int| 0 <= k < b.len() && b[k] == a[0];
        if j > 0 {
            assert(a[0] < a[j]);
        }
        if k > 0 {
            assert(b[0] < b[k]);
        }
        assert(a[0] == b[0]);
        let at = a.drop_first();
        let bt = b.drop_first();
        assert forall|x: u32| at.contains(x) <==> bt.contains(x) by {
            if at.contains(x) {
                let p = choose|p: int| 0 <= p < at.len() && at[p] == x;
                assert(a[p + 1] == x);
                assert(a[0] < a[p + 1]);
                assert(b.contains(x));
                let q = choose|q: int| 0 <= q < b.len() && b[q] == x;
                assert(q != 0);
                assert(bt[q - 1] == x);
            }
            if bt.contains(x) {
                let p = choose|p: int| 0 <= p < bt.len() && bt[p] == x;
                assert(b[p + 1] == x);
                assert(b[0] < b[p + 1]);
                assert(a.contains(x));
                let q = choose|q: int| 0 <= q < a.len() && a[q] == x;
                assert(q != 0);
                assert(at[q - 1] == x);
            }
        }
        assert forall|i: int, i2: int| 0 <= i < i2 < at.len() implies #[trigger] at[i] < #[trigger] at[i2] by {
            assert(at[i] == a[i + 1] && at[i2] == a[i2 + 1]);
        }
        assert forall|i: int, i2: int| 0 <= i < i2 < bt.len() implies #[trigger] bt[i] < #[trigger] bt[i2] by {
            assert(bt[i] == b[i + 1] && bt[i2] == b[i2 + 1]);
        }
        lemma_numbers_unique(at, bt);
        assert(a =~= seq![a[0]] + at);
        assert(b =~= seq![b[0]] + bt);
    }
}

/// The last entry for field `f`, if any.
pub open spec fn delta_for(fs: Seq<FieldView>, f: u32) -> Option<FieldView>
    decreases fs.len(),
{
    if fs.len() == 0 {
        None
    } else if fs.last().2 == f {
        Some(fs.last())
    } else {
        delta_for(fs.drop_last(), f)
    }
}

/// Some identity of `x` is in `y`.
pub open spec fn intersects(x: Seq<Seq<u8>>, y: Seq<Seq<u8>>) -> bool {
    exists|i: int| 0 <= i < x.len() && y.contains(#[trigger] x[i])
}

/// One field of the composition: `body` so far, the three bodies, and
/// each side's entry for the field, if it changed it.
pub open spec fn compose_step(
    kind: u32,
    f: u32,
    body: Seq<FieldValueView>,
    base: Seq<FieldValueView>,
    ours: Seq<FieldValueView>,
    theirs: Seq<FieldValueView>,
    da: Option<FieldView>,
    db: Option<FieldView>,
) -> Result<Result<Seq<FieldValueView>, u32>, MergeError> {
    let i = f - 1;
    let in_range = 1 <= f && f <= body.len();
    match (da, db) {
        (Some(_), None) => if in_range {
            Ok(Ok(body.update(i, ours[i])))
        } else {
            Err(MergeError::Merge(MergeErrorCode::InternalInvariant))
        },
        (None, Some(_)) => if in_range {
            Ok(Ok(body.update(i, theirs[i])))
        } else {
            Err(MergeError::Merge(MergeErrorCode::InternalInvariant))
        },
        (Some(x), Some(y)) => if set_field_spec(kind, f) {
            if intersects(x.4, y.5) || intersects(x.5, y.4) {
                Ok(Err(f))
            } else if in_range && base[i] is Identities {
                Ok(
                    Ok(
                        body.update(
                            i,
                            FieldValueView::Identities(
                                difference(base[i]->Identities_0 + x.4 + y.4, x.5 + y.5),
                            ),
                        ),
                    ),
                )
            } else {
                Err(MergeError::Merge(MergeErrorCode::InternalInvariant))
            }
        } else if in_range && ours[i] == theirs[i] {
            Ok(Ok(body.update(i, ours[i])))
        } else {
            Ok(Err(f))
        },
        (None, None) => Ok(Ok(body)),
    }
}

/// The composition over the fields `fs` in turn, each charging one unit
/// of work: the composed body and the work spent, the first conflicting
/// field and the work spent up to it, or the first failure.
pub open spec fn compose_fold(
    kind: u32,
    fs: Seq<u32>,
    base: Seq<FieldValueView>,
    ours: Seq<FieldValueView>,
    theirs: Seq<FieldValueView>,
    da: Seq<FieldView>,
    db: Seq<FieldView>,
    spent: int,
) -> Result<Result<(Seq<FieldValueView>, int), (u32, int)>, MergeError>
    decreases fs.len(),
{
    if fs.len() == 0 {
        Ok(Ok((base, spent)))
    } else {
        match compose_fold(kind, fs.drop_last(), base, ours, theirs, da, db, spent) {
            Err(e) => Err(e),
            Ok(Err(c)) => Ok(Err(c)),
            Ok(Ok((body, w))) => if w + 1 > MAX_MERGE_WORK {
                Err(MergeError::Merge(MergeErrorCode::ResourceLimit))
            } else {
                let f = fs.last();
                match compose_step(kind, f, body, base, ours, theirs, delta_for(da, f), delta_for(db, f)) {
                    Err(e) => Err(e),
                    Ok(Err(g)) => Ok(Err((g, w + 1))),
                    Ok(Ok(nb)) => Ok(Ok((nb, w + 1))),
                }
            },
        }
    }
}

fn insert_number(out: &mut Vec<u32>, x: u32)
    requires
        numbers_ascending(old(out)@),
    ensures
        numbers_ascending(final(out)@),
        forall|y: u32| #![trigger final(out)@.contains(y)] final(out)@.contains(y) <==> old(out)@.contains(y) || y == x,
{
    let ghost ov = out@;
    let mut p: usize = 0;
    while p < out.len() && out[p] < x
        invariant
            p <= out@.len(),
            out@ == ov,
            forall|k: int| 0 <= k < p ==> #[trigger] ov[k] < x,
        decreases out.len() - p,
    {
        p = p + 1;
    }
    if p < out.len() && out[p] == x {
        proof {
            assert forall|y: u32| #![trigger ov.contains(y)] ov.contains(y) <==> ov.contains(y) || y == x by {
                if y == x {
                    assert(ov[p as int] == x);
                }
            }
        }
        return;
    }
    out.insert(p, x);
    proof {
        let nv = out@;
        assert(nv == ov.insert(p as int, x));
        assert forall|i: int, j: int| 0 <= i < j < nv.len() implies #[trigger] nv[i] < #[trigger] nv[j] by {
            if j < p {
                assert(nv[i] == ov[i] && nv[j] == ov[j]);
            } else if j == p {
                assert(nv[i] == ov[i]);
            } else if i < p {
                assert(nv[i] == ov[i] && nv[j] == ov[j - 1]);
            } else if i == p {
                assert(nv[j] == ov[j - 1]);
                assert(ov[p as int] >= x);
                if j - 1 > p {
                    assert(ov[p as int] < ov[j - 1]);
                }
                assert(ov[p as int] != x);
            } else {
                assert(nv[i] == ov[i - 1] && nv[j] == ov[j - 1]);
            }
        }
        assert forall|y: u32| #![trigger nv.contains(y)] nv.contains(y) <==> ov.contains(y) || y == x by {
            if nv.contains(y) {
                let k = choose|k: int| 0 <= k < nv.len() && nv[k] == y;
                if k < p {
                    assert(ov[k] == y);
                } else if k > p {
                    assert(ov[k - 1] == y);
                }
            }
            if ov.contains(y) {
                let k = choose|k: int| 0 <= k < ov.len() && ov[k] == y;
                if k < p {
                    assert(nv[k] == y);
                } else {
                    assert(nv[k + 1] == y);
                }
            }
            if y == x {
                assert(nv[p as int] == x);
            }
        }
    }
}

fn add_numbers(out: &mut Vec<u32>, fs: &Vec<FieldDelta>)
    requires
        numbers_ascending(old(out)@),
    ensures
        numbers_ascending(final(out)@),
        forall|y: u32|
            #![trigger final(out)@.contains(y)]
            final(out)@.contains(y) <==> old(out)@.contains(y) || field_numbers(field_delta_views(fs@)).contains(y),
{
    let ghost start = out@;
    let ghost nums = field_numbers(field_delta_views(fs@));
    let mut i: usize = 0;
    while i < fs.len()
        invariant
            i <= fs@.len(),
            nums == field_numbers(field_delta_views(fs@)),
            numbers_ascending(out@),
            forall|y: u32| #![trigger out@.contains(y)] out@.contains(y) <==> start.contains(y) || nums.take(i as int).contains(y),
        decreases fs.len() - i,
    {
        let ghost before = out@;
        assert(nums[i as int] == fs@[i as int].field);
        insert_number(out, fs[i].field);
        proof {
            assert(nums.take(i + 1) =~= nums.take(i as int).push(nums[i as int]));
            assert forall|y: u32| #![trigger out@.contains(y)] out@.contains(y) <==> start.contains(y) || nums.take(i + 1).contains(y) by {
                let pre = nums.take(i + 1);
                if pre.contains(y) {
                    let k = choose|k: int| 0 <= k < pre.len() && pre[k] == y;
                    if k < i {
                        assert(nums.take(i as int)[k] == y);
                        assert(nums.take(i as int).contains(y));
                    }
                }
                let old_pre = nums.take(i as int);
                if old_pre.contains(y) {
                    let k = choose|k: int| 0 <= k < old_pre.len() && old_pre[k] == y;
                    assert(pre[k] == y);
                }
                if y == nums[i as int] {
                    assert(nums.take(i + 1)[i as int] == y);
                }
            }
        }
        i = i + 1;
    }
    assert(nums.take(i as int) =~= nums);
}

fn last_entry_for(fs: &Vec<FieldDelta>, f: u32) -> (r: Option<usize>)
    ensures
        match r {
            Some(k) => k < fs@.len() && delta_for(field_delta_views(fs@), f) == Some(field_delta_views(fs@)[k as int]),
            None => delta_for(field_delta_views(fs@), f) is None,
        },
{
    let ghost v = field_delta_views(fs@);
    let mut n: usize = fs.len();
    assert(v.take(n as int) =~= v);
    while n > 0
        invariant
            n <= fs@.len(),
            v == field_delta_views(fs@),
            delta_for(v, f) == delta_for(v.take(n as int), f),
        decreases n,
    {
        let ghost t = v.take(n as int);
        assert(t.last() == fs@[n - 1]@);
        assert(t.drop_last() =~= v.take(n - 1));
        if fs[n - 1].field == f {
            return Some(n - 1);
        }
        n = n - 1;
    }
    None
}

fn any_shared(x: &Vec<[u8; 32]>, y: &Vec<[u8; 32]>) -> (r: bool)
    ensures
        r == intersects(digests_view(x@), digests_view(y@)),
{
    let mut i: usize = 0;
    while i < x.len()
        invariant
            i <= x@.len(),
            forall|k: int| 0 <= k < i ==> !digests_view(y@).contains(#[trigger] digests_view(x@)[k]),
        decreases x.len() - i,
    {
        if contains_id(y, &x[i]) {
            assert(digests_view(x@)[i as int] == x@[i as int]@);
            return true;
        }
        i = i + 1;
    }
    false
}

fn joined(a: &Vec<[u8; 32]>, b: &Vec<[u8; 32]>) -> (r: Vec<[u8; 32]>)
    ensures
        digests_view(r@) == digests_view(a@) + digests_view(b@),
{
    let mut out: Vec<[u8; 32]> = Vec::new();
    let mut i: usize = 0;
    while i < a.len()
        invariant
            i <= a@.len(),
            digests_view(out@) == digests_view(a@).take(i as int),
        decreases a.len() - i,
    {
        let ghost before = digests_view(out@);
        out.push(a[i]);
        assert(digests_view(out@) =~= before.push(a@[i as int]@));
        assert(digests_view(a@).take(i + 1) =~= digests_view(a@).take(i as int).push(a@[i as int]@));
        i = i + 1;
    }
    let mut j: usize = 0;
    assert(digests_view(a@).take(i as int) =~= digests_view(a@));
    while j < b.len()
        invariant
            j <= b@.len(),
            digests_view(out@) == digests_view(a@) + digests_view(b@).take(j as int),
        decreases b.len() - j,
    {
        let ghost before = digests_view(out@);
        out.push(b[j]);
        assert(digests_view(out@) =~= before.push(b@[j as int]@));
        assert(digests_view(b@).take(j + 1) =~= digests_view(b@).take(j as int).push(b@[j as int]@));
        j = j + 1;
    }
    assert(digests_view(b@).take(j as int) =~= digests_view(b@));
    out
}

/// Once the composition stops on a prefix of the fields, with a failure or
/// a conflict, it stops the same way on all of them.
proof fn lemma_compose_prefix(
    kind: u32,
    fs: Seq<u32>,
    k: int,
    base: Seq<FieldValueView>,
    ours: Seq<FieldValueView>,
    theirs: Seq<FieldValueView>,
    da: Seq<FieldView>,
    db: Seq<FieldView>,
    spent: int,
)
    requires
        0 <= k <= fs.len(),
    ensures
        !(compose_fold(kind, fs.take(k), base, ours, theirs, da, db, spent) is Ok && compose_fold(
            kind,
            fs.take(k),
            base,
            ours,
            theirs,
            da,
            db,
            spent,
        )->Ok_0 is Ok) ==> compose_fold(kind, fs, base, ours, theirs, da, db, spent) == compose_fold(
            kind,
            fs.take(k),
            base,
            ours,
            theirs,
            da,
            db,
            spent,
        ),
    decreases fs.len() - k,
{
    if k < fs.len() {
        lemma_compose_prefix(kind, fs, k + 1, base, ours, theirs, da, db, spent);
        assert(fs.take(k + 1).drop_last() =~= fs.take(k));
    } else {
        assert(fs.take(k) =~= fs);
    }
}

proof fn lemma_entry_ids(d: FieldDelta)
    ensures
        d@.4 == digests_view(d.added@),
        d@.5 == digests_view(d.removed@),
{
    assert(d@.4 =~= digests_view(d.added@));
    assert(d@.5 =~= digests_view(d.removed@));
}

/// Composes an entity both sides changed from the base body and the two
/// sides' bodies and field entries: the fields either side changed, in
/// ascending order, each charging one unit of work. Returns the composed
/// body, or the first field that conflicts; no changed field at all is an
/// internal invariant failure.
#[verifier::loop_isolation(false)]
#[verifier::rlimit(80)]
pub fn compose_fields(
    kind: u32,
    base: &Vec<FieldValue>,
    ours: &Vec<FieldValue>,
    theirs: &Vec<FieldValue>,
    fields_a: &Vec<FieldDelta>,
    fields_b: &Vec<FieldDelta>,
    work: &mut Work,
) -> (r: Result<Result<Vec<FieldValue>, u32>, MergeError>)
    requires
        old(work).spent() <= MAX_MERGE_WORK,
        base@.len() == ours@.len(),
        base@.len() == theirs@.len(),
    ensures
        ({
            let da = field_delta_views(fields_a@);
            let db = field_delta_views(fields_b@);
            let fs = field_union(da, db);
            if fs.len() == 0 {
                r == Err::<Result<Vec<FieldValue>, u32>, MergeError>(
                    MergeError::Merge(MergeErrorCode::InternalInvariant),
                ) && final(work).spent() == old(work).spent()
            } else {
                match compose_fold(
                    kind,
                    fs,
                    field_value_views(base@),
                    field_value_views(ours@),
                    field_value_views(theirs@),
                    da,
                    db,
                    old(work).spent() as int,
                ) {
                    Err(e) => r == Err::<Result<Vec<FieldValue>, u32>, MergeError>(e),
                    Ok(Err((f, w))) => r == Ok::<Result<Vec<FieldValue>, u32>, MergeError>(Err(f))
                        && final(work).spent() == w,
                    Ok(Ok((body, w))) => r is Ok && r->Ok_0 is Ok && field_value_views(r->Ok_0->Ok_0@) == body
                        && final(work).spent() == w,
                }
            }
        }),
{
    let ghost da = field_delta_views(fields_a@);
    let ghost db = field_delta_views(fields_b@);
    let ghost bv = field_value_views(base@);
    let ghost ov = field_value_views(ours@);
    let ghost tv = field_value_views(theirs@);
    let ghost s0 = work.spent() as int;
    let mut numbers: Vec<u32> = Vec::new();
    add_numbers(&mut numbers, fields_a);
    add_numbers(&mut numbers, fields_b);
    proof {
        assert(is_field_union(numbers@, da, db));
        let u = field_union(da, db);
        assert(is_field_union(u, da, db));
        lemma_numbers_unique(numbers@, u);
    }
    let ghost fs = numbers@;
    if numbers.len() == 0 {
        return Err(MergeError::Merge(MergeErrorCode::InternalInvariant));
    }
    let mut body = copy_values(base);
    let mut k: usize = 0;
    assert(fs.take(0) =~= Seq::<u32>::empty());
    assert(field_value_views(body@).len() == body@.len());
    assert(field_value_views(base@).len() == base@.len());
    while k < numbers.len()
        invariant
            k <= numbers@.len(),
            fs == numbers@,
            body@.len() == base@.len(),
            compose_fold(kind, fs.take(k as int), bv, ov, tv, da, db, s0) == Ok::<
                    Result<(Seq<FieldValueView>, int), (u32, int)>,
                MergeError,
            >(Ok((field_value_views(body@), work.spent() as int))),
            work.spent() <= MAX_MERGE_WORK,
        decreases numbers.len() - k,
    {
        let ghost t = fs.take(k + 1);
        let ghost cur = field_value_views(body@);
        proof {
            assert(t.drop_last() =~= fs.take(k as int));
            assert(t.last() == numbers@[k as int]);
            lemma_compose_prefix(kind, fs, k + 1, bv, ov, tv, da, db, s0);
        }
        let f = numbers[k];
        work.charge(1)?;
        let ia = last_entry_for(fields_a, f);
        let ib = last_entry_for(fields_b, f);
        let in_range = f != 0 && (f as usize) <= body.len();
        match (ia, ib) {
            (Some(_), None) => {
                if !in_range {
                    return Err(MergeError::Merge(MergeErrorCode::InternalInvariant));
                }
                let i = (f - 1) as usize;
                let v = copy_value(&ours[i]);
                body.set(i, v);
                proof {
                    assert(field_value_views(body@) =~= cur.update(i as int, ov[i as int]));
                }
            },
            (None, Some(_)) => {
                if !in_range {
                    return Err(MergeError::Merge(MergeErrorCode::InternalInvariant));
                }
                let i = (f - 1) as usize;
                let v = copy_value(&theirs[i]);
                body.set(i, v);
                proof {
                    assert(field_value_views(body@) =~= cur.update(i as int, tv[i as int]));
                }
            },
            (Some(x), Some(y)) => {
                let xa = &fields_a[x];
                let yb = &fields_b[y];
                proof {
                    lemma_entry_ids(*xa);
                    lemma_entry_ids(*yb);
                }
                if is_set_field(kind, f) {
                    if any_shared(&xa.added, &yb.removed) || any_shared(&xa.removed, &yb.added) {
                        return Ok(Err(f));
                    }
                    if !in_range {
                        return Err(MergeError::Merge(MergeErrorCode::InternalInvariant));
                    }
                    let i = (f - 1) as usize;
                    match &base[i] {
                        FieldValue::Identities(ids) => {
                            let from = joined(&joined(ids, &xa.added), &yb.added);
                            let excluded = joined(&xa.removed, &yb.removed);
                            let (merged, _) = set_difference(&excluded, &from);
                            proof {
                                assert(bv[i as int] == base@[i as int]@);
                            }
                            body.set(i, FieldValue::Identities(merged));
                            proof {
                                assert(field_value_views(body@) =~= cur.update(
                                    i as int,
                                    FieldValueView::Identities(
                                        difference(bv[i as int]->Identities_0 + xa@.4 + yb@.4, xa@.5 + yb@.5),
                                    ),
                                ));
                            }
                        },
                        _ => {
                            proof {
                                assert(bv[i as int] == base@[i as int]@);
                            }
                            return Err(MergeError::Merge(MergeErrorCode::InternalInvariant));
                        },
                    }
                } else if in_range && values_equal(&ours[(f - 1) as usize], &theirs[(f - 1) as usize]) {
                    let i = (f - 1) as usize;
                    let v = copy_value(&ours[i]);
                    body.set(i, v);
                    proof {
                        assert(field_value_views(body@) =~= cur.update(i as int, ov[i as int]));
                    }
                } else {
                    proof {
                        if in_range {
                            assert(ov[(f - 1) as int] == ours@[(f - 1) as int]@);
                            assert(tv[(f - 1) as int] == theirs@[(f - 1) as int]@);
                        }
                    }
                    return Ok(Err(f));
                }
            },
            (None, None) => {},
        }
        k = k + 1;
    }
    proof {
        assert(fs.take(k as int) =~= fs);
    }
    Ok(Ok(body))
}

proof fn lemma_intersects_symmetric(x: Seq<Seq<u8>>, y: Seq<Seq<u8>>)
    ensures
        intersects(x, y) <==> intersects(y, x),
{
    if intersects(x, y) {
        let i = choose|i: int| 0 <= i < x.len() && y.contains(#[trigger] x[i]);
        let j = choose|j: int| 0 <= j < y.len() && y[j] == x[i];
        assert(x.contains(y[j]));
    }
    if intersects(y, x) {
        let j = choose|j: int| 0 <= j < y.len() && x.contains(#[trigger] y[j]);
        let i = choose|i: int| 0 <= i < x.len() && x[i] == y[j];
        assert(y.contains(x[i]));
    }
}

proof fn lemma_difference_swap(b: Seq<Seq<u8>>, xa: Seq<Seq<u8>>, ya: Seq<Seq<u8>>, xr: Seq<Seq<u8>>, yr: Seq<Seq<u8>>)
    ensures
        difference(b + xa + ya, xr + yr) == difference(b + ya + xa, yr + xr),
{
    let d1 = difference(b + xa + ya, xr + yr);
    let d2 = difference(b + ya + xa, yr + xr);
    crate::compare_roots::lemma_difference_exists(b + xa + ya, xr + yr);
    crate::compare_roots::lemma_difference_exists(b + ya + xa, yr + xr);
    assert forall|z: Seq<u8>| d1.contains(z) <==> d2.contains(z) by {
        lemma_concat3_contains(b, xa, ya, z);
        lemma_concat3_contains(b, ya, xa, z);
        lemma_concat2_contains(xr, yr, z);
        lemma_concat2_contains(yr, xr, z);
    }
    crate::compare_roots::lemma_ascending_unique(d1, d2);
}

proof fn lemma_concat2_contains(a: Seq<Seq<u8>>, b: Seq<Seq<u8>>, z: Seq<u8>)
    ensures
        (a + b).contains(z) <==> a.contains(z) || b.contains(z),
{
    if (a + b).contains(z) {
        let k = choose|k: int| 0 <= k < (a + b).len() && (a + b)[k] == z;
        if k < a.len() {
            assert(a[k] == z);
        } else {
            assert(b[k - a.len()] == z);
        }
    }
    if a.contains(z) {
        let k = choose|k: int| 0 <= k < a.len() && a[k] == z;
        assert((a + b)[k] == z);
    }
    if b.contains(z) {
        let k = choose|k: int| 0 <= k < b.len() && b[k] == z;
        assert((a + b)[a.len() + k] == z);
    }
}

proof fn lemma_concat3_contains(a: Seq<Seq<u8>>, b: Seq<Seq<u8>>, c: Seq<Seq<u8>>, z: Seq<u8>)
    ensures
        (a + b + c).contains(z) <==> a.contains(z) || b.contains(z) || c.contains(z),
{
    lemma_concat2_contains(a, b, z);
    lemma_concat2_contains(a + b, c, z);
}

proof fn lemma_step_symmetric(
    kind: u32,
    f: u32,
    body: Seq<FieldValueView>,
    base: Seq<FieldValueView>,
    ours: Seq<FieldValueView>,
    theirs: Seq<FieldValueView>,
    da: Option<FieldView>,
    db: Option<FieldView>,
)
    ensures
        compose_step(kind, f, body, base, ours, theirs, da, db) == compose_step(
            kind,
            f,
            body,
            base,
            theirs,
            ours,
            db,
            da,
        ),
{
    match (da, db) {
        (Some(x), Some(y)) => {
            lemma_intersects_symmetric(x.4, y.5);
            lemma_intersects_symmetric(x.5, y.4);
            if 1 <= f && f <= body.len() && base[f - 1] is Identities {
                lemma_difference_swap(base[f - 1]->Identities_0, x.4, y.4, x.5, y.5);
            }
        },
        _ => {},
    }
}

/// Composing an entity does not depend on which side is ours: swapping the
/// two sides' bodies and field entries gives the same composed body, the
/// same conflicting field or the same failure, and the same work.
pub proof fn lemma_compose_symmetric(
    kind: u32,
    fs: Seq<u32>,
    base: Seq<FieldValueView>,
    ours: Seq<FieldValueView>,
    theirs: Seq<FieldValueView>,
    da: Seq<FieldView>,
    db: Seq<FieldView>,
    spent: int,
)
    ensures
        compose_fold(kind, fs, base, ours, theirs, da, db, spent) == compose_fold(
            kind,
            fs,
            base,
            theirs,
            ours,
            db,
            da,
            spent,
        ),
        field_union(da, db) == field_union(db, da),
    decreases fs.len(),
{
    if fs.len() > 0 {
        lemma_compose_symmetric(kind, fs.drop_last(), base, ours, theirs, da, db, spent);
        match compose_fold(kind, fs.drop_last(), base, ours, theirs, da, db, spent) {
            Ok(Ok((body, w))) => {
                let f = fs.last();
                lemma_step_symmetric(kind, f, body, base, ours, theirs, delta_for(da, f), delta_for(db, f));
            },
            _ => {},
        }
    }
    lemma_union_symmetric(da, db);
}

proof fn lemma_union_symmetric(da: Seq<FieldView>, db: Seq<FieldView>)
    ensures
        field_union(da, db) == field_union(db, da),
{
    lemma_field_union_exists(da, db);
    lemma_field_union_exists(db, da);
    let u1 = field_union(da, db);
    let u2 = field_union(db, da);
    assert forall|x: u32| u1.contains(x) <==> u2.contains(x) by {
        assert(u1.contains(x) <==> field_numbers(da).contains(x) || field_numbers(db).contains(x));
        assert(u2.contains(x) <==> field_numbers(db).contains(x) || field_numbers(da).contains(x));
    }
    lemma_numbers_unique(u1, u2);
}

proof fn lemma_field_union_exists(da: Seq<FieldView>, db: Seq<FieldView>)
    ensures
        is_field_union(field_union(da, db), da, db),
    decreases da.len() + db.len(),
{
    let w = field_union_witness(field_numbers(da) + field_numbers(db));
    assert forall|x: u32| #![trigger w.contains(x)] w.contains(x) <==> field_numbers(da).contains(x)
        || field_numbers(db).contains(x) by {
        let all = field_numbers(da) + field_numbers(db);
        if all.contains(x) {
            let k = choose|k: int| 0 <= k < all.len() && all[k] == x;
            if k < field_numbers(da).len() {
                assert(field_numbers(da)[k] == x);
            } else {
                assert(field_numbers(db)[k - field_numbers(da).len()] == x);
            }
        }
        if field_numbers(da).contains(x) {
            let k = choose|k: int| 0 <= k < field_numbers(da).len() && field_numbers(da)[k] == x;
            assert(all[k] == x);
        }
        if field_numbers(db).contains(x) {
            let k = choose|k: int| 0 <= k < field_numbers(db).len() && field_numbers(db)[k] == x;
            assert(all[field_numbers(da).len() + k] == x);
        }
    }
    assert(is_field_union(w, da, db));
}

proof fn lemma_number_insert_point(t: Seq<u32>, x: u32) -> (p: int)
    requires
        numbers_ascending(t),
        !t.contains(x),
    ensures
        0 <= p <= t.len(),
        forall|k: int| 0 <= k < p ==> #[trigger] t[k] < x,
        p < t.len() ==> x < t[p],
    decreases t.len(),
{
    if t.len() == 0 {
        0
    } else if t.last() < x {
        assert forall|k: int| 0 <= k < t.len() implies #[trigger] t[k] < x by {
            if k < t.len() - 1 {
                assert(t[k] < t[t.len() - 1]);
            }
        }
        t.len() as int
    } else {
        assert(t.last() != x) by {
            assert(t[t.len() - 1] == t.last());
        }
        let u = t.drop_last();
        assert forall|i: int, j: int| 0 <= i < j < u.len() implies #[trigger] u[i] < #[trigger] u[j] by {
            assert(u[i] == t[i] && u[j] == t[j]);
        }
        if u.contains(x) {
            let k = choose|k: int| 0 <= k < u.len() && u[k] == x;
            assert(t[k] == x);
        }
        let p = lemma_number_insert_point(u, x);
        assert forall|k: int| 0 <= k < p implies #[trigger] t[k] < x by {
            assert(t[k] == u[k]);
        }
        if p < u.len() {
            assert(t[p] == u[p]);
        }
        p
    }
}

/// An ascending list of the members of `s`, each once.
proof fn field_union_witness(s: Seq<u32>) -> (w: Seq<u32>)
    ensures
        numbers_ascending(w),
        forall|x: u32| w.contains(x) <==> s.contains(x),
    decreases s.len(),
{
    if s.len() == 0 {
        Seq::empty()
    } else {
        let t = field_union_witness(s.drop_last());
        let x = s.last();
        assert forall|y: u32| s.contains(y) <==> s.drop_last().contains(y) || y == x by {
            if s.contains(y) {
                let k = choose|k: int| 0 <= k < s.len() && s[k] == y;
                if k < s.len() - 1 {
                    assert(s.drop_last()[k] == y);
                }
            }
            if s.drop_last().contains(y) {
                let k = choose|k: int| 0 <= k < s.drop_last().len() && s.drop_last()[k] == y;
                assert(s[k] == y);
            }
            if y == x {
                assert(s[s.len() - 1] == y);
            }
        }
        if t.contains(x) {
            t
        } else {
            let p = lemma_number_insert_point(t, x);
            let w = t.insert(p, x);
            assert forall|i: int, j: int| 0 <= i < j < w.len() implies #[trigger] w[i] < #[trigger] w[j] by {
                if j < p {
                    assert(w[i] == t[i] && w[j] == t[j]);
                } else if j == p {
                    assert(w[i] == t[i]);
                } else if i < p {
                    assert(w[i] == t[i] && w[j] == t[j - 1]);
                } else if i == p {
                    assert(w[j] == t[j - 1]);
                    if j - 1 > p {
                        assert(t[p] < t[j - 1]);
                    }
                } else {
                    assert(w[i] == t[i - 1] && w[j] == t[j - 1]);
                }
            }
            assert forall|y: u32| w.contains(y) <==> t.contains(y) || y == x by {
                if w.contains(y) {
                    let k = choose|k: int| 0 <= k < w.len() && w[k] == y;
                    if k < p {
                        assert(t[k] == y);
                    } else if k > p {
                        assert(t[k - 1] == y);
                    }
                }
                if t.contains(y) {
                    let k = choose|k: int| 0 <= k < t.len() && t[k] == y;
                    if k < p {
                        assert(w[k] == y);
                    } else {
                        assert(w[k + 1] == y);
                    }
                }
                if y == x {
                    assert(w[p] == x);
                }
            }
            w
        }
    }
}

/// A composition that succeeds stays within the work budget it started in.
pub proof fn lemma_compose_within(
    kind: u32,
    fs: Seq<u32>,
    base: Seq<FieldValueView>,
    ours: Seq<FieldValueView>,
    theirs: Seq<FieldValueView>,
    da: Seq<FieldView>,
    db: Seq<FieldView>,
    spent: int,
)
    requires
        spent <= MAX_MERGE_WORK,
    ensures
        compose_fold(kind, fs, base, ours, theirs, da, db, spent) matches Ok(Ok((_, w))) ==> spent <= w
            <= MAX_MERGE_WORK,
        compose_fold(kind, fs, base, ours, theirs, da, db, spent) matches Ok(Err((_, w))) ==> spent <= w
            <= MAX_MERGE_WORK,
    decreases fs.len(),
{
    if fs.len() > 0 {
        lemma_compose_within(kind, fs.drop_last(), base, ours, theirs, da, db, spent);
    }
}


/// When both sides changed one of the identity-set fields (the members,
/// requirements, exports and dependency lists of the kinds that have them:
/// kind 1 fields 1, 3, 4 and 5; kind 2 fields 3 and 4; kind 3 field 2;
/// kind 4 field 3; kind 5 fields 4 and 7; kind 12 field 3; kind 15 field 6;
/// kind 17 field 2), and neither side removed a member the other added, the
/// field composes member by member: it holds exactly the members that the
/// base or either side's additions hold and neither side's removals, and
/// the rest of the body is unchanged. Two disjoint additions to the same
/// list thus compose to their union instead of a conflict.
pub proof fn lemma_set_field_edits_merge_members(
    kind: u32,
    f: u32,
    body: Seq<FieldValueView>,
    base: Seq<FieldValueView>,
    ours: Seq<FieldValueView>,
    theirs: Seq<FieldValueView>,
    x: FieldView,
    y: FieldView,
)
    requires
        (kind, f) == (1u32, 1u32) || (kind, f) == (1u32, 3u32) || (kind, f) == (1u32, 4u32) || (kind, f)
            == (1u32, 5u32) || (kind, f) == (2u32, 3u32) || (kind, f) == (2u32, 4u32) || (kind, f) == (
        3u32, 2u32) || (kind, f) == (4u32, 3u32) || (kind, f) == (5u32, 4u32) || (kind, f) == (5u32, 7u32)
            || (kind, f) == (12u32, 3u32) || (kind, f) == (15u32, 6u32) || (kind, f) == (17u32, 2u32),
        1 <= f <= body.len(),
        f <= base.len(),
        base[f - 1] is Identities,
        forall|z: Seq<u8>| x.4.contains(z) ==> !y.5.contains(z),
        forall|z: Seq<u8>| y.4.contains(z) ==> !x.5.contains(z),
    ensures
        compose_step(kind, f, body, base, ours, theirs, Some(x), Some(y)) matches Ok(Ok(nb)) && nb.len()
            == body.len() && (forall|i: int| 0 <= i < body.len() && i != f - 1 ==> nb[i] == body[i])
            && nb[f - 1] is Identities && (forall|z: Seq<u8>|
            #![trigger nb[f - 1]->Identities_0.contains(z)]
            nb[f - 1]->Identities_0.contains(z) <==> (base[f - 1]->Identities_0.contains(z) || x.4.contains(z)
                || y.4.contains(z)) && !x.5.contains(z) && !y.5.contains(z)),
{
    assert(!intersects(x.4, y.5)) by {
        if intersects(x.4, y.5) {
            let i = choose|i: int| 0 <= i < x.4.len() && y.5.contains(#[trigger] x.4[i]);
            assert(x.4.contains(x.4[i]));
        }
    }
    assert(!intersects(x.5, y.4)) by {
        if intersects(x.5, y.4) {
            let i = choose|i: int| 0 <= i < x.5.len() && y.4.contains(#[trigger] x.5[i]);
            assert(x.5.contains(x.5[i]));
        }
    }
    let b = base[f - 1]->Identities_0;
    let d = difference(b + x.4 + y.4, x.5 + y.5);
    crate::compare_roots::lemma_difference_exists(b + x.4 + y.4, x.5 + y.5);
    let nb = body.update(f - 1, FieldValueView::Identities(d));
    assert(compose_step(kind, f, body, base, ours, theirs, Some(x), Some(y)) == Ok::<
        Result<Seq<FieldValueView>, u32>,
        MergeError,
    >(Ok(nb)));
    assert forall|z: Seq<u8>| #![trigger nb[f - 1]->Identities_0.contains(z)]
        nb[f - 1]->Identities_0.contains(z) <==> (b.contains(z) || x.4.contains(z) || y.4.contains(z))
            && !x.5.contains(z) && !y.5.contains(z) by {
        lemma_concat3_contains(b, x.4, y.4, z);
        lemma_concat2_contains(x.5, y.5, z);
    }
}

/// When both sides changed a field that is not one of the identity-set
/// fields listed above, the field is a single value: sides that disagree
/// on it give a conflict on that field.
pub proof fn lemma_scalar_field_edits_conflict(
    kind: u32,
    f: u32,
    body: Seq<FieldValueView>,
    base: Seq<FieldValueView>,
    ours: Seq<FieldValueView>,
    theirs: Seq<FieldValueView>,
    x: FieldView,
    y: FieldView,
)
    requires
        !((kind, f) == (1u32, 1u32) || (kind, f) == (1u32, 3u32) || (kind, f) == (1u32, 4u32) || (kind, f)
            == (1u32, 5u32) || (kind, f) == (2u32, 3u32) || (kind, f) == (2u32, 4u32) || (kind, f) == (
        3u32, 2u32) || (kind, f) == (4u32, 3u32) || (kind, f) == (5u32, 4u32) || (kind, f) == (5u32, 7u32)
            || (kind, f) == (12u32, 3u32) || (kind, f) == (15u32, 6u32) || (kind, f) == (17u32, 2u32)),
        1 <= f <= ours.len(),
        f <= theirs.len(),
        ours[f - 1] != theirs[f - 1],
    ensures
        compose_step(kind, f, body, base, ours, theirs, Some(x), Some(y)) == Ok::<
            Result<Seq<FieldValueView>, u32>,
            MergeError,
        >(Err(f)),
{
}

} // verus!
