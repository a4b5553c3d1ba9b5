//! A whole comparison, and the law that comparing in the other direction
//! mirrors it: entries mirrored, relations flipped, added and removed root
//! sets exchanged, and the same collateral set.

use vstd::prelude::*;

use crate::compare::{CompareError, CompareErrorCode, MAX_COMPARE_WORK};
use crate::compare_fields::{
    changed_fields, entities_pair, field_entries, field_entry, fields_pair, same_shape, FieldValueView,
};
use crate::compare_roots::{
    function_pair_views, FunctionPair,
    body_fold, bound_union, change_of, difference, entity_entry, entity_fold, pair_changed, pair_cost,
    relation_merge, BoundPair, FunctionPairView,
};
use crate::comparison::{
    compare_sections, finish_comparison, RootSide,
    closure_cost, collateral_spec, flip_relation, lemma_merge_swap, lemma_swapped_collateral_same,
    lemma_swapped_comparison_mirrors, lemma_union_same_identity, lemma_union_swap, mirror_entry, reached_ids,
    root_sets, same_identity, sections_spec, seed_ids, seeds_at, swap_pair, RootSideView,
};
use crate::compare::ChangeClass;
use crate::delta::SemanticDelta;
use crate::digest::digests_view;
use crate::delta::{
    BodyView, EntityView, FieldView, RelationView, MAX_BODY_DELTAS, MAX_ENTITY_DELTAS, MAX_FIELD_DELTAS,
    MAX_IDENTITY_SET, MAX_RELATION_DELTAS,
};

verus! {

/// What a whole comparison gives: entity, field, body and relation
/// entries and the five identity sets.
pub type ComparisonView = (Seq<EntityView>, Seq<FieldView>, Seq<BodyView>, Seq<RelationView>, Seq<Seq<Seq<u8>>>);

/// A whole comparison of two roots, given what each root's impact closure
/// reached from its seeds: `compare_sections` and then `finish_comparison`,
/// as their contracts state them.
pub open spec fn comparison_spec(
    base: RootSideView,
    target: RootSideView,
    fns: Seq<FunctionPairView>,
    base_reached: Seq<Seq<u8>>,
    target_reached: Seq<Seq<u8>>,
) -> Result<ComparisonView, CompareError> {
    if base.0 != target.0 {
        Err(CompareError::Compare(CompareErrorCode::WorkspaceMismatch))
    } else if base.1 != target.1 {
        Err(CompareError::Compare(CompareErrorCode::EpochMismatch))
    } else {
        match sections_spec(base, target, fns) {
            Err(e) => Err(e),
            Ok((es, fs, bs, rels, w)) => {
                let sb = difference(seed_ids(es, bs, true), Seq::empty());
                let st = difference(seed_ids(es, bs, false), Seq::empty());
                let col = collateral_spec(reached_ids(sb, base_reached, st, target_reached), base, target, es);
                let sets = root_sets(base, target, col);
                if w + closure_cost(sb, base_reached) + closure_cost(st, target_reached) > MAX_COMPARE_WORK {
                    Err(CompareError::Compare(CompareErrorCode::ResourceLimit))
                } else if col.len() > MAX_IDENTITY_SET || sets[0].len() > MAX_IDENTITY_SET || sets[1].len()
                    > MAX_IDENTITY_SET || sets[2].len() > MAX_IDENTITY_SET || sets[3].len() > MAX_IDENTITY_SET {
                    Err(CompareError::Compare(CompareErrorCode::ResourceLimit))
                } else {
                    Ok((es, fs, bs, rels, sets))
                }
            },
        }
    }
}

/// A function pair seen from the other root.
pub open spec fn swap_function(p: FunctionPairView) -> FunctionPairView {
    (p.0, p.2, p.1)
}

/// A body entry seen from the other root.
pub open spec fn mirror_body(b: BodyView) -> BodyView {
    (b.0, b.2, b.1, b.4, b.3, b.6, b.5)
}

proof fn lemma_entry_mirror(p: BoundPair)
    requires
        same_identity(p),
    ensures
        entity_entry(swap_pair(p)) == entity_entry(p).map_values(|e: EntityView| mirror_entry(e)),
{
    let fwd = entity_entry(p);
    let bwd = entity_entry(swap_pair(p));
    match p {
        (Some(b), Some(t)) => {
            if b.2 != t.2 {
                assert(change_of(t, b) == change_of(b, t));
                assert(bwd[0] == mirror_entry(fwd[0]));
            }
        },
        (Some(b), None) => {
            assert(bwd[0] == mirror_entry(fwd[0]));
        },
        (None, Some(t)) => {
            assert(bwd[0] == mirror_entry(fwd[0]));
        },
        (None, None) => {},
    }
    assert(bwd =~= fwd.map_values(|e: EntityView| mirror_entry(e)));
}

proof fn lemma_field_entry_len(id: Seq<u8>, kind: u32, n: u32, a: FieldValueView, b: FieldValueView)
    ensures
        field_entry(id, kind, n, a, b).len() == field_entry(id, kind, n, b, a).len(),
{
}

proof fn lemma_field_entries_len(id: Seq<u8>, kind: u32, a: Seq<FieldValueView>, b: Seq<FieldValueView>)
    requires
        a.len() == b.len(),
    ensures
        field_entries(id, kind, a, b).len() == field_entries(id, kind, b, a).len(),
    decreases a.len(),
{
    if a.len() > 0 {
        let n = a.len();
        assert(b.take(n - 1) =~= b.drop_last());
        assert(a.take(n - 1) =~= a.drop_last());
        lemma_field_entries_len(id, kind, a.drop_last(), b.drop_last());
        lemma_field_entry_len(id, kind, n as u32, a.last(), b[n - 1]);
        assert(b.last() == b[n - 1]);
        assert(a.last() == a[n - 1]);
    }
}

/// Sections 1 and 2 over the pairs seen from the other root fail alike,
/// or give the mirrored entity entries, as many field entries and the
/// same work.
proof fn lemma_entity_fold_mirror(pairs: Seq<BoundPair>, spent: int)
    requires
        forall|i: int| 0 <= i < pairs.len() ==> same_identity(#[trigger] pairs[i]),
    ensures
        match (entity_fold(pairs.map_values(|p: BoundPair| swap_pair(p)), spent), entity_fold(pairs, spent)) {
            (Err(e2), Err(e1)) => e2 == e1,
            (Ok((es2, fs2, w2)), Ok((es1, fs1, w1))) => es2 == es1.map_values(|e: EntityView| mirror_entry(e))
                && fs2.len() == fs1.len() && w2 == w1,
            _ => false,
        },
    decreases pairs.len(),
{
    let sw = pairs.map_values(|p: BoundPair| swap_pair(p));
    if pairs.len() > 0 {
        let d = pairs.drop_last();
        assert(sw.drop_last() =~= d.map_values(|p: BoundPair| swap_pair(p)));
        assert forall|i: int| 0 <= i < d.len() implies same_identity(#[trigger] d[i]) by {
            assert(d[i] == pairs[i]);
        }
        lemma_entity_fold_mirror(d, spent);
        let p = pairs.last();
        assert(same_identity(pairs[pairs.len() - 1]));
        assert(sw.last() == swap_pair(p));
        lemma_entry_mirror(p);
        match (entity_fold(sw.drop_last(), spent), entity_fold(d, spent)) {
            (Ok((es2, fs2, w2)), Ok((es1, fs1, w1))) => {
                assert(pair_changed(swap_pair(p)) == pair_changed(p));
                if pair_changed(p) {
                    let b = p.0->0;
                    let t = p.1->0;
                    assert(entities_pair(t, b) == entities_pair(b, t)) by {
                        if entities_pair(b, t) {
                            assert forall|i: int| 0 <= i < t.4.len() implies same_shape(#[trigger] t.4[i], b.4[i]) by {
                                assert(same_shape(b.4[i], t.4[i]));
                            }
                        }
                        if entities_pair(t, b) {
                            assert forall|i: int| 0 <= i < b.4.len() implies same_shape(#[trigger] b.4[i], t.4[i]) by {
                                assert(same_shape(t.4[i], b.4[i]));
                            }
                        }
                    }
                    if entities_pair(b, t) {
                        lemma_field_entries_len(b.0, b.1, b.4, t.4);
                        assert(changed_fields(t, b).len() == changed_fields(b, t).len());
                    }
                }
                assert((es1 + entity_entry(p)).map_values(|e: EntityView| mirror_entry(e)) =~= es2 + entity_entry(
                    swap_pair(p),
                ));
            },
            _ => {},
        }
    }
}

/// Section 3 over the function pairs seen from the other root fails
/// alike, or gives the mirrored body entries and the same work.
proof fn lemma_body_fold_mirror(ps: Seq<FunctionPairView>, spent: int)
    ensures
        match (body_fold(ps.map_values(|p: FunctionPairView| swap_function(p)), spent), body_fold(ps, spent)) {
            (Err(e2), Err(e1)) => e2 == e1,
            (Ok((bs2, w2)), Ok((bs1, w1))) => bs2 == bs1.map_values(|b: BodyView| mirror_body(b)) && w2 == w1,
            _ => false,
        },
    decreases ps.len(),
{
    let sw = ps.map_values(|p: FunctionPairView| swap_function(p));
    if ps.len() > 0 {
        let d = ps.drop_last();
        assert(sw.drop_last() =~= d.map_values(|p: FunctionPairView| swap_function(p)));
        lemma_body_fold_mirror(d, spent);
        let p = ps.last();
        assert(sw.last() == swap_function(p));
        assert(pair_cost(swap_function(p)) == pair_cost(p));
        match (body_fold(sw.drop_last(), spent), body_fold(d, spent)) {
            (Ok((bs2, w2)), Ok((bs1, w1))) => {
                let e = (p.0, p.1.3, p.2.3, p.1.1 as u32, p.2.1 as u32, p.1.2 as u32, p.2.2 as u32);
                assert(bs1.push(e).map_values(|b: BodyView| mirror_body(b)) =~= bs2.push(mirror_body(e)));
            },
            _ => {},
        }
    }
}

proof fn lemma_seed_ids_mirror(es: Seq<EntityView>, bs: Seq<BodyView>, at_base: bool)
    ensures
        seed_ids(
            es.map_values(|e: EntityView| mirror_entry(e)),
            bs.map_values(|b: BodyView| mirror_body(b)),
            !at_base,
        ) == seed_ids(es, bs, at_base),
    decreases es.len() + bs.len(),
{
    let me = es.map_values(|e: EntityView| mirror_entry(e));
    let mb = bs.map_values(|b: BodyView| mirror_body(b));
    if bs.len() > 0 {
        assert(mb.drop_last() =~= bs.drop_last().map_values(|b: BodyView| mirror_body(b)));
        lemma_seed_ids_mirror(es, bs.drop_last(), at_base);
        assert(mb.last().0 == bs.last().0);
    } else if es.len() > 0 {
        assert(me.drop_last() =~= es.drop_last().map_values(|e: EntityView| mirror_entry(e)));
        assert(mb =~= Seq::<BodyView>::empty());
        lemma_seed_ids_mirror(es.drop_last(), bs, at_base);
        let c = es.last().1;
        assert(me.last() == mirror_entry(es.last()));
        assert(seeds_at(crate::comparison::flip_class(c), !at_base) == seeds_at(c, at_base)) by {
            match c {
                ChangeClass::Added => {},
                ChangeClass::Removed => {},
                ChangeClass::Changed => {},
                ChangeClass::Retyped => {},
                ChangeClass::MetadataOnly => {},
            }
        }
    } else {
        assert(me =~= Seq::<EntityView>::empty());
        assert(mb =~= Seq::<BodyView>::empty());
    }
}

/// Comparing in the other direction mirrors a whole comparison. Compare
/// `target` against `base`, with each function pair seen from the other
/// root and each root's closure as it was. It fails exactly when the
/// forward comparison fails, and with the same failure. Otherwise each
/// entity entry is the mirror of the forward one (added and removed
/// exchanged, as are kinds and objects), there are as many field entries,
/// each body entry is mirrored, each relation entry flips its direction,
/// the dependency-root and entry-point sets added and removed are
/// exchanged, and the collateral set is the same.
pub proof fn lemma_comparison_mirrors(
    base: RootSideView,
    target: RootSideView,
    fns: Seq<FunctionPairView>,
    base_reached: Seq<Seq<u8>>,
    target_reached: Seq<Seq<u8>>,
)
    ensures
        match (
            comparison_spec(
                target,
                base,
                fns.map_values(|p: FunctionPairView| swap_function(p)),
                target_reached,
                base_reached,
            ),
            comparison_spec(base, target, fns, base_reached, target_reached),
        ) {
            (Err(e2), Err(e1)) => e2 == e1,
            (Ok(b), Ok(f)) => {
                &&& b.0 == f.0.map_values(|e: EntityView| mirror_entry(e))
                &&& b.1.len() == f.1.len()
                &&& b.2 == f.2.map_values(|x: BodyView| mirror_body(x))
                &&& b.3 == f.3.map_values(|r: RelationView| flip_relation(r))
                &&& b.4 == seq![f.4[1], f.4[0], f.4[3], f.4[2], f.4[4]]
            },
            _ => false,
        },
{
    let sfns = fns.map_values(|p: FunctionPairView| swap_function(p));
    lemma_union_swap(base.3, target.3);
    lemma_union_same_identity(base.3, target.3);
    lemma_merge_swap(base.4, target.4);
    let pairs = bound_union(base.3, target.3);
    lemma_entity_fold_mirror(pairs, 0);
    assert(bound_union(target.3, base.3) == pairs.map_values(|p: BoundPair| swap_pair(p)));
    assert(relation_merge(target.4, base.4).len() == relation_merge(base.4, target.4).len());
    match (entity_fold(bound_union(target.3, base.3), 0), entity_fold(pairs, 0)) {
        (Ok((es2, fs2, w12)), Ok((es1, fs1, w11))) => {
            lemma_body_fold_mirror(fns, w11);
            match (body_fold(sfns, w11), body_fold(fns, w11)) {
                (Ok((bs2, w22)), Ok((bs1, w21))) => {
                    assert(es2.len() == es1.len());
                    assert(bs2.len() == bs1.len());
                    lemma_seed_ids_mirror(es1, bs1, true);
                    lemma_seed_ids_mirror(es1, bs1, false);
                    assert(!true == false);
                    let sb = difference(seed_ids(es1, bs1, true), Seq::empty());
                    let st = difference(seed_ids(es1, bs1, false), Seq::empty());
                    lemma_swapped_collateral_same(sb, base_reached, st, target_reached, base, target, es1);
                    let col = collateral_spec(reached_ids(sb, base_reached, st, target_reached), base, target, es1);
                    lemma_swapped_comparison_mirrors(base, target, col);
                    let f = root_sets(base, target, col);
                    assert(root_sets(target, base, col) == seq![f[1], f[0], f[3], f[2], f[4]]);
                },
                _ => {},
            }
        },
        _ => {},
    }
}

/// Compares two complete roots given what each root's impact closure
/// reached from the seeds the comparison gives it: sections 1 to 4, then
/// the closures' cost, the collateral set and the identity-set limits.
pub fn compare_with_closures(
    base: &RootSide,
    target: &RootSide,
    functions: &Vec<FunctionPair>,
    base_reached: &Vec<[u8; 32]>,
    target_reached: &Vec<[u8; 32]>,
) -> (r: Result<SemanticDelta, CompareError>)
    ensures
        match comparison_spec(
            base@,
            target@,
            function_pair_views(functions@),
            digests_view(base_reached@),
            digests_view(target_reached@),
        ) {
            Err(e) => r == Err::<SemanticDelta, CompareError>(e),
            Ok(v) => r matches Ok(d) && d@.0 == seq![base.workspace_id@, base.schema_epoch_id@, base.root@, target.root@]
                && d@.1 == v.0 && d@.2 == v.1 && d@.3 == v.2 && d@.4 == v.3 && d@.5 == v.4,
        },
{
    let sections = compare_sections(base, target, functions)?;
    let r = finish_comparison(sections, base, target, base_reached, target_reached);
    proof {
        if r is Ok {
            let d = r->Ok_0;
            let v = comparison_spec(
                base@,
                target@,
                function_pair_views(functions@),
                digests_view(base_reached@),
                digests_view(target_reached@),
            )->Ok_0;
            assert(d@.5 =~= v.4);
        }
    }
    r
}

} // verus!
