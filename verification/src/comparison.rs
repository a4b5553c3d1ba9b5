//! Comparing two complete roots into a semantic delta, in two steps around
//! the impact closures: the sections and the closure seeds first, then the
//! collateral set from the closures of those seeds.

use vstd::prelude::*;

use crate::bytes::{lex, ByteOrder};
use crate::compare::{ChangeClass, CompareError, CompareErrorCode, RelationChange, MAX_COMPARE_WORK};
use crate::compare_fields::{kept_in, RootEntity, RootEntityView};
use crate::compare_roots::{
    entity_entry, is_difference, lemma_ascending_unique, lemma_difference_exists, pair_changed, BoundPair,
    body_delta_views, body_fold, body_section, bound_union, difference, edge_views, entity_delta_views,
    entity_fold, entity_section, function_pair_views, lemma_is_difference, relation_deltas, relation_merge,
    root_entity_views, set_difference, EdgeView, FunctionPair, FunctionPairView, ImpactEdge, Work,
};
use crate::compare_fields::field_delta_views;
use crate::bytes::bytes_equal;
use crate::delta::{
    views, BodyDelta, BodyView, EntityDelta, EntityView, FieldView, RelationView, SemanticDelta,
    MAX_BODY_DELTAS, MAX_ENTITY_DELTAS, MAX_FIELD_DELTAS, MAX_IDENTITY_SET, MAX_RELATION_DELTAS,
};
use crate::digest::digests_view;
use crate::gc::contains_id;

verus! {

/// One complete root as the comparison reads it.
#[derive(Clone, Debug, PartialEq, Eq)]
pub struct RootSide {
    /// Workspace of the root.
    pub workspace_id: [u8; 32],
    /// Schema epoch of the root.
    pub schema_epoch_id: [u8; 32],
    /// The root itself.
    pub root: [u8; 32],
    /// Bound entities, ascending by identity.
    pub entities: Vec<RootEntity>,
    /// Direct edges of the root's impact index, in canonical order.
    pub edges: Vec<ImpactEdge>,
    /// Dependency roots of the root's facts.
    pub dependency_roots: Vec<[u8; 32]>,
    /// Entry points of the root's facts.
    pub entry_points: Vec<[u8; 32]>,
}

/// A root as values: workspace, schema epoch, root, entities, edges,
/// dependency roots, entry points.
pub type RootSideView = (
    Seq<u8>,
    Seq<u8>,
    Seq<u8>,
    Seq<RootEntityView>,
    Seq<EdgeView>,
    Seq<Seq<u8>>,
    Seq<Seq<u8>>,
);

impl View for RootSide {
    type V = RootSideView;

    open spec fn view(&self) -> RootSideView {
        (
            self.workspace_id@,
            self.schema_epoch_id@,
            self.root@,
            root_entity_views(self.entities@),
            edge_views(self.edges@),
            digests_view(self.dependency_roots@),
            digests_view(self.entry_points@),
        )
    }
}

/// Sections 1 to 4 of two roots of one workspace and schema epoch: entries
/// and the work spent, or the first failure.
pub open spec fn sections_spec(base: RootSideView, target: RootSideView, fns: Seq<FunctionPairView>) -> Result<
    (Seq<EntityView>, Seq<FieldView>, Seq<BodyView>, Seq<RelationView>, int),
    CompareError,
> {
    match entity_fold(bound_union(base.3, target.3), 0) {
        Err(e) => Err(e),
        Ok((es, fs, w1)) => if es.len() > MAX_ENTITY_DELTAS || fs.len() > MAX_FIELD_DELTAS {
            Err(CompareError::Compare(CompareErrorCode::ResourceLimit))
        } else {
            match body_fold(fns, w1) {
                Err(e) => Err(e),
                Ok((bs, w2)) => if bs.len() > MAX_BODY_DELTAS {
                    Err(CompareError::Compare(CompareErrorCode::ResourceLimit))
                } else if w2 + base.4.len() + target.4.len() > MAX_COMPARE_WORK {
                    Err(CompareError::Compare(CompareErrorCode::ResourceLimit))
                } else if relation_merge(base.4, target.4).len() > MAX_RELATION_DELTAS {
                    Err(CompareError::Compare(CompareErrorCode::ResourceLimit))
                } else {
                    Ok((es, fs, bs, relation_merge(base.4, target.4), w2 + base.4.len() + target.4.len()))
                },
            }
        },
    }
}

/// The change class seeds a closure at the base (removed, changed,
/// retyped) or at the target (added, changed, retyped).
pub open spec fn seeds_at(c: ChangeClass, at_base: bool) -> bool {
    match c {
        ChangeClass::Changed | ChangeClass::Retyped => true,
        ChangeClass::Removed => at_base,
        ChangeClass::Added => !at_base,
        ChangeClass::MetadataOnly => false,
    }
}

/// The identities of entity entries that seed a closure at one root, then
/// those of all body entries.
pub open spec fn seed_ids(es: Seq<EntityView>, bs: Seq<BodyView>, at_base: bool) -> Seq<Seq<u8>>
    decreases es.len() + bs.len(),
{
    if bs.len() > 0 {
        seed_ids(es, bs.drop_last(), at_base).push(bs.last().0)
    } else if es.len() > 0 {
        seed_ids(es.drop_last(), bs, at_base) + if seeds_at(es.last().1, at_base) {
            seq![es.last().0]
        } else {
            Seq::empty()
        }
    } else {
        Seq::empty()
    }
}

/// Sections 1 to 4, the closure seeds at each root, and the work spent.
pub struct ComparedSections {
    /// The delta with an empty collateral set.
    pub delta: SemanticDelta,
    /// Seeds of the base closure, ascending, each once.
    pub base_seeds: Vec<[u8; 32]>,
    /// Seeds of the target closure, ascending, each once.
    pub target_seeds: Vec<[u8; 32]>,
    /// Work spent so far.
    pub work: Work,
}

fn seeds_of(entities: &Vec<EntityDelta>, bodies: &Vec<BodyDelta>, at_base: bool) -> (r: Vec<[u8; 32]>)
    ensures
        digests_view(r@) == difference(
            seed_ids(entity_delta_views(entities@), body_delta_views(bodies@), at_base),
            Seq::empty(),
        ),
{
    let ghost ev = entity_delta_views(entities@);
    let ghost bv = body_delta_views(bodies@);
    let mut ids: Vec<[u8; 32]> = Vec::new();
    let mut i: usize = 0;
    assert(ev.take(0) =~= Seq::<EntityView>::empty());
    assert(bv.take(0) =~= Seq::<BodyView>::empty());
    assert(digests_view(ids@) =~= seed_ids(ev.take(0), bv.take(0), at_base));
    while i < entities.len()
        invariant
            i <= entities@.len(),
            ev == entity_delta_views(entities@),
            bv == body_delta_views(bodies@),
            digests_view(ids@) == seed_ids(ev.take(i as int), bv.take(0), at_base),
        decreases entities.len() - i,
    {
        let ghost before = digests_view(ids@);
        let ghost t = ev.take(i + 1);
        assert(t.drop_last() =~= ev.take(i as int));
        assert(t.last() == entities@[i as int]@);
        let c = entities[i].change;
        let seeds = match c {
            ChangeClass::Changed | ChangeClass::Retyped => true,
            ChangeClass::Removed => at_base,
            ChangeClass::Added => !at_base,
            ChangeClass::MetadataOnly => false,
        };
        if seeds {
            ids.push(entities[i].entity_id);
            assert(digests_view(ids@) =~= before + seq![entities@[i as int].entity_id@]);
        } else {
            assert(digests_view(ids@) =~= before + Seq::<Seq<u8>>::empty());
        }
        i = i + 1;
    }
    assert(ev.take(i as int) =~= ev);
    let mut j: usize = 0;
    while j < bodies.len()
        invariant
            j <= bodies@.len(),
            ev == entity_delta_views(entities@),
            bv == body_delta_views(bodies@),
            digests_view(ids@) == seed_ids(ev, bv.take(j as int), at_base),
        decreases bodies.len() - j,
    {
        let ghost before = digests_view(ids@);
        let ghost t = bv.take(j + 1);
        assert(t.drop_last() =~= bv.take(j as int));
        assert(t.last() == bodies@[j as int]@);
        ids.push(bodies[j].entity_id);
        assert(digests_view(ids@) =~= before.push(bodies@[j as int].entity_id@));
        j = j + 1;
    }
    assert(bv.take(j as int) =~= bv);
    let none: Vec<[u8; 32]> = Vec::new();
    let (seeds, _) = set_difference(&none, &ids);
    proof {
        assert(digests_view(none@) =~= Seq::<Seq<u8>>::empty());
    }
    seeds
}

/// The five identity sets of a delta: dependency roots only in the target,
/// only in the base, entry points only in the target, only in the base,
/// and the collateral set.
pub open spec fn root_sets(base: RootSideView, target: RootSideView, collateral: Seq<Seq<u8>>) -> Seq<
    Seq<Seq<u8>>,
> {
    seq![
        difference(target.5, base.5),
        difference(base.5, target.5),
        difference(target.6, base.6),
        difference(base.6, target.6),
        collateral,
    ]
}

proof fn lemma_views_digests(s: Seq<[u8; 32]>)
    ensures
        views::<[u8; 32]>(s) == digests_view(s),
{
    assert(views::<[u8; 32]>(s) =~= digests_view(s));
}

/// Compares two complete roots up to the impact closures: both must share
/// the workspace, then the schema epoch; then sections 1 to 4 within the
/// work budget and the section limits, the root-set differences, and the
/// seeds of the closure at each root.
#[verifier::rlimit(80)]
pub fn compare_sections(base: &RootSide, target: &RootSide, functions: &Vec<FunctionPair>) -> (r: Result<
    ComparedSections,
    CompareError,
>)
    ensures
        base.workspace_id@ != target.workspace_id@ ==> r == Err::<ComparedSections, CompareError>(
            CompareError::Compare(CompareErrorCode::WorkspaceMismatch),
        ),
        base.workspace_id@ == target.workspace_id@ && base.schema_epoch_id@ != target.schema_epoch_id@ ==> r
            == Err::<ComparedSections, CompareError>(CompareError::Compare(CompareErrorCode::EpochMismatch)),
        base.workspace_id@ == target.workspace_id@ && base.schema_epoch_id@ == target.schema_epoch_id@ ==> match sections_spec(
            base@,
            target@,
            function_pair_views(functions@),
        ) {
            Err(e) => r == Err::<ComparedSections, CompareError>(e),
            Ok((es, fs, bs, rels, w)) => r is Ok && r->Ok_0.delta@ == (
                seq![base.workspace_id@, base.schema_epoch_id@, base.root@, target.root@],
                es,
                fs,
                bs,
                rels,
                root_sets(base@, target@, Seq::empty()),
            ) && digests_view(r->Ok_0.base_seeds@) == difference(seed_ids(es, bs, true), Seq::empty())
                && digests_view(r->Ok_0.target_seeds@) == difference(seed_ids(es, bs, false), Seq::empty())
                && r->Ok_0.work.spent() == w,
        },
{
    if !bytes_equal(base.workspace_id.as_slice(), target.workspace_id.as_slice()) {
        return Err(CompareError::Compare(CompareErrorCode::WorkspaceMismatch));
    }
    if !bytes_equal(base.schema_epoch_id.as_slice(), target.schema_epoch_id.as_slice()) {
        return Err(CompareError::Compare(CompareErrorCode::EpochMismatch));
    }
    let mut work = Work::new();
    let (entities, fields) = entity_section(&base.entities, &target.entities, &mut work)?;
    if entities.len() > MAX_ENTITY_DELTAS || fields.len() > MAX_FIELD_DELTAS {
        return Err(CompareError::Compare(CompareErrorCode::ResourceLimit));
    }
    let bodies = body_section(functions, &mut work)?;
    if bodies.len() > MAX_BODY_DELTAS {
        return Err(CompareError::Compare(CompareErrorCode::ResourceLimit));
    }
    let relations = relation_deltas(&base.edges, &target.edges, &mut work)?;
    if relations.len() > MAX_RELATION_DELTAS {
        return Err(CompareError::Compare(CompareErrorCode::ResourceLimit));
    }
    let (dependency_roots_added, dependency_roots_removed) = set_difference(
        &base.dependency_roots,
        &target.dependency_roots,
    );
    let (entry_points_added, entry_points_removed) = set_difference(&base.entry_points, &target.entry_points);
    let base_seeds = seeds_of(&entities, &bodies, true);
    let target_seeds = seeds_of(&entities, &bodies, false);
    let collateral: Vec<[u8; 32]> = Vec::new();
    let delta = SemanticDelta {
        workspace_id: base.workspace_id,
        root_schema_epoch: base.schema_epoch_id,
        base_root: base.root,
        target_root: target.root,
        entities,
        fields,
        bodies,
        relations,
        dependency_roots_added,
        dependency_roots_removed,
        entry_points_added,
        entry_points_removed,
        collateral,
    };
    proof {
        assert(views(delta.entities@) =~= entity_delta_views(delta.entities@));
        assert(views(delta.fields@) =~= field_delta_views(delta.fields@));
        assert(views(delta.bodies@) =~= body_delta_views(delta.bodies@));
        assert(views(delta.relations@) =~= delta.relations@.map_values(|d: crate::delta::RelationDelta| d@));
        lemma_views_digests(delta.dependency_roots_added@);
        lemma_views_digests(delta.dependency_roots_removed@);
        lemma_views_digests(delta.entry_points_added@);
        lemma_views_digests(delta.entry_points_removed@);
        lemma_views_digests(delta.collateral@);
        assert(digests_view(delta.collateral@) =~= Seq::<Seq<u8>>::empty());
        assert(delta@.5 =~= root_sets(base@, target@, Seq::empty()));
    }
    Ok(ComparedSections { delta, base_seeds, target_seeds, work })
}

/// The work one closure costs: its seeds and what it reached, nothing when
/// there are no seeds.
pub open spec fn closure_cost(seeds: Seq<Seq<u8>>, reached: Seq<Seq<u8>>) -> int {
    if seeds.len() == 0 {
        0
    } else {
        (seeds.len() + reached.len()) as int
    }
}

/// What the closures reached: that of each root with seeds.
pub open spec fn reached_ids(
    base_seeds: Seq<Seq<u8>>,
    base_reached: Seq<Seq<u8>>,
    target_seeds: Seq<Seq<u8>>,
    target_reached: Seq<Seq<u8>>,
) -> Seq<Seq<u8>> {
    (if base_seeds.len() == 0 {
        Seq::empty()
    } else {
        base_reached
    }) + (if target_seeds.len() == 0 {
        Seq::empty()
    } else {
        target_reached
    })
}

/// The identities of a list of entities.
pub open spec fn bound_ids(es: Seq<RootEntityView>) -> Seq<Seq<u8>> {
    es.map_values(|e: RootEntityView| e.0)
}

/// The identities of a list of entity entries.
pub open spec fn entry_ids(es: Seq<EntityView>) -> Seq<Seq<u8>> {
    es.map_values(|e: EntityView| e.0)
}

/// The collateral set: the identities reached that both roots bind and
/// that have no entity entry, ascending, each once.
pub open spec fn collateral_spec(reached: Seq<Seq<u8>>, base: RootSideView, target: RootSideView, es: Seq<EntityView>) -> Seq<
    Seq<u8>,
> {
    difference(kept_in(kept_in(reached, bound_ids(base.3)), bound_ids(target.3)), entry_ids(es))
}

fn keep_held(xs: &Vec<[u8; 32]>, ys: &Vec<[u8; 32]>) -> (r: Vec<[u8; 32]>)
    ensures
        digests_view(r@) == kept_in(digests_view(xs@), digests_view(ys@)),
{
    let ghost xv = digests_view(xs@);
    let ghost yv = digests_view(ys@);
    let mut out: Vec<[u8; 32]> = Vec::new();
    let mut i: usize = 0;
    assert(xv.take(0) =~= Seq::<Seq<u8>>::empty());
    while i < xs.len()
        invariant
            i <= xs@.len(),
            xv == digests_view(xs@),
            yv == digests_view(ys@),
            digests_view(out@) == kept_in(xv.take(i as int), yv),
        decreases xs.len() - i,
    {
        let ghost before = digests_view(out@);
        let ghost t = xv.take(i + 1);
        assert(t.drop_last() =~= xv.take(i as int));
        assert(t.last() == xs@[i as int]@);
        if contains_id(ys, &xs[i]) {
            out.push(xs[i]);
            assert(digests_view(out@) =~= before + seq![t.last()]);
        } else {
            assert(kept_in(t, yv) =~= kept_in(xv.take(i as int), yv) + Seq::<Seq<u8>>::empty());
        }
        i = i + 1;
    }
    assert(xv.take(i as int) =~= xv);
    out
}

fn entity_ids_of(es: &Vec<RootEntity>) -> (r: Vec<[u8; 32]>)
    ensures
        digests_view(r@) == bound_ids(root_entity_views(es@)),
{
    let mut out: Vec<[u8; 32]> = Vec::new();
    let mut i: usize = 0;
    while i < es.len()
        invariant
            i <= es@.len(),
            digests_view(out@) == bound_ids(root_entity_views(es@)).take(i as int),
        decreases es.len() - i,
    {
        let ghost before = digests_view(out@);
        out.push(es[i].entity_id);
        assert(digests_view(out@) =~= before.push(es@[i as int].entity_id@));
        assert(bound_ids(root_entity_views(es@)).take(i + 1) =~= bound_ids(root_entity_views(es@)).take(
            i as int,
        ).push(es@[i as int].entity_id@));
        i = i + 1;
    }
    assert(bound_ids(root_entity_views(es@)).take(i as int) =~= bound_ids(root_entity_views(es@)));
    out
}

fn entry_ids_of(es: &Vec<EntityDelta>) -> (r: Vec<[u8; 32]>)
    ensures
        digests_view(r@) == entry_ids(entity_delta_views(es@)),
{
    let mut out: Vec<[u8; 32]> = Vec::new();
    let mut i: usize = 0;
    while i < es.len()
        invariant
            i <= es@.len(),
            digests_view(out@) == entry_ids(entity_delta_views(es@)).take(i as int),
        decreases es.len() - i,
    {
        let ghost before = digests_view(out@);
        out.push(es[i].entity_id);
        assert(digests_view(out@) =~= before.push(es@[i as int].entity_id@));
        assert(entry_ids(entity_delta_views(es@)).take(i + 1) =~= entry_ids(entity_delta_views(es@)).take(
            i as int,
        ).push(es@[i as int].entity_id@));
        i = i + 1;
    }
    assert(entry_ids(entity_delta_views(es@)).take(i as int) =~= entry_ids(entity_delta_views(es@)));
    out
}

fn extend_ids(out: &mut Vec<[u8; 32]>, more: &Vec<[u8; 32]>)
    ensures
        digests_view(final(out)@) == digests_view(old(out)@) + digests_view(more@),
{
    let ghost start = digests_view(out@);
    let mut i: usize = 0;
    while i < more.len()
        invariant
            i <= more@.len(),
            digests_view(out@) == start + digests_view(more@).take(i as int),
        decreases more.len() - i,
    {
        let ghost before = digests_view(out@);
        out.push(more[i]);
        assert(digests_view(out@) =~= before.push(more@[i as int]@));
        assert(digests_view(more@).take(i + 1) =~= digests_view(more@).take(i as int).push(more@[i as int]@));
        i = i + 1;
    }
    assert(digests_view(more@).take(i as int) =~= digests_view(more@));
}

/// Completes a comparison from the closure each root's impact index gave
/// for its seeds: charges each closure with seeds, keeps the reached
/// identities that both roots bind and that have no entity entry as the
/// collateral set, and checks the five identity sets against their limit.
#[verifier::rlimit(80)]
pub fn finish_comparison(
    sections: ComparedSections,
    base: &RootSide,
    target: &RootSide,
    base_reached: &Vec<[u8; 32]>,
    target_reached: &Vec<[u8; 32]>,
) -> (r: Result<SemanticDelta, CompareError>)
    requires
        sections.work.spent() <= MAX_COMPARE_WORK,
    ensures
        ({
            let d = sections.delta@;
            let sb = digests_view(sections.base_seeds@);
            let st = digests_view(sections.target_seeds@);
            let rb = digests_view(base_reached@);
            let rt = digests_view(target_reached@);
            let col = collateral_spec(reached_ids(sb, rb, st, rt), base@, target@, d.1);
            if sections.work.spent() + closure_cost(sb, rb) + closure_cost(st, rt) > MAX_COMPARE_WORK {
                r == Err::<SemanticDelta, CompareError>(CompareError::Compare(CompareErrorCode::ResourceLimit))
            } else if col.len() > MAX_IDENTITY_SET || d.5[0].len() > MAX_IDENTITY_SET || d.5[1].len()
                > MAX_IDENTITY_SET || d.5[2].len() > MAX_IDENTITY_SET || d.5[3].len() > MAX_IDENTITY_SET {
                r == Err::<SemanticDelta, CompareError>(CompareError::Compare(CompareErrorCode::ResourceLimit))
            } else {
                r is Ok && r->Ok_0@ == (d.0, d.1, d.2, d.3, d.4, seq![d.5[0], d.5[1], d.5[2], d.5[3], col])
            }
        }),
{
    let ComparedSections { delta, base_seeds, target_seeds, mut work } = sections;
    let ghost w0 = work.spent() as int;
    let ghost sb = digests_view(base_seeds@);
    let ghost st = digests_view(target_seeds@);
    let ghost rb = digests_view(base_reached@);
    let ghost rt = digests_view(target_reached@);
    let mut reached: Vec<[u8; 32]> = Vec::new();
    if base_seeds.len() > 0 {
        work.charge(base_seeds.len() as u64)?;
        work.charge(base_reached.len() as u64)?;
        extend_ids(&mut reached, base_reached);
    }
    if target_seeds.len() > 0 {
        work.charge(target_seeds.len() as u64)?;
        work.charge(target_reached.len() as u64)?;
        extend_ids(&mut reached, target_reached);
    }
    proof {
        assert(digests_view(reached@) =~= reached_ids(sb, rb, st, rt));
    }
    let in_base = keep_held(&reached, &entity_ids_of(&base.entities));
    let in_both = keep_held(&in_base, &entity_ids_of(&target.entities));
    let (collateral, _) = set_difference(&entry_ids_of(&delta.entities), &in_both);
    proof {
        lemma_views_digests(collateral@);
        lemma_views_digests(delta.dependency_roots_added@);
        lemma_views_digests(delta.dependency_roots_removed@);
        lemma_views_digests(delta.entry_points_added@);
        lemma_views_digests(delta.entry_points_removed@);
        assert(views(delta.entities@) =~= entity_delta_views(delta.entities@));
    }
    if collateral.len() > MAX_IDENTITY_SET || delta.dependency_roots_added.len() > MAX_IDENTITY_SET
        || delta.dependency_roots_removed.len() > MAX_IDENTITY_SET || delta.entry_points_added.len()
        > MAX_IDENTITY_SET || delta.entry_points_removed.len() > MAX_IDENTITY_SET {
        return Err(CompareError::Compare(CompareErrorCode::ResourceLimit));
    }
    let result = SemanticDelta { collateral, ..delta };
    proof {
        assert(result@.5 =~= seq![delta@.5[0], delta@.5[1], delta@.5[2], delta@.5[3], views(result.collateral@)]);
    }
    Ok(result)
}

// ---------------------------------------------------------------------------
// Laws.
// ---------------------------------------------------------------------------

proof fn lemma_union_self(es: Seq<RootEntityView>)
    ensures
        bound_union(es, es) == es.map_values(|e: RootEntityView| (Some(e), Some(e))),
    decreases es.len(),
{
    if es.len() > 0 {
        crate::bytes::lemma_lex_equal(es[0].0, es[0].0);
        lemma_union_self(es.drop_first());
        assert(es.map_values(|e: RootEntityView| (Some(e), Some(e))) =~= seq![(Some(es[0]), Some(es[0]))]
            + es.drop_first().map_values(|e: RootEntityView| (Some(e), Some(e))));
    } else {
        assert(es.map_values(|e: RootEntityView| (Some(e), Some(e))) =~= Seq::<BoundPair>::empty());
    }
}

proof fn lemma_fold_self(ps: Seq<BoundPair>, spent: int)
    requires
        forall|i: int| 0 <= i < ps.len() ==> (#[trigger] ps[i]).0 == ps[i].1 && ps[i].0 is Some,
    ensures
        entity_fold(ps, spent) is Ok ==> entity_fold(ps, spent)->Ok_0.0 == Seq::<EntityView>::empty()
            && entity_fold(ps, spent)->Ok_0.1 == Seq::<FieldView>::empty(),
    decreases ps.len(),
{
    if ps.len() > 0 {
        let t = ps.drop_last();
        assert forall|i: int| 0 <= i < t.len() implies (#[trigger] t[i]).0 == t[i].1 && t[i].0 is Some by {
            assert(t[i] == ps[i]);
        }
        lemma_fold_self(t, spent);
        let p = ps.last();
        assert(p == ps[ps.len() - 1]);
        assert(entity_entry(p) =~= Seq::<EntityView>::empty());
        assert(!pair_changed(p));
        assert(Seq::<EntityView>::empty() + Seq::<EntityView>::empty() =~= Seq::<EntityView>::empty());
    }
}

proof fn lemma_merge_self(es: Seq<EdgeView>)
    ensures
        relation_merge(es, es) == Seq::<RelationView>::empty(),
    decreases es.len(),
{
    if es.len() > 0 {
        crate::bytes::lemma_lex_equal(es[0].0, es[0].0);
        crate::bytes::lemma_lex_equal(es[0].1, es[0].1);
        lemma_merge_self(es.drop_first());
    }
}

proof fn lemma_difference_self(s: Seq<Seq<u8>>)
    ensures
        difference(s, s) == Seq::<Seq<u8>>::empty(),
{
    let e = Seq::<Seq<u8>>::empty();
    assert(crate::ordered::ids_ascending(e));
    assert(is_difference(e, s, s));
    lemma_is_difference(e, s, s);
}

/// Comparing a root with itself, when every function keeps its
/// fingerprint, lists no entity, field, body or relation entry and no
/// root-set difference, whenever the comparison succeeds.
pub proof fn lemma_identical_roots_compare_empty(side: RootSideView, fns: Seq<FunctionPairView>)
    requires
        forall|i: int| 0 <= i < fns.len() ==> (#[trigger] fns[i]).1.3 == fns[i].2.3,
    ensures
        sections_spec(side, side, fns) is Ok ==> {
            let v = sections_spec(side, side, fns)->Ok_0;
            &&& v.0 == Seq::<EntityView>::empty()
            &&& v.1 == Seq::<FieldView>::empty()
            &&& v.2 == Seq::<BodyView>::empty()
            &&& v.3 == Seq::<RelationView>::empty()
            &&& root_sets(side, side, Seq::empty()) == seq![
                Seq::<Seq<u8>>::empty(),
                Seq::<Seq<u8>>::empty(),
                Seq::<Seq<u8>>::empty(),
                Seq::<Seq<u8>>::empty(),
                Seq::<Seq<u8>>::empty(),
            ]
        },
{
    lemma_union_self(side.3);
    let ps = bound_union(side.3, side.3);
    assert forall|i: int| 0 <= i < ps.len() implies (#[trigger] ps[i]).0 == ps[i].1 && ps[i].0 is Some by {
        assert(ps[i] == (Some(side.3[i]), Some(side.3[i])));
    }
    lemma_fold_self(ps, 0);
    lemma_merge_self(side.4);
    lemma_difference_self(side.5);
    lemma_difference_self(side.6);
    if sections_spec(side, side, fns) is Ok {
        let w1 = entity_fold(ps, 0)->Ok_0.2;
        lemma_bodies_same(fns, w1);
    }
    assert(root_sets(side, side, Seq::empty()) =~= seq![
        Seq::<Seq<u8>>::empty(),
        Seq::<Seq<u8>>::empty(),
        Seq::<Seq<u8>>::empty(),
        Seq::<Seq<u8>>::empty(),
        Seq::<Seq<u8>>::empty(),
    ]);
}

proof fn lemma_bodies_same(fns: Seq<FunctionPairView>, spent: int)
    requires
        forall|i: int| 0 <= i < fns.len() ==> (#[trigger] fns[i]).1.3 == fns[i].2.3,
    ensures
        body_fold(fns, spent) is Ok ==> body_fold(fns, spent)->Ok_0.0 == Seq::<BodyView>::empty(),
    decreases fns.len(),
{
    if fns.len() > 0 {
        let t = fns.drop_last();
        assert forall|i: int| 0 <= i < t.len() implies (#[trigger] t[i]).1.3 == t[i].2.3 by {
            assert(t[i] == fns[i]);
        }
        lemma_bodies_same(t, spent);
        assert(fns.last() == fns[fns.len() - 1]);
    }
}

/// The pair of a bound identity seen from the other root.
pub open spec fn swap_pair(p: BoundPair) -> BoundPair {
    (p.1, p.0)
}

/// Both sides of a pair, where both bind, bind the same identity.
pub open spec fn same_identity(p: BoundPair) -> bool {
    match p {
        (Some(b), Some(t)) => b.0 == t.0,
        _ => true,
    }
}

/// A change class seen from the other root.
pub open spec fn flip_class(c: ChangeClass) -> ChangeClass {
    match c {
        ChangeClass::Added => ChangeClass::Removed,
        ChangeClass::Removed => ChangeClass::Added,
        _ => c,
    }
}

/// An entity entry seen from the other root.
pub open spec fn mirror_entry(e: EntityView) -> EntityView {
    (e.0, flip_class(e.1), e.3, e.2, e.5, e.4)
}

/// A relation entry seen from the other root.
pub open spec fn flip_relation(r: RelationView) -> RelationView {
    (
        r.0,
        r.1,
        r.2,
        match r.3 {
            RelationChange::Added => RelationChange::Removed,
            RelationChange::Removed => RelationChange::Added,
        },
    )
}

pub(crate) proof fn lemma_union_swap(b: Seq<RootEntityView>, t: Seq<RootEntityView>)
    ensures
        bound_union(t, b) == bound_union(b, t).map_values(|p: BoundPair| swap_pair(p)),
    decreases b.len() + t.len(),
{
    let u = bound_union(b, t);
    if b.len() == 0 && t.len() == 0 {
        assert(u.map_values(|p: BoundPair| swap_pair(p)) =~= Seq::<BoundPair>::empty());
    } else {
        if b.len() > 0 && t.len() > 0 {
            crate::bytes::lemma_lex_antisymmetric(b[0].0, t[0].0);
        }
        if b.len() > 0 && (t.len() == 0 || lex(b[0].0, t[0].0) == ByteOrder::Less) {
            lemma_union_swap(b.drop_first(), t);
            assert(u.map_values(|p: BoundPair| swap_pair(p)) =~= seq![swap_pair(u[0])] + bound_union(
                b.drop_first(),
                t,
            ).map_values(|p: BoundPair| swap_pair(p)));
        } else if t.len() > 0 && (b.len() == 0 || lex(b[0].0, t[0].0) == ByteOrder::Greater) {
            lemma_union_swap(b, t.drop_first());
            assert(u.map_values(|p: BoundPair| swap_pair(p)) =~= seq![swap_pair(u[0])] + bound_union(
                b,
                t.drop_first(),
            ).map_values(|p: BoundPair| swap_pair(p)));
        } else {
            lemma_union_swap(b.drop_first(), t.drop_first());
            assert(u.map_values(|p: BoundPair| swap_pair(p)) =~= seq![swap_pair(u[0])] + bound_union(
                b.drop_first(),
                t.drop_first(),
            ).map_values(|p: BoundPair| swap_pair(p)));
        }
    }
}

pub(crate) proof fn lemma_merge_swap(b: Seq<EdgeView>, t: Seq<EdgeView>)
    ensures
        relation_merge(t, b) == relation_merge(b, t).map_values(|r: RelationView| flip_relation(r)),
    decreases b.len() + t.len(),
{
    let m = relation_merge(b, t);
    if b.len() == 0 && t.len() == 0 {
        assert(m.map_values(|r: RelationView| flip_relation(r)) =~= Seq::<RelationView>::empty());
    } else {
        if b.len() > 0 && t.len() > 0 {
            crate::compare_roots::lemma_edge_order(b[0], t[0]);
            crate::compare_roots::lemma_edge_order(t[0], b[0]);
        }
        if b.len() > 0 && (t.len() == 0 || crate::compare_roots::edge_order(b[0], t[0]) == ByteOrder::Less) {
            lemma_merge_swap(b.drop_first(), t);
            assert(m.map_values(|r: RelationView| flip_relation(r)) =~= seq![flip_relation(m[0])]
                + relation_merge(b.drop_first(), t).map_values(|r: RelationView| flip_relation(r)));
        } else if t.len() > 0 && (b.len() == 0 || crate::compare_roots::edge_order(b[0], t[0])
            == ByteOrder::Greater) {
            lemma_merge_swap(b, t.drop_first());
            assert(m.map_values(|r: RelationView| flip_relation(r)) =~= seq![flip_relation(m[0])]
                + relation_merge(b, t.drop_first()).map_values(|r: RelationView| flip_relation(r)));
        } else {
            lemma_merge_swap(b.drop_first(), t.drop_first());
        }
    }
}

pub(crate) proof fn lemma_union_same_identity(b: Seq<RootEntityView>, t: Seq<RootEntityView>)
    ensures
        forall|i: int| 0 <= i < bound_union(b, t).len() ==> same_identity(#[trigger] bound_union(b, t)[i]),
    decreases b.len() + t.len(),
{
    let u = bound_union(b, t);
    if b.len() == 0 && t.len() == 0 {
    } else if b.len() > 0 && (t.len() == 0 || lex(b[0].0, t[0].0) == ByteOrder::Less) {
        lemma_union_same_identity(b.drop_first(), t);
        assert forall|i: int| 0 <= i < u.len() implies same_identity(#[trigger] u[i]) by {
            if i > 0 {
                assert(u[i] == bound_union(b.drop_first(), t)[i - 1]);
            }
        }
    } else if t.len() > 0 && (b.len() == 0 || lex(b[0].0, t[0].0) == ByteOrder::Greater) {
        lemma_union_same_identity(b, t.drop_first());
        assert forall|i: int| 0 <= i < u.len() implies same_identity(#[trigger] u[i]) by {
            if i > 0 {
                assert(u[i] == bound_union(b, t.drop_first())[i - 1]);
            }
        }
    } else {
        crate::bytes::lemma_lex_equal(b[0].0, t[0].0);
        lemma_union_same_identity(b.drop_first(), t.drop_first());
        assert forall|i: int| 0 <= i < u.len() implies same_identity(#[trigger] u[i]) by {
            if i > 0 {
                assert(u[i] == bound_union(b.drop_first(), t.drop_first())[i - 1]);
            }
        }
    }
}

/// Comparing in the other direction mirrors the comparison: the bound
/// identities are the same with their sides swapped, each entity entry is
/// the mirror of the forward one (added and removed swap, as do the kinds
/// and objects), each relation entry flips its direction, and the root-set
/// differences swap.
pub proof fn lemma_swapped_comparison_mirrors(base: RootSideView, target: RootSideView, collateral: Seq<Seq<u8>>)
    ensures
        bound_union(target.3, base.3) == bound_union(base.3, target.3).map_values(|p: BoundPair| swap_pair(p)),
        forall|i: int|
            0 <= i < bound_union(base.3, target.3).len() ==> same_identity(
                #[trigger] bound_union(base.3, target.3)[i],
            ),
        forall|p: BoundPair|
            #![trigger entity_entry(swap_pair(p))]
            same_identity(p) ==> entity_entry(swap_pair(p)) == entity_entry(p).map_values(
                |e: EntityView| mirror_entry(e),
            ),
        relation_merge(target.4, base.4) == relation_merge(base.4, target.4).map_values(
            |r: RelationView| flip_relation(r),
        ),
        ({
            let f = root_sets(base, target, collateral);
            root_sets(target, base, collateral) == seq![f[1], f[0], f[3], f[2], f[4]]
        }),
{
    lemma_union_swap(base.3, target.3);
    lemma_union_same_identity(base.3, target.3);
    lemma_merge_swap(base.4, target.4);
    assert forall|p: BoundPair| #![trigger entity_entry(swap_pair(p))] same_identity(p) implies entity_entry(
        swap_pair(p),
    ) == entity_entry(p).map_values(|e: EntityView| mirror_entry(e)) by {
        let fwd = entity_entry(p);
        let bwd = entity_entry(swap_pair(p));
        match p {
            (Some(b), Some(t)) => {
                if b.2 != t.2 {
                    assert(crate::compare_roots::change_of(t, b) == crate::compare_roots::change_of(b, t));
                    assert(bwd[0] == mirror_entry(fwd[0]));
                }
            },
            (Some(b), None) => {
                assert(bwd[0] == mirror_entry(fwd[0]));
            },
            (None, Some(t)) => {
                assert(bwd[0] == mirror_entry(fwd[0]));
            },
            (None, None) => {},
        }
        assert(bwd =~= fwd.map_values(|e: EntityView| mirror_entry(e)));
    }
    let f = root_sets(base, target, collateral);
    assert(root_sets(target, base, collateral) =~= seq![f[1], f[0], f[3], f[2], f[4]]);
}

proof fn lemma_kept_in_has(xs: Seq<Seq<u8>>, ys: Seq<Seq<u8>>, x: Seq<u8>)
    ensures
        kept_in(xs, ys).contains(x) <==> xs.contains(x) && ys.contains(x),
    decreases xs.len(),
{
    if xs.len() > 0 {
        let d = xs.drop_last();
        lemma_kept_in_has(d, ys, x);
        let tail = if ys.contains(xs.last()) {
            seq![xs.last()]
        } else {
            Seq::<Seq<u8>>::empty()
        };
        let k = kept_in(d, ys);
        assert(kept_in(xs, ys) == k + tail);
        assert(xs =~= d.push(xs.last()));
        if kept_in(xs, ys).contains(x) {
            let i = choose|i: int| 0 <= i < (k + tail).len() && (k + tail)[i] == x;
            if i < k.len() {
                assert(k[i] == x);
            } else {
                assert(xs[xs.len() - 1] == x);
            }
        }
        if xs.contains(x) && ys.contains(x) {
            let i = choose|i: int| 0 <= i < xs.len() && xs[i] == x;
            if i < d.len() {
                assert(d[i] == x);
                let j = choose|j: int| 0 <= j < k.len() && k[j] == x;
                assert((k + tail)[j] == x);
            } else {
                assert((k + tail)[k.len() as int] == x);
            }
        }
    }
}

proof fn lemma_concat_has(a: Seq<Seq<u8>>, b: Seq<Seq<u8>>, x: Seq<u8>)
    ensures
        (a + b).contains(x) <==> a.contains(x) || b.contains(x),
{
    if (a + b).contains(x) {
        let i = choose|i: int| 0 <= i < (a + b).len() && (a + b)[i] == x;
        if i < a.len() {
            assert(a[i] == x);
        } else {
            assert(b[i - a.len()] == x);
        }
    }
    if a.contains(x) {
        let i = choose|i: int| 0 <= i < a.len() && a[i] == x;
        assert((a + b)[i] == x);
    }
    if b.contains(x) {
        let i = choose|i: int| 0 <= i < b.len() && b[i] == x;
        assert((a + b)[a.len() + i] == x);
    }
}

/// Comparing in the other direction gives the same collateral set: where
/// the other direction's closures are this direction's with the roots
/// swapped, and its entity entries are this direction's mirrored, the
/// reached identities both roots bind without an entity entry are the same
/// list.
pub proof fn lemma_swapped_collateral_same(
    base_seeds: Seq<Seq<u8>>,
    base_reached: Seq<Seq<u8>>,
    target_seeds: Seq<Seq<u8>>,
    target_reached: Seq<Seq<u8>>,
    base: RootSideView,
    target: RootSideView,
    es: Seq<EntityView>,
)
    ensures
        collateral_spec(
            reached_ids(target_seeds, target_reached, base_seeds, base_reached),
            target,
            base,
            es.map_values(|e: EntityView| mirror_entry(e)),
        ) == collateral_spec(reached_ids(base_seeds, base_reached, target_seeds, target_reached), base, target, es),
{
    let fwd_reached = reached_ids(base_seeds, base_reached, target_seeds, target_reached);
    let bwd_reached = reached_ids(target_seeds, target_reached, base_seeds, base_reached);
    let fwd_from = kept_in(kept_in(fwd_reached, bound_ids(base.3)), bound_ids(target.3));
    let bwd_from = kept_in(kept_in(bwd_reached, bound_ids(target.3)), bound_ids(base.3));
    let mes = es.map_values(|e: EntityView| mirror_entry(e));
    assert(entry_ids(mes) =~= entry_ids(es));
    let fb = if base_seeds.len() == 0 {
        Seq::<Seq<u8>>::empty()
    } else {
        base_reached
    };
    let ft = if target_seeds.len() == 0 {
        Seq::<Seq<u8>>::empty()
    } else {
        target_reached
    };
    assert(fwd_reached == fb + ft);
    assert(bwd_reached == ft + fb);
    assert forall|x: Seq<u8>| fwd_from.contains(x) <==> bwd_from.contains(x) by {
        lemma_kept_in_has(kept_in(fwd_reached, bound_ids(base.3)), bound_ids(target.3), x);
        lemma_kept_in_has(fwd_reached, bound_ids(base.3), x);
        lemma_kept_in_has(kept_in(bwd_reached, bound_ids(target.3)), bound_ids(base.3), x);
        lemma_kept_in_has(bwd_reached, bound_ids(target.3), x);
        lemma_concat_has(fb, ft, x);
        lemma_concat_has(ft, fb, x);
    }
    let f = difference(fwd_from, entry_ids(es));
    let b = difference(bwd_from, entry_ids(es));
    lemma_difference_exists(fwd_from, entry_ids(es));
    lemma_difference_exists(bwd_from, entry_ids(es));
    assert forall|x: Seq<u8>| f.contains(x) <==> b.contains(x) by {
        assert(f.contains(x) <==> fwd_from.contains(x) && !entry_ids(es).contains(x));
        assert(b.contains(x) <==> bwd_from.contains(x) && !entry_ids(es).contains(x));
    }
    lemma_ascending_unique(f, b);
}

proof fn lemma_seed_ids_hold(es: Seq<EntityView>, bs: Seq<BodyView>, at_base: bool, i: int)
    requires
        0 <= i < es.len(),
        es[i].1 == ChangeClass::Changed || es[i].1 == ChangeClass::Retyped || (at_base && es[i].1
            == ChangeClass::Removed) || (!at_base && es[i].1 == ChangeClass::Added),
    ensures
        seed_ids(es, bs, at_base).contains(es[i].0),
    decreases es.len() + bs.len(),
{
    if bs.len() > 0 {
        lemma_seed_ids_hold(es, bs.drop_last(), at_base, i);
        let s = seed_ids(es, bs.drop_last(), at_base);
        let k = choose|k: int| 0 <= k < s.len() && s[k] == es[i].0;
        assert(s.push(bs.last().0)[k] == es[i].0);
    } else if i < es.len() - 1 {
        let d = es.drop_last();
        assert(d[i] == es[i]);
        lemma_seed_ids_hold(d, bs, at_base, i);
        let s = seed_ids(d, bs, at_base);
        let k = choose|k: int| 0 <= k < s.len() && s[k] == es[i].0;
        let tail = if seeds_at(es.last().1, at_base) {
            seq![es.last().0]
        } else {
            Seq::<Seq<u8>>::empty()
        };
        assert((s + tail)[k] == es[i].0);
    } else {
        let s = seed_ids(es.drop_last(), bs, at_base);
        assert(es.last() == es[i]);
        assert((s + seq![es.last().0])[s.len() as int] == es[i].0);
    }
}

/// Every entity entry seeds the impact closures it must: a changed or
/// retyped identity seeds the closure at both roots, a removed one the
/// closure at the base and an added one the closure at the target.
pub proof fn lemma_entries_seed_closures(es: Seq<EntityView>, bs: Seq<BodyView>)
    ensures
        forall|i: int|
            0 <= i < es.len() && (es[i].1 == ChangeClass::Changed || es[i].1 == ChangeClass::Retyped
                || es[i].1 == ChangeClass::Removed) ==> difference(seed_ids(es, bs, true), Seq::empty()).contains(
                #[trigger] es[i].0,
            ),
        forall|i: int|
            0 <= i < es.len() && (es[i].1 == ChangeClass::Changed || es[i].1 == ChangeClass::Retyped
                || es[i].1 == ChangeClass::Added) ==> difference(seed_ids(es, bs, false), Seq::empty()).contains(
                #[trigger] es[i].0,
            ),
{
    lemma_difference_exists(seed_ids(es, bs, true), Seq::empty());
    lemma_difference_exists(seed_ids(es, bs, false), Seq::empty());
    assert forall|i: int|
        0 <= i < es.len() && (es[i].1 == ChangeClass::Changed || es[i].1 == ChangeClass::Retyped || es[i].1
            == ChangeClass::Removed) implies difference(seed_ids(es, bs, true), Seq::empty()).contains(
        #[trigger] es[i].0,
    ) by {
        lemma_seed_ids_hold(es, bs, true, i);
    }
    assert forall|i: int|
        0 <= i < es.len() && (es[i].1 == ChangeClass::Changed || es[i].1 == ChangeClass::Retyped || es[i].1
            == ChangeClass::Added) implies difference(seed_ids(es, bs, false), Seq::empty()).contains(
        #[trigger] es[i].0,
    ) by {
        lemma_seed_ids_hold(es, bs, false, i);
    }
}

proof fn lemma_seed_ids_only(es: Seq<EntityView>, bs: Seq<BodyView>, at_base: bool, x: Seq<u8>)
    requires
        seed_ids(es, bs, at_base).contains(x),
    ensures
        (exists|i: int|
            0 <= i < es.len() && (#[trigger] es[i]).0 == x && (es[i].1 == ChangeClass::Changed || es[i].1
                == ChangeClass::Retyped || (at_base && es[i].1 == ChangeClass::Removed) || (!at_base && es[i].1
                == ChangeClass::Added))) || (exists|j: int| 0 <= j < bs.len() && (#[trigger] bs[j]).0 == x),
    decreases es.len() + bs.len(),
{
    if bs.len() > 0 {
        let s = seed_ids(es, bs.drop_last(), at_base);
        let k = choose|k: int| 0 <= k < s.push(bs.last().0).len() && s.push(bs.last().0)[k] == x;
        if k < s.len() {
            assert(s[k] == x);
            lemma_seed_ids_only(es, bs.drop_last(), at_base, x);
            if exists|j: int| 0 <= j < bs.drop_last().len() && (#[trigger] bs.drop_last()[j]).0 == x {
                let j = choose|j: int| 0 <= j < bs.drop_last().len() && (#[trigger] bs.drop_last()[j]).0 == x;
                assert(bs[j] == bs.drop_last()[j]);
            }
        } else {
            assert(bs[bs.len() - 1].0 == x);
        }
    } else if es.len() > 0 {
        let d = es.drop_last();
        let s = seed_ids(d, bs, at_base);
        let tail = if seeds_at(es.last().1, at_base) {
            seq![es.last().0]
        } else {
            Seq::<Seq<u8>>::empty()
        };
        let k = choose|k: int| 0 <= k < (s + tail).len() && (s + tail)[k] == x;
        if k < s.len() {
            assert(s[k] == x);
            lemma_seed_ids_only(d, bs, at_base, x);
            if exists|i: int|
                0 <= i < d.len() && (#[trigger] d[i]).0 == x && (d[i].1 == ChangeClass::Changed || d[i].1
                    == ChangeClass::Retyped || (at_base && d[i].1 == ChangeClass::Removed) || (!at_base && d[i].1
                    == ChangeClass::Added)) {
                let i = choose|i: int|
                    0 <= i < d.len() && (#[trigger] d[i]).0 == x && (d[i].1 == ChangeClass::Changed || d[i].1
                        == ChangeClass::Retyped || (at_base && d[i].1 == ChangeClass::Removed) || (!at_base
                        && d[i].1 == ChangeClass::Added));
                assert(es[i] == d[i]);
            }
        } else {
            let i = es.len() - 1;
            assert(es[i] == es.last());
            assert(es[i].0 == x);
        }
    }
}

/// The closure seeds are exactly what must seed them: an identity seeds
/// the closure at the base when an entity entry changed, retyped or
/// removed it, or a body entry names it; and at the target when an entity
/// entry changed, retyped or added it, or a body entry names it.
pub proof fn lemma_seeds_exact(es: Seq<EntityView>, bs: Seq<BodyView>, at_base: bool, x: Seq<u8>)
    ensures
        difference(seed_ids(es, bs, at_base), Seq::empty()).contains(x) <==> (exists|i: int|
            0 <= i < es.len() && (#[trigger] es[i]).0 == x && (es[i].1 == ChangeClass::Changed || es[i].1
                == ChangeClass::Retyped || (at_base && es[i].1 == ChangeClass::Removed) || (!at_base && es[i].1
                == ChangeClass::Added))) || (exists|j: int| 0 <= j < bs.len() && (#[trigger] bs[j]).0 == x),
{
    lemma_difference_exists(seed_ids(es, bs, at_base), Seq::empty());
    let d = difference(seed_ids(es, bs, at_base), Seq::empty());
    assert(d.contains(x) <==> seed_ids(es, bs, at_base).contains(x));
    if seed_ids(es, bs, at_base).contains(x) {
        lemma_seed_ids_only(es, bs, at_base, x);
    }
    if exists|i: int|
        0 <= i < es.len() && (#[trigger] es[i]).0 == x && (es[i].1 == ChangeClass::Changed || es[i].1
            == ChangeClass::Retyped || (at_base && es[i].1 == ChangeClass::Removed) || (!at_base && es[i].1
            == ChangeClass::Added)) {
        let i = choose|i: int|
            0 <= i < es.len() && (#[trigger] es[i]).0 == x && (es[i].1 == ChangeClass::Changed || es[i].1
                == ChangeClass::Retyped || (at_base && es[i].1 == ChangeClass::Removed) || (!at_base && es[i].1
                == ChangeClass::Added));
        lemma_seed_ids_hold(es, bs, at_base, i);
    }
    if exists|j: int| 0 <= j < bs.len() && (#[trigger] bs[j]).0 == x {
        let j = choose|j: int| 0 <= j < bs.len() && (#[trigger] bs[j]).0 == x;
        lemma_body_seeds(es, bs, at_base, j);
    }
}

proof fn lemma_body_seeds(es: Seq<EntityView>, bs: Seq<BodyView>, at_base: bool, j: int)
    requires
        0 <= j < bs.len(),
    ensures
        seed_ids(es, bs, at_base).contains(bs[j].0),
    decreases bs.len(),
{
    let s = seed_ids(es, bs.drop_last(), at_base);
    if j < bs.len() - 1 {
        assert(bs.drop_last()[j] == bs[j]);
        lemma_body_seeds(es, bs.drop_last(), at_base, j);
        let k = choose|k: int| 0 <= k < s.len() && s[k] == bs[j].0;
        assert(s.push(bs.last().0)[k] == bs[j].0);
    } else {
        assert(s.push(bs.last().0)[s.len() as int] == bs[j].0);
    }
}

} // verus!
