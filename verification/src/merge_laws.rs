//! The law that a merge judged with ours and theirs exchanged is the same
//! merge seen from the other side.

use vstd::prelude::*;

use crate::compare_fields::RootEntity;
use crate::compare_roots::EdgeView;
use crate::delta::{EntityDelta, FieldDelta};
use crate::merge::{anchor_conflicts_spec, lemma_anchor_conflicts_symmetric, ConflictEntry, MAX_MERGE_WORK};
use crate::merge_collateral::{collateral_spec, lemma_collateral_mirrored, Binding};
use crate::merge_compose::lemma_compose_within;
use crate::merge_judge::{
    entry_union, judge_fold, judge_step, lemma_judgment_symmetric, swap_objects, EntryPair,
};

verus! {

proof fn lemma_judge_fold_within(
    ps: Seq<EntryPair>,
    base: Seq<RootEntity>,
    ours: Seq<RootEntity>,
    theirs: Seq<RootEntity>,
    fa: Seq<FieldDelta>,
    fb: Seq<FieldDelta>,
    spent: int,
)
    requires
        0 <= spent <= MAX_MERGE_WORK,
    ensures
        judge_fold(ps, base, ours, theirs, fa, fb, spent) matches Ok((_, w)) ==> spent <= w <= MAX_MERGE_WORK,
    decreases ps.len(),
{
    if ps.len() > 0 {
        lemma_judge_fold_within(ps.drop_last(), base, ours, theirs, fa, fb, spent);
        match judge_fold(ps.drop_last(), base, ours, theirs, fa, fb, spent) {
            Ok((acc, w)) => {
                if w + 1 <= MAX_MERGE_WORK {
                    let p = ps.last();
                    let id = crate::merge_judge::pair_id(p);
                    match (
                        crate::merge_judge::entity_at(base, id@),
                        crate::merge_judge::entity_at(ours, id@),
                        crate::merge_judge::entity_at(theirs, id@),
                    ) {
                        (Some(b), Some(o), Some(t)) => {
                            let bv = crate::compare_fields::field_value_views(b.fields@);
                            let ov = crate::compare_fields::field_value_views(o.fields@);
                            let tv = crate::compare_fields::field_value_views(t.fields@);
                            let da = crate::merge_judge::fields_of(fa, id@);
                            let db = crate::merge_judge::fields_of(fb, id@);
                            lemma_compose_within(
                                b.kind,
                                crate::merge_compose::field_union(da, db),
                                bv,
                                ov,
                                tv,
                                da,
                                db,
                                w + 1,
                            );
                        },
                        _ => {},
                    }
                    assert(judge_fold(ps, base, ours, theirs, fa, fb, spent) == judge_step(
                        p,
                        base,
                        ours,
                        theirs,
                        fa,
                        fb,
                        acc,
                        w + 1,
                    ));
                }
            },
            Err(_) => {},
        }
    }
}

/// A merge judged with ours and theirs exchanged is the same merge seen
/// from the other side. The identity judgment fails alike, or binds,
/// composes and overrides the same identities with the same work. The
/// collateral rule that follows then fails alike, or charges the same
/// work. The anchor conflicts, the identity conflicts and the collateral
/// conflicts together are the same conflicts, each with ours' and theirs'
/// objects exchanged.
pub proof fn lemma_merge_mirrored(
    delta_a: Seq<EntityDelta>,
    delta_b: Seq<EntityDelta>,
    fields_a: Seq<FieldDelta>,
    fields_b: Seq<FieldDelta>,
    base: Seq<RootEntity>,
    ours: Seq<RootEntity>,
    theirs: Seq<RootEntity>,
    edges_a: Seq<EdgeView>,
    edges_b: Seq<EdgeView>,
    bindings: Seq<Binding>,
    contract: (Seq<u8>, Seq<u8>, Seq<u8>),
    test: (Seq<u8>, Seq<u8>, Seq<u8>),
    policy: (Seq<u8>, Seq<u8>, Seq<u8>),
    spent: int,
)
    requires
        0 <= spent <= MAX_MERGE_WORK,
    ensures
        ({
            let fwd = judge_fold(entry_union(delta_a, delta_b), base, ours, theirs, fields_a, fields_b, spent);
            let bwd = judge_fold(entry_union(delta_b, delta_a), base, theirs, ours, fields_b, fields_a, spent);
            &&& anchor_conflicts_spec(contract, test, policy) == anchor_conflicts_spec(
                (contract.0, contract.2, contract.1),
                (test.0, test.2, test.1),
                (policy.0, policy.2, policy.1),
            )
            &&& fwd is Err <==> bwd is Err
            &&& fwd matches Err(e) ==> bwd == fwd
            &&& fwd matches Ok((x, w)) ==> bwd matches Ok((y, u)) && u == w && y.1 == x.1 && y.2 == x.2
                && y.3 == x.3 && {
                let cf = collateral_spec(delta_a, delta_b, edges_a, edges_b, bindings, base, ours, theirs, w);
                let cb = collateral_spec(delta_b, delta_a, edges_b, edges_a, bindings, base, theirs, ours, w);
                &&& cf is Err <==> cb is Err
                &&& cf matches Ok((c1, w1)) ==> cb matches Ok((c2, w2)) && w2 == w1 && (y.0 + c2).to_multiset()
                    == (x.0 + c1).map_values(|c: ConflictEntry| swap_objects(c)).to_multiset()
            }
        }),
{
    lemma_anchor_conflicts_symmetric(contract, test, policy);
    lemma_judgment_symmetric(delta_a, delta_b, base, ours, theirs, fields_a, fields_b, spent);
    let fwd = judge_fold(entry_union(delta_a, delta_b), base, ours, theirs, fields_a, fields_b, spent);
    lemma_judge_fold_within(entry_union(delta_a, delta_b), base, ours, theirs, fields_a, fields_b, spent);
    match fwd {
        Ok((x, w)) => {
            lemma_collateral_mirrored(delta_a, delta_b, edges_a, edges_b, bindings, base, ours, theirs, w);
            let cf = collateral_spec(delta_a, delta_b, edges_a, edges_b, bindings, base, ours, theirs, w);
            let cb = collateral_spec(delta_b, delta_a, edges_b, edges_a, bindings, base, theirs, ours, w);
            match (cf, cb) {
                (Ok((c1, w1)), Ok((c2, w2))) => {
                    let y0 = x.0.map_values(|c: ConflictEntry| swap_objects(c));
                    let s1 = c1.map_values(|c: ConflictEntry| swap_objects(c));
                    assert((x.0 + c1).map_values(|c: ConflictEntry| swap_objects(c)) =~= y0 + s1);
                    vstd::seq_lib::lemma_multiset_commutative(y0, c2);
                    vstd::seq_lib::lemma_multiset_commutative(y0, s1);
                },
                _ => {},
            }
        },
        Err(_) => {},
    }
}

} // verus!
