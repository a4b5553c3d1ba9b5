//! The checks a merge makes of its three sides before judging identities,
//! and the entity set a clean merge binds.

use vstd::prelude::*;

use crate::bytes::bytes_equal;
use crate::compare::CompareError;
use crate::delta::SemanticDelta;
use crate::digest::digests_view;
use crate::merge::{MergeError, MergeErrorCode};
use crate::merge_collateral::Binding;
use crate::ordered::{ids_ascending, sorted_set};

verus! {

/// Checks that ours and theirs share the ancestor's workspace and then its
/// schema epoch.
pub fn check_sides_agree(
    workspace: &[u8; 32],
    ours_workspace: &[u8; 32],
    theirs_workspace: &[u8; 32],
    epoch: &[u8; 32],
    ours_epoch: &[u8; 32],
    theirs_epoch: &[u8; 32],
) -> (r: Result<(), MergeError>)
    ensures
        if ours_workspace@ != workspace@ || theirs_workspace@ != workspace@ {
            r == Err::<(), MergeError>(MergeError::Merge(MergeErrorCode::WorkspaceMismatch))
        } else if ours_epoch@ != epoch@ || theirs_epoch@ != epoch@ {
            r == Err::<(), MergeError>(MergeError::Merge(MergeErrorCode::EpochMismatch))
        } else {
            r is Ok
        },
{
    if !bytes_equal(ours_workspace.as_slice(), workspace.as_slice()) || !bytes_equal(
        theirs_workspace.as_slice(),
        workspace.as_slice(),
    ) {
        return Err(MergeError::Merge(MergeErrorCode::WorkspaceMismatch));
    }
    if !bytes_equal(ours_epoch.as_slice(), epoch.as_slice()) || !bytes_equal(theirs_epoch.as_slice(), epoch.as_slice()) {
        return Err(MergeError::Merge(MergeErrorCode::EpochMismatch));
    }
    Ok(())
}

/// Checks that neither side's delta against the ancestor adds or removes a
/// dependency root.
pub fn check_dependency_roots_kept(delta_a: &SemanticDelta, delta_b: &SemanticDelta) -> (r: Result<(), MergeError>)
    ensures
        if delta_a.dependency_roots_added@.len() == 0 && delta_a.dependency_roots_removed@.len() == 0
            && delta_b.dependency_roots_added@.len() == 0 && delta_b.dependency_roots_removed@.len() == 0 {
            r is Ok
        } else {
            r == Err::<(), MergeError>(MergeError::Merge(MergeErrorCode::DependencyRootChangeUnsupported))
        },
{
    if delta_a.dependency_roots_added.len() != 0 || delta_a.dependency_roots_removed.len() != 0
        || delta_b.dependency_roots_added.len() != 0 || delta_b.dependency_roots_removed.len() != 0 {
        return Err(MergeError::Merge(MergeErrorCode::DependencyRootChangeUnsupported));
    }
    Ok(())
}

/// Takes the comparisons of ours and of theirs against the ancestor: the
/// first that failed fails the merge as `MERGE_COMPARE_FAILED` with its
/// failure preserved; two deltas then must keep the dependency roots.
pub fn merge_deltas(
    delta_a: Result<SemanticDelta, CompareError>,
    delta_b: Result<SemanticDelta, CompareError>,
) -> (r: Result<(SemanticDelta, SemanticDelta), MergeError>)
    ensures
        match (delta_a, delta_b) {
            (Err(e), _) => r == Err::<(SemanticDelta, SemanticDelta), MergeError>(MergeError::Compare(e)),
            (Ok(_), Err(e)) => r == Err::<(SemanticDelta, SemanticDelta), MergeError>(MergeError::Compare(e)),
            (Ok(a), Ok(b)) => if a.dependency_roots_added@.len() == 0 && a.dependency_roots_removed@.len() == 0
                && b.dependency_roots_added@.len() == 0 && b.dependency_roots_removed@.len() == 0 {
                r == Ok::<(SemanticDelta, SemanticDelta), MergeError>((a, b))
            } else {
                r == Err::<(SemanticDelta, SemanticDelta), MergeError>(
                    MergeError::Merge(MergeErrorCode::DependencyRootChangeUnsupported),
                )
            },
        },
{
    let a = match delta_a {
        Ok(a) => a,
        Err(e) => {
            return Err(MergeError::from_compare(e));
        },
    };
    let b = match delta_b {
        Ok(b) => b,
        Err(e) => {
            return Err(MergeError::from_compare(e));
        },
    };
    check_dependency_roots_kept(&a, &b)?;
    Ok((a, b))
}

/// A root binding: an identity and its object.
pub type Bound = ([u8; 32], [u8; 32]);

/// The object the first entry of `bs` for `id` binds.
pub open spec fn bound_at(bs: Seq<Bound>, id: Seq<u8>) -> Option<[u8; 32]>
    decreases bs.len(),
{
    if bs.len() == 0 {
        None
    } else if bs[0].0@ == id {
        Some(bs[0].1)
    } else {
        bound_at(bs.drop_first(), id)
    }
}

/// What the first judged binding of `id` decides: `None` where the
/// judgment did not bind it, `Some(None)` where it removes it.
pub open spec fn judged_at(bs: Seq<Binding>, id: Seq<u8>) -> Option<Option<[u8; 32]>>
    decreases bs.len(),
{
    if bs.len() == 0 {
        None
    } else if bs[0].0@ == id {
        Some(bs[0].1)
    } else {
        judged_at(bs.drop_first(), id)
    }
}

/// The object a clean merge binds `id` to: a composed object, else the
/// judgment's binding, else the ancestor's.
pub open spec fn merged_at(base: Seq<Bound>, judged: Seq<Binding>, composed: Seq<Bound>, id: Seq<u8>) -> Option<
    [u8; 32],
> {
    match bound_at(composed, id) {
        Some(o) => Some(o),
        None => match judged_at(judged, id) {
            Some(o) => o,
            None => bound_at(base, id),
        },
    }
}

fn find_bound(bs: &Vec<Bound>, id: &[u8; 32]) -> (r: Option<[u8; 32]>)
    ensures
        r == bound_at(bs@, id@),
{
    let mut i: usize = 0;
    assert(bs@.skip(0) =~= bs@);
    while i < bs.len()
        invariant
            i <= bs@.len(),
            bound_at(bs@, id@) == bound_at(bs@.skip(i as int), id@),
        decreases bs.len() - i,
    {
        let ghost rest = bs@.skip(i as int);
        assert(rest[0] == bs@[i as int]);
        assert(rest.drop_first() =~= bs@.skip(i + 1));
        if bytes_equal(bs[i].0.as_slice(), id.as_slice()) {
            return Some(bs[i].1);
        }
        i = i + 1;
    }
    None
}

fn find_judged(bs: &Vec<Binding>, id: &[u8; 32]) -> (r: Option<Option<[u8; 32]>>)
    ensures
        r == judged_at(bs@, id@),
{
    let mut i: usize = 0;
    assert(bs@.skip(0) =~= bs@);
    while i < bs.len()
        invariant
            i <= bs@.len(),
            judged_at(bs@, id@) == judged_at(bs@.skip(i as int), id@),
        decreases bs.len() - i,
    {
        let ghost rest = bs@.skip(i as int);
        assert(rest[0] == bs@[i as int]);
        assert(rest.drop_first() =~= bs@.skip(i + 1));
        if bytes_equal(bs[i].0.as_slice(), id.as_slice()) {
            return Some(bs[i].1);
        }
        i = i + 1;
    }
    None
}

proof fn lemma_bound_at_some(bs: Seq<Bound>, id: Seq<u8>)
    ensures
        bound_at(bs, id) is Some <==> exists|k: int| 0 <= k < bs.len() && (#[trigger] bs[k]).0@ == id,
    decreases bs.len(),
{
    if bs.len() > 0 {
        lemma_bound_at_some(bs.drop_first(), id);
        if exists|k: int| 0 <= k < bs.len() && (#[trigger] bs[k]).0@ == id {
            let k = choose|k: int| 0 <= k < bs.len() && (#[trigger] bs[k]).0@ == id;
            if k > 0 {
                assert(bs.drop_first()[k - 1] == bs[k]);
            }
        }
        if exists|k: int| 0 <= k < bs.len() - 1 && (#[trigger] bs.drop_first()[k]).0@ == id {
            let k = choose|k: int| 0 <= k < bs.len() - 1 && (#[trigger] bs.drop_first()[k]).0@ == id;
            assert(bs[k + 1] == bs.drop_first()[k]);
        }
    }
}

proof fn lemma_judged_at_some(bs: Seq<Binding>, id: Seq<u8>)
    ensures
        judged_at(bs, id) is Some <==> exists|k: int| 0 <= k < bs.len() && (#[trigger] bs[k]).0@ == id,
    decreases bs.len(),
{
    if bs.len() > 0 {
        lemma_judged_at_some(bs.drop_first(), id);
        if exists|k: int| 0 <= k < bs.len() && (#[trigger] bs[k]).0@ == id {
            let k = choose|k: int| 0 <= k < bs.len() && (#[trigger] bs[k]).0@ == id;
            if k > 0 {
                assert(bs.drop_first()[k - 1] == bs[k]);
            }
        }
        if exists|k: int| 0 <= k < bs.len() - 1 && (#[trigger] bs.drop_first()[k]).0@ == id {
            let k = choose|k: int| 0 <= k < bs.len() - 1 && (#[trigger] bs.drop_first()[k]).0@ == id;
            assert(bs[k + 1] == bs.drop_first()[k]);
        }
    }
}

/// The entity set a clean merge binds: the ancestor's bindings, with each
/// judged binding applied (taking a side's object or removing the
/// identity) and each composed object bound, ascending by identity, each
/// identity once.
pub fn merged_bindings(base: &Vec<Bound>, judged: &Vec<Binding>, composed: &Vec<Bound>) -> (r: Vec<Bound>)
    ensures
        ids_ascending(r@.map_values(|b: Bound| b.0@)),
        forall|k: int| 0 <= k < r@.len() ==> merged_at(base@, judged@, composed@, (#[trigger] r@[k]).0@) == Some(r@[k].1),
        forall|id: Seq<u8>|
            merged_at(base@, judged@, composed@, id) is Some ==> r@.map_values(|b: Bound| b.0@).contains(id),
{
    let mut all: Vec<[u8; 32]> = Vec::new();
    let mut i: usize = 0;
    while i < base.len()
        invariant
            i <= base@.len(),
            forall|k: int| 0 <= k < i ==> digests_view(all@).contains(#[trigger] base@[k].0@),
        decreases base.len() - i,
    {
        let ghost before = digests_view(all@);
        all.push(base[i].0);
        proof {
            let now = digests_view(all@);
            assert(now =~= before.push(base@[i as int].0@));
            assert(now[before.len() as int] == base@[i as int].0@);
            assert forall|k: int| 0 <= k < i + 1 implies now.contains(#[trigger] base@[k].0@) by {
                if k < i {
                    let m = choose|m: int| 0 <= m < before.len() && before[m] == base@[k].0@;
                    assert(now[m] == before[m]);
                }
            }
        }
        i = i + 1;
    }
    let mut j: usize = 0;
    while j < judged.len()
        invariant
            j <= judged@.len(),
            forall|k: int| 0 <= k < base@.len() ==> digests_view(all@).contains(#[trigger] base@[k].0@),
            forall|k: int| 0 <= k < j ==> digests_view(all@).contains(#[trigger] judged@[k].0@),
        decreases judged.len() - j,
    {
        let ghost before = digests_view(all@);
        all.push(judged[j].0);
        proof {
            let now = digests_view(all@);
            assert(now =~= before.push(judged@[j as int].0@));
            assert(now[before.len() as int] == judged@[j as int].0@);
            assert forall|x: Seq<u8>| before.contains(x) implies now.contains(x) by {
                let m = choose|m: int| 0 <= m < before.len() && before[m] == x;
                assert(now[m] == x);
            }
        }
        j = j + 1;
    }
    let mut c: usize = 0;
    while c < composed.len()
        invariant
            c <= composed@.len(),
            forall|k: int| 0 <= k < base@.len() ==> digests_view(all@).contains(#[trigger] base@[k].0@),
            forall|k: int| 0 <= k < judged@.len() ==> digests_view(all@).contains(#[trigger] judged@[k].0@),
            forall|k: int| 0 <= k < c ==> digests_view(all@).contains(#[trigger] composed@[k].0@),
        decreases composed.len() - c,
    {
        let ghost before = digests_view(all@);
        all.push(composed[c].0);
        proof {
            let now = digests_view(all@);
            assert(now =~= before.push(composed@[c as int].0@));
            assert(now[before.len() as int] == composed@[c as int].0@);
            assert forall|x: Seq<u8>| before.contains(x) implies now.contains(x) by {
                let m = choose|m: int| 0 <= m < before.len() && before[m] == x;
                assert(now[m] == x);
            }
        }
        c = c + 1;
    }
    let ids = sorted_set(&all);
    let ghost iv = digests_view(ids@);
    let mut out: Vec<Bound> = Vec::new();
    let mut k: usize = 0;
    while k < ids.len()
        invariant
            k <= ids@.len(),
            iv == digests_view(ids@),
            ids_ascending(iv),
            forall|x: Seq<u8>| iv.contains(x) <==> digests_view(all@).contains(x),
            forall|m: int| 0 <= m < out@.len() ==> merged_at(base@, judged@, composed@, (#[trigger] out@[m]).0@) == Some(out@[m].1),
            forall|m: int| 0 <= m < k ==> (merged_at(base@, judged@, composed@, #[trigger] iv[m]) is Some ==> out@.map_values(
                |b: Bound| b.0@,
            ).contains(iv[m])),
            forall|m: int| 0 <= m < out@.len() ==> exists|q: int| 0 <= q < k && (#[trigger] out@[m]).0@ == iv[q],
            ids_ascending(out@.map_values(|b: Bound| b.0@)),
            forall|m: int, q: int| 0 <= m < out@.len() && k <= q < iv.len() ==> crate::bytes::lex(#[trigger] out@[m].0@, #[trigger] iv[q]) == crate::bytes::ByteOrder::Less,
        decreases ids.len() - k,
    {
        let id = ids[k];
        let merged = match find_bound(composed, &id) {
            Some(o) => Some(o),
            None => match find_judged(judged, &id) {
                Some(o) => o,
                None => find_bound(base, &id),
            },
        };
        let ghost ov = out@.map_values(|b: Bound| b.0@);
        let ghost prev = out@;
        assert(iv[k as int] == id@);
        match merged {
            Some(o) => {
                out.push((id, o));
                proof {
                    let nv = out@.map_values(|b: Bound| b.0@);
                    assert(nv =~= ov.push(id@));
                    assert(nv[ov.len() as int] == id@);
                    assert forall|m: int, q: int| 0 <= m < nv.len() && k + 1 <= q < iv.len() implies crate::bytes::lex(
                        #[trigger] out@[m].0@,
                        #[trigger] iv[q],
                    ) == crate::bytes::ByteOrder::Less by {
                        if m == ov.len() {
                            assert(out@[m].0@ == iv[k as int]);
                        } else {
                            assert(out@[m] == prev[m]);
                        }
                    }
                    assert forall|a: int, b: int| 0 <= a < b < nv.len() implies crate::bytes::lex(#[trigger] nv[a], #[trigger] nv[b])
                        == crate::bytes::ByteOrder::Less by {
                        if b == ov.len() {
                            assert(nv[a] == out@[a].0@);
                            assert(nv[b] == iv[k as int]);
                        } else {
                            assert(nv[a] == ov[a] && nv[b] == ov[b]);
                        }
                    }
                    assert forall|m: int| 0 <= m < k + 1 && merged_at(base@, judged@, composed@, #[trigger] iv[m]) is Some
                        implies nv.contains(iv[m]) by {
                        if m < k {
                            let p = choose|p: int| 0 <= p < ov.len() && ov[p] == iv[m];
                            assert(nv[p] == iv[m]);
                        }
                    }
                    assert forall|m: int| 0 <= m < out@.len() implies exists|q: int| 0 <= q < k + 1 && (#[trigger] out@[m]).0@ == iv[q] by {
                        if m == ov.len() {
                            assert(out@[m].0@ == iv[k as int]);
                        }
                    }
                }
            },
            None => {
                proof {
                    assert forall|m: int, q: int| 0 <= m < out@.len() && k + 1 <= q < iv.len() implies crate::bytes::lex(
                        #[trigger] out@[m].0@,
                        #[trigger] iv[q],
                    ) == crate::bytes::ByteOrder::Less by {}
                }
            },
        }
        k = k + 1;
    }
    proof {
        let rv = out@.map_values(|b: Bound| b.0@);
        assert forall|id: Seq<u8>| merged_at(base@, judged@, composed@, id) is Some implies rv.contains(id) by {
            lemma_bound_at_some(composed@, id);
            lemma_judged_at_some(judged@, id);
            lemma_bound_at_some(base@, id);
            if bound_at(composed@, id) is Some {
                let q = choose|q: int| 0 <= q < composed@.len() && (#[trigger] composed@[q]).0@ == id;
                assert(digests_view(all@).contains(composed@[q].0@));
            } else if judged_at(judged@, id) is Some {
                let q = choose|q: int| 0 <= q < judged@.len() && (#[trigger] judged@[q]).0@ == id;
                assert(digests_view(all@).contains(judged@[q].0@));
            } else {
                let q = choose|q: int| 0 <= q < base@.len() && (#[trigger] base@[q]).0@ == id;
                assert(digests_view(all@).contains(base@[q].0@));
            }
            assert(iv.contains(id));
            let m = choose|m: int| 0 <= m < iv.len() && iv[m] == id;
        }
    }
    out
}

} // verus!
