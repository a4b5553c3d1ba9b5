//! Which entities a merge plan creates on ours and the identities they
//! take: every entity of the merged root that ours lacks is created, in
//! identity order, under an identity derived from its creation ordinal.

use vstd::prelude::*;

use crate::bytes::append_bytes;
use crate::digest::{blake3_digest, blake3_hash, digests_view};
use crate::pack_tree::ascii_bytes;
use crate::gc::contains_id;
use crate::ordered::{ids_ascending, sorted_set};
use crate::merge::{MergeError, MergeErrorCode};

verus! {

/// What the plan reads of one object of the merged root.
#[derive(Clone, Copy, Debug, PartialEq, Eq)]
pub struct PlanObject {
    /// The entity.
    pub entity_id: [u8; 32],
    /// Its kind tag.
    pub kind: u32,
    /// It is an entry point.
    pub entry_point: bool,
}

/// The merged objects ours does not bind, in merged order.
pub open spec fn created_spec(merged: Seq<PlanObject>, ours: Seq<Seq<u8>>) -> Seq<PlanObject>
    decreases merged.len(),
{
    if merged.len() == 0 {
        Seq::empty()
    } else {
        created_spec(merged.drop_last(), ours) + if ours.contains(merged.last().entity_id@) {
            Seq::empty()
        } else {
            seq![merged.last()]
        }
    }
}

/// Collects the merged objects ours does not bind, which the plan must
/// create; an entry point among them cannot be both created and bound by
/// one candidate, and the plan is refused.
pub fn merge_created(merged: &Vec<PlanObject>, ours: &Vec<[u8; 32]>) -> (r: Result<Vec<PlanObject>, MergeError>)
    ensures
        match r {
            Ok(v) => v@ == created_spec(merged@, digests_view(ours@)) && forall|k: int|
                0 <= k < v@.len() ==> !(#[trigger] v@[k]).entry_point,
            Err(e) => e == MergeError::Merge(MergeErrorCode::PlanUnsupported) && exists|k: int|
                0 <= k < created_spec(merged@, digests_view(ours@)).len() && (#[trigger] created_spec(
                    merged@,
                    digests_view(ours@),
                )[k]).entry_point,
        },
{
    let ghost ov = digests_view(ours@);
    let mut out: Vec<PlanObject> = Vec::new();
    let mut i: usize = 0;
    assert(merged@.take(0) =~= Seq::<PlanObject>::empty());
    while i < merged.len()
        invariant
            i <= merged@.len(),
            ov == digests_view(ours@),
            out@ == created_spec(merged@.take(i as int), ov),
            forall|k: int| 0 <= k < out@.len() ==> !(#[trigger] out@[k]).entry_point,
        decreases merged.len() - i,
    {
        let ghost t = merged@.take(i + 1);
        proof {
            assert(t.drop_last() =~= merged@.take(i as int));
            assert(t.last() == merged@[i as int]);
        }
        let o = merged[i];
        if !contains_id(ours, &o.entity_id) {
            if o.entry_point {
                proof {
                    let c = created_spec(t, ov);
                    assert(c == out@.push(o));
                    assert(c[out@.len() as int] == o);
                    lemma_created_prefix(merged@, ov, i + 1);
                    let all = created_spec(merged@, ov);
                    assert(all[out@.len() as int] == c[out@.len() as int]);
                }
                return Err(MergeError::Merge(MergeErrorCode::PlanUnsupported));
            }
            out.push(o);
        } else {
            assert(created_spec(t, ov) =~= created_spec(merged@.take(i as int), ov));
        }
        i = i + 1;
    }
    assert(merged@.take(i as int) =~= merged@);
    Ok(out)
}

proof fn lemma_created_prefix(merged: Seq<PlanObject>, ours: Seq<Seq<u8>>, i: int)
    requires
        0 <= i <= merged.len(),
    ensures
        created_spec(merged.take(i), ours).len() <= created_spec(merged, ours).len(),
        created_spec(merged, ours).take(created_spec(merged.take(i), ours).len() as int) == created_spec(
            merged.take(i),
            ours,
        ),
    decreases merged.len(),
{
    if i == merged.len() {
        assert(merged.take(i) =~= merged);
        assert(created_spec(merged, ours).take(created_spec(merged, ours).len() as int) =~= created_spec(merged, ours));
    } else {
        let d = merged.drop_last();
        assert(d.take(i) =~= merged.take(i));
        lemma_created_prefix(d, ours, i);
        let f = created_spec(merged, ours);
        let fd = created_spec(d, ours);
        let n = created_spec(merged.take(i), ours).len() as int;
        assert(f.take(n) =~= fd.take(n));
    }
}

/// Maps each created entity to the identity derived for it, `derived[k]`
/// being the identity derived from the candidate nonce, the kind of the
/// `k`-th created entity and ordinal `k`; a derived identity that already
/// names an entity of ours is refused.
pub fn plan_identity_map(created: &Vec<PlanObject>, derived: &Vec<[u8; 32]>, ours: &Vec<[u8; 32]>) -> (r: Result<
    Vec<([u8; 32], [u8; 32])>,
    MergeError,
>)
    requires
        derived@.len() == created@.len(),
    ensures
        (exists|k: int| 0 <= k < derived@.len() && digests_view(ours@).contains(#[trigger] derived@[k]@)) ==> r
            == Err::<Vec<([u8; 32], [u8; 32])>, MergeError>(MergeError::Merge(MergeErrorCode::PlanUnsupported)),
        !(exists|k: int| 0 <= k < derived@.len() && digests_view(ours@).contains(#[trigger] derived@[k]@)) ==> (r
            matches Ok(m) && m@.len() == created@.len() && forall|k: int|
            0 <= k < created@.len() ==> (#[trigger] m@[k]) == (created@[k].entity_id, derived@[k])),
{
    let mut out: Vec<([u8; 32], [u8; 32])> = Vec::new();
    let mut k: usize = 0;
    while k < created.len()
        invariant
            k <= created@.len(),
            derived@.len() == created@.len(),
            out@.len() == k,
            forall|m: int| 0 <= m < k ==> (#[trigger] out@[m]) == (created@[m].entity_id, derived@[m]),
            forall|m: int| 0 <= m < k ==> !digests_view(ours@).contains(#[trigger] derived@[m]@),
        decreases created.len() - k,
    {
        if contains_id(ours, &derived[k]) {
            return Err(MergeError::Merge(MergeErrorCode::PlanUnsupported));
        }
        out.push((created[k].entity_id, derived[k]));
        k = k + 1;
    }
    Ok(out)
}

/// The domain the candidate nonce of a merge plan is hashed under.
pub open spec fn nonce_domain() -> Seq<u8> {
    ascii_bytes("sley2.merge-plan-nonce.v1"@)
}

fn nonce_domain_bytes() -> (r: &'static [u8])
    ensures
        r@ == nonce_domain(),
{
    let text = "sley2.merge-plan-nonce.v1";
    proof {
        reveal_strlit("sley2.merge-plan-nonce.v1");
        vstd::string::is_ascii_spec_bytes(text);
    }
    let r = text.as_bytes();
    assert(r@ =~= nonce_domain());
    r
}

/// The candidate nonce of a plan that brings ours to the merged root: the
/// digest of the nonce domain, ours' root and the merged root.
pub fn merge_candidate_nonce(ours_root: &[u8; 32], merged_root: &[u8; 32]) -> (n: [u8; 32])
    ensures
        n@ == blake3_hash(nonce_domain() + ours_root@ + merged_root@),
{
    let mut preimage: Vec<u8> = Vec::new();
    append_bytes(&mut preimage, nonce_domain_bytes());
    append_bytes(&mut preimage, ours_root.as_slice());
    append_bytes(&mut preimage, merged_root.as_slice());
    assert(preimage@ =~= nonce_domain() + ours_root@ + merged_root@);
    blake3_digest(preimage.as_slice())
}

/// The transaction a plan builds on: ours' transaction; a side with no
/// transaction cannot be planned on.
pub fn plan_base_transaction(ours_transaction: Option<[u8; 32]>) -> (r: Result<[u8; 32], MergeError>)
    ensures
        match ours_transaction {
            Some(t) => r == Ok::<[u8; 32], MergeError>(t),
            None => r == Err::<[u8; 32], MergeError>(MergeError::Merge(MergeErrorCode::PlanUnsupported)),
        },
{
    match ours_transaction {
        Some(t) => Ok(t),
        None => Err(MergeError::Merge(MergeErrorCode::PlanUnsupported)),
    }
}

/// An identity mapping: each entry maps an identity to its new identity.
pub type IdentityMap = Seq<(Seq<u8>, Seq<u8>)>;

/// The views of an identity mapping.
pub open spec fn map_views(m: Seq<([u8; 32], [u8; 32])>) -> IdentityMap {
    m.map_values(|p: ([u8; 32], [u8; 32])| (p.0@, p.1@))
}

/// `id` under the mapping: the target of its first entry, itself where it
/// has none.
pub open spec fn remapped(m: IdentityMap, id: Seq<u8>) -> Seq<u8>
    decreases m.len(),
{
    if m.len() == 0 {
        id
    } else if m[0].0 == id {
        m[0].1
    } else {
        remapped(m.drop_first(), id)
    }
}

/// Maps one identity.
pub fn remap_id(id: &[u8; 32], map: &Vec<([u8; 32], [u8; 32])>) -> (r: [u8; 32])
    ensures
        r@ == remapped(map_views(map@), id@),
{
    let ghost mv = map_views(map@);
    let mut i: usize = 0;
    assert(mv.skip(0) =~= mv);
    while i < map.len()
        invariant
            i <= map@.len(),
            mv == map_views(map@),
            remapped(mv, id@) == remapped(mv.skip(i as int), id@),
        decreases map.len() - i,
    {
        let ghost rest = mv.skip(i as int);
        assert(rest[0] == (map@[i as int].0@, map@[i as int].1@));
        assert(rest.drop_first() =~= mv.skip(i + 1));
        if crate::bytes::bytes_equal(map[i].0.as_slice(), id.as_slice()) {
            return map[i].1;
        }
        i = i + 1;
    }
    *id
}

/// Maps every identity of a list, in place and in order.
pub fn remap_list(ids: &mut Vec<[u8; 32]>, map: &Vec<([u8; 32], [u8; 32])>)
    ensures
        final(ids)@.len() == old(ids)@.len(),
        forall|k: int| 0 <= k < old(ids)@.len() ==> (#[trigger] final(ids)@[k])@ == remapped(map_views(map@), old(ids)@[k]@),
{
    let ghost start = ids@;
    let mut k: usize = 0;
    while k < ids.len()
        invariant
            k <= ids@.len(),
            ids@.len() == start.len(),
            forall|m: int| 0 <= m < k ==> (#[trigger] ids@[m])@ == remapped(map_views(map@), start[m]@),
            forall|m: int| k <= m < ids@.len() ==> ids@[m] == start[m],
        decreases ids.len() - k,
    {
        let mapped = remap_id(&ids[k], map);
        ids.set(k, mapped);
        k = k + 1;
    }
}

/// Maps every identity of a set: the mapped identities, ascending; a
/// mapping that makes two identities one, or a list that held one twice,
/// is refused.
pub fn remap_id_set(ids: &Vec<[u8; 32]>, map: &Vec<([u8; 32], [u8; 32])>) -> (r: Result<Vec<[u8; 32]>, MergeError>)
    ensures
        ({
            let mapped = digests_view(ids@).map_values(|x: Seq<u8>| remapped(map_views(map@), x));
            match r {
                Ok(v) => mapped.no_duplicates() && ids_ascending(digests_view(v@)) && forall|x: Seq<u8>|
                    digests_view(v@).contains(x) <==> mapped.contains(x),
                Err(e) => !mapped.no_duplicates() && e == MergeError::Merge(MergeErrorCode::InternalInvariant),
            }
        }),
{
    let ghost mv = map_views(map@);
    let mut work: Vec<[u8; 32]> = Vec::new();
    let mut k: usize = 0;
    while k < ids.len()
        invariant
            k <= ids@.len(),
            mv == map_views(map@),
            digests_view(work@) == digests_view(ids@).take(k as int).map_values(|x: Seq<u8>| remapped(mv, x)),
        decreases ids.len() - k,
    {
        let ghost before = digests_view(work@);
        let mapped = remap_id(&ids[k], map);
        work.push(mapped);
        proof {
            assert(digests_view(work@) =~= before.push(mapped@));
            assert(digests_view(ids@).take(k + 1).map_values(|x: Seq<u8>| remapped(mv, x)) =~= digests_view(ids@).take(
                k as int,
            ).map_values(|x: Seq<u8>| remapped(mv, x)).push(remapped(mv, ids@[k as int]@)));
        }
        k = k + 1;
    }
    let ghost mapped = digests_view(ids@).map_values(|x: Seq<u8>| remapped(mv, x));
    assert(digests_view(ids@).take(k as int) =~= digests_view(ids@));
    assert(digests_view(work@) == mapped);
    let sorted = sorted_set(&work);
    proof {
        let sv = digests_view(sorted@);
        assert(sv.no_duplicates()) by {
            assert forall|a: int, b: int| 0 <= a < b < sv.len() implies sv[a] != sv[b] by {
                if sv[a] == sv[b] {
                    crate::bytes::lemma_lex_equal(sv[a], sv[b]);
                }
            }
        }
        assert(sv.to_set() =~= mapped.to_set());
        sv.unique_seq_to_set();
        if mapped.no_duplicates() {
            mapped.unique_seq_to_set();
        } else {
            mapped.lemma_cardinality_of_set();
            if mapped.to_set().len() == mapped.len() {
                mapped.lemma_no_dup_set_cardinality();
            }
        }
        assert(sorted@.len() == sv.len());
        assert(work@.len() == mapped.len());
    }
    if sorted.len() != work.len() {
        return Err(MergeError::Merge(MergeErrorCode::InternalInvariant));
    }
    Ok(sorted)
}

} // verus!
