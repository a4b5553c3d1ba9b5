//! Content leaves and the digest tree of a repository pack.

use vstd::prelude::*;

use crate::digest::{
    blake3_hash, digests_view, domain_leaf, leaf_preimage_in, merkle_root_exec, merkle_spec,
};
use crate::pack::{
    entry_views, PackEntry, PackEpochEntry, PackError, PackErrorCode, PackFault,
    PackObjectEntry, PackRootEntry, EPOCH_SECTION, MAX_PACK_LEAVES, OBJECT_SECTION, ROOT_SECTION,
};

verus! {

/// The bytes of an ASCII text.
pub open spec fn ascii_bytes(text: Seq<char>) -> Seq<u8> {
    text.map_values(|c: char| c as u8)
}

/// Domain separator of a content leaf.
pub open spec fn leaf_domain() -> Seq<u8> {
    ascii_bytes("sley2.repository-pack-leaf.v1"@)
}

/// Domain separator of an interior node.
pub open spec fn node_domain() -> Seq<u8> {
    ascii_bytes("sley2.repository-pack-node.v1"@)
}

fn leaf_domain_bytes() -> (r: &'static [u8])
    ensures
        r@ == leaf_domain(),
{
    let text = "sley2.repository-pack-leaf.v1";
    proof {
        reveal_strlit("sley2.repository-pack-leaf.v1");
        vstd::string::is_ascii_spec_bytes(text);
    }
    let r = text.as_bytes();
    assert(r@ =~= leaf_domain());
    r
}

fn node_domain_bytes() -> (r: &'static [u8])
    ensures
        r@ == node_domain(),
{
    let text = "sley2.repository-pack-node.v1";
    proof {
        reveal_strlit("sley2.repository-pack-node.v1");
        vstd::string::is_ascii_spec_bytes(text);
    }
    let r = text.as_bytes();
    assert(r@ =~= node_domain());
    r
}

/// The hashed preimage of a content leaf: domain, section, identity, byte
/// count and the bytes themselves.
pub open spec fn leaf_preimage(section: u64, id: Seq<u8>, bytes: Seq<u8>) -> Seq<u8> {
    leaf_preimage_in(leaf_domain(), section, id, bytes)
}

/// The content leaf of one embedded entry.
pub open spec fn leaf_hash(section: u64, id: Seq<u8>, bytes: Seq<u8>) -> Seq<u8> {
    blake3_hash(leaf_preimage(section, id, bytes))
}

/// The leaves of one section, in entry order.
pub open spec fn section_leaves(section: u64, es: Seq<(Seq<u8>, Seq<u8>)>) -> Seq<Seq<u8>> {
    es.map_values(|e: (Seq<u8>, Seq<u8>)| leaf_hash(section, e.0, e.1))
}

/// All leaves of a pack: epochs, then roots, then objects.
pub open spec fn pack_leaves(
    epochs: Seq<(Seq<u8>, Seq<u8>)>,
    roots: Seq<(Seq<u8>, Seq<u8>)>,
    objects: Seq<(Seq<u8>, Seq<u8>)>,
) -> Seq<Seq<u8>> {
    section_leaves(EPOCH_SECTION, epochs) + section_leaves(ROOT_SECTION, roots) + section_leaves(
        OBJECT_SECTION,
        objects,
    )
}

/// The digest-tree root over `leaves`.
pub open spec fn tree_root(leaves: Seq<Seq<u8>>) -> Seq<u8> {
    merkle_spec(node_domain(), leaves)
}

/// Hashes the content leaf of one entry.
pub fn content_leaf(section: u64, id: &[u8; 32], bytes: &[u8]) -> (r: [u8; 32])
    ensures
        r@ == leaf_hash(section, id@, bytes@),
{
    domain_leaf(leaf_domain_bytes(), section, id.as_slice(), bytes)
}

fn push_section_leaves<E: PackEntry>(out: &mut Vec<[u8; 32]>, section: u64, es: &Vec<E>)
    ensures
        digests_view(final(out)@) == digests_view(old(out)@) + section_leaves(
            section,
            entry_views(es@),
        ),
{
    let ghost start = digests_view(out@);
    let ghost vs = entry_views(es@);
    let mut i: usize = 0;
    proof {
        assert(start + section_leaves(section, vs.take(0)) =~= start);
    }
    while i < es.len()
        invariant
            i <= es.len(),
            vs == entry_views(es@),
            digests_view(out@) == start + section_leaves(section, vs.take(i as int)),
        decreases es.len() - i,
    {
        let leaf = content_leaf(section, es[i].id(), es[i].content());
        let ghost before = digests_view(out@);
        out.push(leaf);
        proof {
            assert(digests_view(out@) =~= before.push(leaf@));
            assert(section_leaves(section, vs.take(i + 1)) =~= section_leaves(
                section,
                vs.take(i as int),
            ).push(leaf@));
        }
        i = i + 1;
    }
    assert(vs.take(i as int) =~= vs);
}

/// Computes the content leaves of a pack, epochs first, then roots, then
/// objects.
pub fn compute_leaves(
    epochs: &Vec<PackEpochEntry>,
    roots: &Vec<PackRootEntry>,
    objects: &Vec<PackObjectEntry>,
) -> (r: Result<Vec<[u8; 32]>, PackError>)
    ensures
        ({
            let count = epochs@.len() + roots@.len() + objects@.len();
            &&& (1 <= count <= MAX_PACK_LEAVES) ==> r is Ok && digests_view(r->Ok_0@)
                == pack_leaves(entry_views(epochs@), entry_views(roots@), entry_views(objects@))
            &&& !(1 <= count <= MAX_PACK_LEAVES) ==> r is Err && r->Err_0@ == PackFault::Pack(
                PackErrorCode::ResourceLimit,
            )
        }),
{
    let count = match epochs.len().checked_add(roots.len()) {
        Some(c) => c.checked_add(objects.len()),
        None => None,
    };
    let count = match count {
        Some(c) => c,
        None => {
            return Err(PackError::pack(PackErrorCode::ResourceLimit));
        },
    };
    if count == 0 || count > MAX_PACK_LEAVES {
        return Err(PackError::pack(PackErrorCode::ResourceLimit));
    }
    let mut leaves: Vec<[u8; 32]> = Vec::new();
    assert(digests_view(leaves@) =~= Seq::<Seq<u8>>::empty());
    push_section_leaves(&mut leaves, EPOCH_SECTION, epochs);
    push_section_leaves(&mut leaves, ROOT_SECTION, roots);
    push_section_leaves(&mut leaves, OBJECT_SECTION, objects);
    assert(digests_view(leaves@) =~= pack_leaves(
        entry_views(epochs@),
        entry_views(roots@),
        entry_views(objects@),
    ));
    Ok(leaves)
}

/// Computes the digest-tree root over `leaves`.
pub fn merkle_root(leaves: &Vec<[u8; 32]>) -> (r: Result<[u8; 32], PackError>)
    ensures
        1 <= leaves@.len() <= MAX_PACK_LEAVES ==> r is Ok && r->Ok_0@ == tree_root(
            digests_view(leaves@),
        ),
        !(1 <= leaves@.len() <= MAX_PACK_LEAVES) ==> r is Err && r->Err_0@ == PackFault::Pack(
            PackErrorCode::DigestTreeMismatch,
        ),
{
    if leaves.len() == 0 || leaves.len() > MAX_PACK_LEAVES {
        return Err(PackError::pack(PackErrorCode::DigestTreeMismatch));
    }
    Ok(merkle_root_exec(node_domain_bytes(), leaves))
}

} // verus!
