//! BLAKE3 digests and the binary Merkle tree over 32-byte leaves.

use vstd::prelude::*;

use crate::bytes::append_bytes;
use crate::scb::{encode_uvar, uvar_bytes};

verus! {

/// The BLAKE3 hash of a byte string (32 bytes).
pub uninterp spec fn blake3_hash(input: Seq<u8>) -> Seq<u8>;

/// Hashes `input` with BLAKE3.
///
/// Trusted: `blake3::hash` is a deterministic function of its input alone,
/// and `Hash::as_bytes` returns its 32 output bytes; the contract claims
/// only that the result is `blake3_hash` of the input.
#[verifier::external_body]
pub(crate) fn blake3_digest(input: &[u8]) -> (r: [u8; 32])
    ensures
        r@ == blake3_hash(input@),
{
    *blake3::hash(input).as_bytes()
}

/// The hashed preimage of a content leaf under `domain`: domain, section,
/// identity, byte count and the bytes themselves.
pub open spec fn leaf_preimage_in(domain: Seq<u8>, section: u64, id: Seq<u8>, bytes: Seq<u8>) -> Seq<
    u8,
> {
    domain + uvar_bytes(section as nat) + id + uvar_bytes(bytes.len()) + bytes
}

/// Hashes the content leaf of one entry under `domain`.
pub fn domain_leaf(domain: &[u8], section: u64, id: &[u8], bytes: &[u8]) -> (r: [u8; 32])
    ensures
        r@ == blake3_hash(leaf_preimage_in(domain@, section, id@, bytes@)),
{
    let mut preimage: Vec<u8> = Vec::new();
    append_bytes(&mut preimage, domain);
    let enc_section = encode_uvar(section);
    append_bytes(&mut preimage, enc_section.as_slice());
    append_bytes(&mut preimage, id);
    let enc_len = encode_uvar(bytes.len() as u64);
    append_bytes(&mut preimage, enc_len.as_slice());
    append_bytes(&mut preimage, bytes);
    assert(preimage@ =~= leaf_preimage_in(domain@, section, id@, bytes@));
    blake3_digest(preimage.as_slice())
}

/// The views of a sequence of 32-byte digests.
pub open spec fn digests_view(ds: Seq<[u8; 32]>) -> Seq<Seq<u8>> {
    ds.map_values(|d: [u8; 32]| d@)
}

/// Returns whether two digest sequences are equal.
pub fn digests_equal(a: &Vec<[u8; 32]>, b: &Vec<[u8; 32]>) -> (r: bool)
    ensures
        r == (digests_view(a@) == digests_view(b@)),
{
    if a.len() != b.len() {
        assert(digests_view(a@).len() != digests_view(b@).len());
        return false;
    }
    let mut i: usize = 0;
    while i < a.len()
        invariant
            i <= a.len(),
            a.len() == b.len(),
            forall|j: int| 0 <= j < i ==> a@[j]@ == b@[j]@,
        decreases a.len() - i,
    {
        if !crate::bytes::bytes_equal(a[i].as_slice(), b[i].as_slice()) {
            assert(digests_view(a@)[i as int] != digests_view(b@)[i as int]);
            return false;
        }
        i = i + 1;
    }
    assert(digests_view(a@) =~= digests_view(b@));
    true
}

/// The interior node over two children.
pub open spec fn node_hash(domain: Seq<u8>, left: Seq<u8>, right: Seq<u8>) -> Seq<u8> {
    blake3_hash(domain + left + right)
}

/// One level up: adjacent pairs hashed into nodes, an odd last entry carried.
pub open spec fn next_level(domain: Seq<u8>, level: Seq<Seq<u8>>) -> Seq<Seq<u8>>
    decreases level.len(),
{
    if level.len() == 0 {
        Seq::empty()
    } else if level.len() == 1 {
        level
    } else {
        seq![node_hash(domain, level[0], level[1])] + next_level(domain, level.skip(2))
    }
}

/// Length of one level up: half the entries, rounded up.
pub proof fn lemma_next_level_len(domain: Seq<u8>, level: Seq<Seq<u8>>)
    ensures
        next_level(domain, level).len() == (level.len() + 1) / 2,
    decreases level.len(),
{
    if level.len() >= 2 {
        lemma_next_level_len(domain, level.skip(2));
    }
}

/// The root of the binary tree whose bottom level is `level`.
pub open spec fn merkle_spec(domain: Seq<u8>, level: Seq<Seq<u8>>) -> Seq<u8>
    decreases level.len(),
{
    if level.len() <= 1 {
        level[0]
    } else {
        proof {
            lemma_next_level_len(domain, level);
        }
        merkle_spec(domain, next_level(domain, level))
    }
}

/// Hashes the node over `left` and `right` under `domain`.
pub fn node_digest(domain: &[u8], left: &[u8; 32], right: &[u8; 32]) -> (r: [u8; 32])
    ensures
        r@ == node_hash(domain@, left@, right@),
{
    let mut preimage: Vec<u8> = Vec::new();
    append_bytes(&mut preimage, domain);
    append_bytes(&mut preimage, left.as_slice());
    append_bytes(&mut preimage, right.as_slice());
    blake3_digest(preimage.as_slice())
}

/// Computes one level up of the tree.
pub fn next_level_exec(domain: &[u8], level: &Vec<[u8; 32]>) -> (r: Vec<[u8; 32]>)
    ensures
        digests_view(r@) == next_level(domain@, digests_view(level@)),
{
    let ghost lv = digests_view(level@);
    let mut out: Vec<[u8; 32]> = Vec::new();
    let mut i: usize = 0;
    proof {
        assert(lv.skip(0) =~= lv);
        assert(digests_view(out@) =~= Seq::<Seq<u8>>::empty());
    }
    while i < level.len()
        invariant
            i <= level.len(),
            lv == digests_view(level@),
            digests_view(out@) + next_level(domain@, lv.skip(i as int)) == next_level(domain@, lv),
        decreases level.len() - i,
    {
        let ghost old_out = digests_view(out@);
        if i + 1 == level.len() {
            out.push(level[i]);
            proof {
                assert(lv.skip(i as int).len() == 1);
                assert(digests_view(out@) =~= old_out.push(level@[i as int]@));
                assert(next_level(domain@, lv.skip(i as int)) == lv.skip(i as int));
                assert(lv.skip(i as int) =~= seq![level@[i as int]@]);
                assert(lv.skip(i + 1) =~= Seq::<Seq<u8>>::empty());
                assert(digests_view(out@) + next_level(domain@, lv.skip(i + 1)) =~= next_level(
                    domain@,
                    lv,
                ));
            }
            i = i + 1;
        } else {
            let node = node_digest(domain, &level[i], &level[i + 1]);
            out.push(node);
            proof {
                let t = lv.skip(i as int);
                assert(t[0] == level@[i as int]@);
                assert(t[1] == level@[i + 1]@);
                assert(t.skip(2) =~= lv.skip(i + 2));
                assert(digests_view(out@) =~= old_out.push(node@));
                assert(digests_view(out@) + next_level(domain@, lv.skip(i + 2)) =~= next_level(
                    domain@,
                    lv,
                ));
            }
            i = i + 2;
        }
    }
    proof {
        assert(lv.skip(i as int) =~= Seq::<Seq<u8>>::empty());
        assert(digests_view(out@) + Seq::<Seq<u8>>::empty() =~= digests_view(out@));
    }
    out
}

/// Computes the root of the non-empty tree whose leaves are `leaves`.
pub fn merkle_root_exec(domain: &[u8], leaves: &Vec<[u8; 32]>) -> (r: [u8; 32])
    requires
        leaves@.len() >= 1,
    ensures
        r@ == merkle_spec(domain@, digests_view(leaves@)),
{
    let mut level: Vec<[u8; 32]> = Vec::new();
    let mut j: usize = 0;
    while j < leaves.len()
        invariant
            j <= leaves@.len(),
            level@ == leaves@.take(j as int),
        decreases leaves.len() - j,
    {
        level.push(leaves[j]);
        assert(level@ =~= leaves@.take(j + 1));
        j = j + 1;
    }
    assert(level@ =~= leaves@);
    while level.len() > 1
        invariant
            level@.len() >= 1,
            merkle_spec(domain@, digests_view(level@)) == merkle_spec(
                domain@,
                digests_view(leaves@),
            ),
        decreases level@.len(),
    {
        let next = next_level_exec(domain, &level);
        proof {
            lemma_next_level_len(domain@, digests_view(level@));
        }
        level = next;
    }
    level[0]
}

} // verus!
