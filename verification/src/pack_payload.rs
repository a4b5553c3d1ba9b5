//! Decoding and checking the canonical payload of a repository pack.

use vstd::prelude::*;

use crate::digest::{digests_equal, digests_view};
use crate::pack::{
    absent_signature_spec, check_counts, check_expanded_bytes, check_id_order, decode_absent_signature,
    decode_empty_section, empty_section_spec, entry_ids, entry_views, id_order_spec, total_bytes,
    PackEntry, PackEpochEntry, PackError, PackErrorCode, PackFault, PackObjectEntry,
    PackRootEntry, COMPRESSION_NONE, FIELD_COUNT, FORMAT_VERSION, MAX_EXPANDED_BYTES,
    MAX_PACK_EPOCHS, MAX_PACK_LEAVES, MAX_PACK_OBJECTS, MAX_PACK_ROOTS, TREE_ALGORITHM_TAG,
};
use crate::pack_tree::{compute_leaves, merkle_root, pack_leaves, tree_root};
use crate::scb::{
    decode_list, decode_list_spec, exact_array, field_step, finish_spec, read_record,
    read_record_spec, read_single_uvar, record_start, single_uvar_spec, RecordReader,
    ScbErrorCode,
};

verus! {

/// An (identity, bytes) entry as values.
pub type EntryView = (Seq<u8>, Seq<u8>);

/// Decoding one embedded entry: fields 1 (a 32-byte identity) and 2 (the
/// bytes); an object entry declares the byte count in field 2 and carries
/// the bytes in field 3.
pub open spec fn entry_spec(s: Seq<u8>, object: bool) -> Result<EntryView, PackFault> {
    match record_start(s) {
        Err(f) => Err(f),
        Ok(c0) => match field_step(c0, 1) {
            Err(f) => Err(f),
            Ok((id, c1)) => if id.len() != 32 {
                Err(PackFault::Scb(ScbErrorCode::LengthOverflow))
            } else if !object {
                match field_step(c1, 2) {
                    Err(f) => Err(f),
                    Ok((bytes, c2)) => match finish_spec(c2) {
                        Err(f) => Err(f),
                        Ok(_) => Ok((id, bytes)),
                    },
                }
            } else {
                match field_step(c1, 2) {
                    Err(f) => Err(f),
                    Ok((declared_bytes, c2)) => match single_uvar_spec(declared_bytes) {
                        Err(f) => Err(f),
                        Ok(declared) => match field_step(c2, 3) {
                            Err(f) => Err(f),
                            Ok((bytes, c3)) => match finish_spec(c3) {
                                Err(f) => Err(f),
                                Ok(_) => if declared != bytes.len() {
                                    Err(PackFault::Pack(PackErrorCode::ObjectCorrupt))
                                } else {
                                    Ok((id, bytes))
                                },
                            },
                        },
                    },
                }
            },
        },
    }
}

/// Decoding each element in turn; the first failure decides.
#[verifier::opaque]
pub open spec fn entries_spec(elems: Seq<Seq<u8>>, object: bool) -> Result<Seq<EntryView>, PackFault>
    decreases elems.len(),
{
    if elems.len() == 0 {
        Ok(Seq::empty())
    } else {
        match entry_spec(elems[0], object) {
            Err(f) => Err(f),
            Ok(e) => match entries_spec(elems.drop_first(), object) {
                Err(f) => Err(f),
                Ok(es) => Ok(seq![e] + es),
            },
        }
    }
}

/// Decoding one entry section: a list of at most `maximum` entries, that
/// must not be empty where `nonempty`, whose identities strictly ascend.
pub open spec fn section_spec(s: Seq<u8>, maximum: usize, object: bool, nonempty: bool) -> Result<
    Seq<EntryView>,
    PackFault,
> {
    match decode_list_spec(s, maximum) {
        Err(f) => Err(f),
        Ok(elems) => if nonempty && elems.len() == 0 {
            Err(PackFault::Pack(PackErrorCode::ResourceLimit))
        } else {
            match entries_spec(elems, object) {
                Err(f) => Err(f),
                Ok(es) => match id_order_spec(entry_ids(es)) {
                    Err(f) => Err(f),
                    Ok(_) => Ok(es),
                },
            }
        },
    }
}

/// Decodes one embedded entry.
pub fn decode_entry(element: &[u8], object: bool) -> (r: Result<([u8; 32], Vec<u8>), PackError>)
    ensures
        match entry_spec(element@, object) {
            Ok(e) => r is Ok && (r->Ok_0.0@, r->Ok_0.1@) == e,
            Err(f) => r is Err && r->Err_0@ == f,
        },
{
    reveal(entry_spec);
    let mut record = RecordReader::new(element)?;
    let id_bytes = record.required(1)?;
    let id = exact_array(id_bytes.as_slice())?;
    if !object {
        let bytes = record.required(2)?;
        record.finish()?;
        Ok((id, bytes))
    } else {
        let declared_bytes = record.required(2)?;
        let declared = read_single_uvar(declared_bytes.as_slice())?;
        let bytes = record.required(3)?;
        record.finish()?;
        if declared != bytes.len() as u64 {
            return Err(PackError::pack(PackErrorCode::ObjectCorrupt));
        }
        Ok((id, bytes))
    }
}

proof fn lemma_entries_step(elems: Seq<Seq<u8>>, i: int, object: bool)
    requires
        0 <= i < elems.len(),
    ensures
        entries_spec(elems.skip(i), object) == match entry_spec(elems[i], object) {
            Err(f) => Err(f),
            Ok(e) => match entries_spec(elems.skip(i + 1), object) {
                Err(f) => Err(f),
                Ok(es) => Ok(seq![e] + es),
            },
        },
{
    reveal(entries_spec);
    let t = elems.skip(i);
    assert(t[0] == elems[i]);
    assert(t.drop_first() =~= elems.skip(i + 1));
}

spec fn prepend(done: Seq<EntryView>, r: Result<Seq<EntryView>, PackFault>) -> Result<
    Seq<EntryView>,
    PackFault,
> {
    match r {
        Ok(es) => Ok(done + es),
        Err(f) => Err(f),
    }
}

/// Decodes one entry section.
#[verifier::rlimit(40)]
pub fn decode_section<E: PackEntry>(input: &[u8], maximum: usize, object: bool, nonempty: bool) -> (r:
    Result<Vec<E>, PackError>)
    ensures
        match section_spec(input@, maximum, object, nonempty) {
            Ok(es) => r is Ok && entry_views(r->Ok_0@) == es,
            Err(f) => r is Err && r->Err_0@ == f,
        },
{
    let elements = decode_list(input, maximum)?;
    let ghost elems = elements.deep_view();
    if nonempty && elements.len() == 0 {
        return Err(PackError::pack(PackErrorCode::ResourceLimit));
    }
    let mut out: Vec<E> = Vec::new();
    let mut ids: Vec<[u8; 32]> = Vec::new();
    let mut i: usize = 0;
    proof {
        assert(elems.skip(0) =~= elems);
        assert(entry_views(out@) =~= Seq::<EntryView>::empty());
        assert(prepend(Seq::empty(), entries_spec(elems, object)) =~= entries_spec(elems, object));
    }
    while i < elements.len()
        invariant
            i <= elements.len(),
            elems == elements.deep_view(),
            decode_list_spec(input@, maximum) == Ok::<Seq<Seq<u8>>, PackFault>(elems),
            !(nonempty && elems.len() == 0),
            entries_spec(elems, object) == prepend(entry_views(out@), entries_spec(
                elems.skip(i as int),
                object,
            )),
            digests_view(ids@) == entry_ids(entry_views(out@)),
        decreases elements.len() - i,
    {
        proof {
            lemma_entries_step(elems, i as int, object);
            assert(elems[i as int] == elements@[i as int]@);
        }
        let (id, bytes) = match decode_entry(elements[i].as_slice(), object) {
            Ok(pair) => pair,
            Err(e) => {
                assert(entries_spec(elems, object) == Err::<Seq<EntryView>, PackFault>(e@));
                return Err(e);
            },
        };
        let ghost before = entry_views(out@);
        let ghost before_ids = digests_view(ids@);
        let entry = E::make(id, bytes);
        ids.push(id);
        out.push(entry);
        proof {
            assert(entry_views(out@) =~= before.push(entry@));
            assert(digests_view(ids@) =~= before_ids.push(id@));
            assert(entry_ids(before.push(entry@)) =~= entry_ids(before).push(id@));
            let tail = entries_spec(elems.skip(i + 1), object);
            if let Ok(es) = tail {
                assert(before + (seq![entry@] + es) =~= before.push(entry@) + es);
            }
            assert(digests_view(ids@) =~= entry_ids(entry_views(out@)));
        }
        i = i + 1;
    }
    proof {
        assert(elems.skip(i as int) =~= Seq::<Seq<u8>>::empty());
        reveal(entries_spec);
        assert(entry_views(out@) + Seq::<EntryView>::empty() =~= entry_views(out@));
    }
    check_id_order(&ids)?;
    Ok(out)
}

/// Decoding the digest-tree record: algorithm, leaf count, leaves and root.
pub open spec fn tree_spec(s: Seq<u8>) -> Result<(Seq<Seq<u8>>, Seq<u8>), PackFault> {
    match record_start(s) {
        Err(f) => Err(f),
        Ok(c0) => match field_step(c0, 1) {
            Err(f) => Err(f),
            Ok((alg_bytes, c1)) => match single_uvar_spec(alg_bytes) {
                Err(f) => Err(f),
                Ok(alg) => if alg != TREE_ALGORITHM_TAG {
                    Err(PackFault::Pack(PackErrorCode::DigestTreeMismatch))
                } else {
                    match field_step(c1, 2) {
                        Err(f) => Err(f),
                        Ok((count_bytes, c2)) => match single_uvar_spec(count_bytes) {
                            Err(f) => Err(f),
                            Ok(count) => match field_step(c2, 3) {
                                Err(f) => Err(f),
                                Ok((list_bytes, c3)) => match decode_list_spec(
                                    list_bytes,
                                    MAX_PACK_LEAVES,
                                ) {
                                    Err(f) => Err(f),
                                    Ok(elems) => match field_step(c3, 4) {
                                        Err(f) => Err(f),
                                        Ok((root, c4)) => if root.len() != 32 {
                                            Err(PackFault::Scb(ScbErrorCode::LengthOverflow))
                                        } else {
                                            match finish_spec(c4) {
                                                Err(f) => Err(f),
                                                Ok(_) => if count != elems.len() || elems.len()
                                                    == 0 {
                                                    Err(
                                                        PackFault::Pack(
                                                            PackErrorCode::DigestTreeMismatch,
                                                        ),
                                                    )
                                                } else if !all_ids(elems) {
                                                    Err(
                                                        PackFault::Scb(
                                                            ScbErrorCode::LengthOverflow,
                                                        ),
                                                    )
                                                } else {
                                                    Ok((elems, root))
                                                },
                                            }
                                        },
                                    },
                                },
                            },
                        },
                    }
                },
            },
        },
    }
}

/// Every element is 32 bytes long.
pub open spec fn all_ids(elems: Seq<Seq<u8>>) -> bool {
    forall|i: int| 0 <= i < elems.len() ==> #[trigger] elems[i].len() == 32
}

/// Decodes the digest-tree record into its leaves and root.
#[verifier::rlimit(40)]
pub fn decode_tree(input: &[u8]) -> (r: Result<(Vec<[u8; 32]>, [u8; 32]), PackError>)
    ensures
        match tree_spec(input@) {
            Ok((leaves, root)) => r is Ok && digests_view(r->Ok_0.0@) == leaves && r->Ok_0.1@
                == root,
            Err(f) => r is Err && r->Err_0@ == f,
        },
{
    let mut record = RecordReader::new(input)?;
    let alg_bytes = record.required(1)?;
    let alg = read_single_uvar(alg_bytes.as_slice())?;
    if alg != TREE_ALGORITHM_TAG {
        return Err(PackError::pack(PackErrorCode::DigestTreeMismatch));
    }
    let count_bytes = record.required(2)?;
    let count = read_single_uvar(count_bytes.as_slice())?;
    let list_bytes = record.required(3)?;
    let elements = decode_list(list_bytes.as_slice(), MAX_PACK_LEAVES)?;
    let root_bytes = record.required(4)?;
    let root = exact_array(root_bytes.as_slice())?;
    record.finish()?;
    if count != elements.len() as u64 || elements.len() == 0 {
        return Err(PackError::pack(PackErrorCode::DigestTreeMismatch));
    }
    let leaves = leaves_from(&elements)?;
    Ok((leaves, root))
}

/// Converts 32-byte elements into digests.
fn leaves_from(elements: &Vec<Vec<u8>>) -> (r: Result<Vec<[u8; 32]>, PackError>)
    ensures
        all_ids(elements.deep_view()) ==> r is Ok && digests_view(r->Ok_0@)
            == elements.deep_view(),
        !all_ids(elements.deep_view()) ==> r is Err && r->Err_0@ == PackFault::Scb(
            ScbErrorCode::LengthOverflow,
        ),
{
    let ghost elems = elements.deep_view();
    let mut leaves: Vec<[u8; 32]> = Vec::new();
    let mut i: usize = 0;
    while i < elements.len()
        invariant
            i <= elements.len(),
            elems == elements.deep_view(),
            digests_view(leaves@) == elems.take(i as int),
            forall|j: int| 0 <= j < i ==> #[trigger] elems[j].len() == 32,
        decreases elements.len() - i,
    {
        assert(elems[i as int] == elements@[i as int]@);
        let leaf = exact_array(elements[i].as_slice())?;
        let ghost before = digests_view(leaves@);
        leaves.push(leaf);
        proof {
            assert(digests_view(leaves@) =~= before.push(leaf@));
            assert(elems.take(i + 1) =~= elems.take(i as int).push(elems[i as int]));
        }
        i = i + 1;
    }
    assert(elems.take(i as int) =~= elems);
    Ok(leaves)
}

/// A decoded pack as values: version, epochs, roots, objects, compression
/// profile, digest leaves and digest-tree root.
pub type PackView = (u64, Seq<EntryView>, Seq<EntryView>, Seq<EntryView>, u64, Seq<Seq<u8>>, Seq<u8>);

/// A decoded, shape-checked pack payload.
#[derive(Clone, Debug, PartialEq, Eq)]
pub struct DecodedPack {
    /// Format version.
    pub version: u64,
    /// Embedded schema epochs.
    pub epochs: Vec<PackEpochEntry>,
    /// Embedded roots.
    pub roots: Vec<PackRootEntry>,
    /// Embedded objects.
    pub objects: Vec<PackObjectEntry>,
    /// Compression profile.
    pub compression_profile: u64,
    /// Declared digest leaves.
    pub leaves: Vec<[u8; 32]>,
    /// Declared digest-tree root.
    pub digest_tree_root: [u8; 32],
}

impl View for DecodedPack {
    type V = PackView;

    open spec fn view(&self) -> PackView {
        (
            self.version,
            entry_views(self.epochs@),
            entry_views(self.roots@),
            entry_views(self.objects@),
            self.compression_profile,
            digests_view(self.leaves@),
            self.digest_tree_root@,
        )
    }
}

/// The entry counts are within the pack limits.
pub open spec fn counts_ok(epochs: nat, roots: nat, objects: nat) -> bool {
    1 <= epochs <= MAX_PACK_EPOCHS && 1 <= roots <= MAX_PACK_ROOTS && objects <= MAX_PACK_OBJECTS
}

/// Decoding a pack payload: the nine-field record, then the profile checks,
/// the sections, the digest tree and the resource limits, in that order.
pub open spec fn payload_spec(s: Seq<u8>) -> Result<PackView, PackFault> {
    match read_record_spec(s, FIELD_COUNT as nat) {
        Err(f) => Err(f),
        Ok(fs) => match single_uvar_spec(fs[0]) {
            Err(f) => Err(f),
            Ok(version) => if version != FORMAT_VERSION {
                Err(PackFault::Pack(PackErrorCode::VersionUnsupported))
            } else {
                match empty_section_spec(fs[3]) {
                    Err(f) => Err(f),
                    Ok(_) => match empty_section_spec(fs[5]) {
                        Err(f) => Err(f),
                        Ok(_) => match single_uvar_spec(fs[6]) {
                            Err(f) => Err(f),
                            Ok(compression) => if compression != COMPRESSION_NONE {
                                Err(PackFault::Pack(PackErrorCode::CompressionUnsupported))
                            } else {
                                match absent_signature_spec(fs[8]) {
                                    Err(f) => Err(f),
                                    Ok(_) => sections_spec(fs, version, compression),
                                }
                            },
                        },
                    },
                }
            },
        },
    }
}

/// The sections of a payload whose profile fields were accepted.
#[verifier::opaque]
pub open spec fn sections_spec(fs: Seq<Seq<u8>>, version: u64, compression: u64) -> Result<
    PackView,
    PackFault,
> {
    match section_spec(fs[1], MAX_PACK_EPOCHS, false, false) {
        Err(f) => Err(f),
        Ok(epochs) => match section_spec(fs[2], MAX_PACK_ROOTS, false, true) {
            Err(f) => Err(f),
            Ok(roots) => match section_spec(fs[4], MAX_PACK_OBJECTS, true, false) {
                Err(f) => Err(f),
                Ok(objects) => match tree_spec(fs[7]) {
                    Err(f) => Err(f),
                    Ok((leaves, root)) => if !counts_ok(epochs.len(), roots.len(), objects.len()) {
                        Err(PackFault::Pack(PackErrorCode::ResourceLimit))
                    } else if total_bytes(epochs) + total_bytes(roots) + total_bytes(objects)
                        > MAX_EXPANDED_BYTES {
                        Err(PackFault::Pack(PackErrorCode::ResourceLimit))
                    } else {
                        Ok((version, epochs, roots, objects, compression, leaves, root))
                    },
                },
            },
        },
    }
}

/// Decodes a pack payload.
pub fn decode_payload(input: &[u8]) -> (r: Result<DecodedPack, PackError>)
    ensures
        match payload_spec(input@) {
            Ok(p) => r is Ok && r->Ok_0@ == p,
            Err(f) => r is Err && r->Err_0@ == f,
        },
{
    let fields = read_record(input, FIELD_COUNT)?;
    let ghost fs = fields.deep_view();
    assert(fs[0] == fields@[0]@ && fs[3] == fields@[3]@ && fs[5] == fields@[5]@ && fs[6]
        == fields@[6]@ && fs[8] == fields@[8]@);
    let version = read_single_uvar(fields[0].as_slice())?;
    if version != FORMAT_VERSION {
        return Err(PackError::pack(PackErrorCode::VersionUnsupported));
    }
    decode_empty_section(fields[3].as_slice())?;
    decode_empty_section(fields[5].as_slice())?;
    let compression_profile = read_single_uvar(fields[6].as_slice())?;
    if compression_profile != COMPRESSION_NONE {
        return Err(PackError::pack(PackErrorCode::CompressionUnsupported));
    }
    decode_absent_signature(fields[8].as_slice())?;
    decode_sections(&fields, version, compression_profile)
}

/// Decodes the sections of a payload whose profile fields were accepted.
#[verifier::rlimit(40)]
fn decode_sections(fields: &Vec<Vec<u8>>, version: u64, compression_profile: u64) -> (r: Result<
    DecodedPack,
    PackError,
>)
    requires
        fields@.len() == FIELD_COUNT,
    ensures
        match sections_spec(fields.deep_view(), version, compression_profile) {
            Ok(p) => r is Ok && r->Ok_0@ == p,
            Err(f) => r is Err && r->Err_0@ == f,
        },
{
    reveal(sections_spec);
    let ghost fs = fields.deep_view();
    assert(fs[1] == fields@[1]@ && fs[2] == fields@[2]@ && fs[4] == fields@[4]@ && fs[7]
        == fields@[7]@);
    let epochs = decode_section::<PackEpochEntry>(
        fields[1].as_slice(),
        MAX_PACK_EPOCHS,
        false,
        false,
    )?;
    let roots = decode_section::<PackRootEntry>(fields[2].as_slice(), MAX_PACK_ROOTS, false, true)?;
    let objects = decode_section::<PackObjectEntry>(
        fields[4].as_slice(),
        MAX_PACK_OBJECTS,
        true,
        false,
    )?;
    let (leaves, digest_tree_root) = decode_tree(fields[7].as_slice())?;
    check_counts(epochs.len(), roots.len(), objects.len())?;
    check_expanded_bytes(&epochs, &roots, &objects)?;
    Ok(DecodedPack {
        version,
        epochs,
        roots,
        objects,
        compression_profile,
        leaves,
        digest_tree_root,
    })
}

/// Checks the format version and compression profile of a decoded pack.
pub fn validate_profile(pack: &DecodedPack) -> (r: Result<(), PackError>)
    ensures
        pack.version != FORMAT_VERSION ==> r is Err && r->Err_0@ == PackFault::Pack(
            PackErrorCode::VersionUnsupported,
        ),
        pack.version == FORMAT_VERSION && pack.compression_profile != COMPRESSION_NONE ==> r is Err
            && r->Err_0@ == PackFault::Pack(PackErrorCode::CompressionUnsupported),
        pack.version == FORMAT_VERSION && pack.compression_profile == COMPRESSION_NONE ==> r is Ok,
{
    if pack.version != FORMAT_VERSION {
        return Err(PackError::pack(PackErrorCode::VersionUnsupported));
    }
    if pack.compression_profile != COMPRESSION_NONE {
        return Err(PackError::pack(PackErrorCode::CompressionUnsupported));
    }
    Ok(())
}

/// Checking the declared digest tree against the content: the leaves must
/// be exactly those of the entries and the root that of the leaves.
pub open spec fn digest_tree_spec(p: PackView) -> Result<(), PackFault> {
    let count = p.1.len() + p.2.len() + p.3.len();
    if !(1 <= count <= MAX_PACK_LEAVES) {
        Err(PackFault::Pack(PackErrorCode::ResourceLimit))
    } else if p.5 != pack_leaves(p.1, p.2, p.3) || tree_root(pack_leaves(p.1, p.2, p.3)) != p.6 {
        Err(PackFault::Pack(PackErrorCode::DigestTreeMismatch))
    } else {
        Ok(())
    }
}

/// Recomputes the digest tree of a decoded pack and checks it.
pub fn verify_digest_tree(pack: &DecodedPack) -> (r: Result<(), PackError>)
    ensures
        match digest_tree_spec(pack@) {
            Ok(_) => r is Ok,
            Err(f) => r is Err && r->Err_0@ == f,
        },
{
    let expected = compute_leaves(&pack.epochs, &pack.roots, &pack.objects)?;
    if !digests_equal(&pack.leaves, &expected) {
        return Err(PackError::pack(PackErrorCode::DigestTreeMismatch));
    }
    let root = merkle_root(&expected)?;
    if !crate::bytes::bytes_equal(root.as_slice(), pack.digest_tree_root.as_slice()) {
        return Err(PackError::pack(PackErrorCode::DigestTreeMismatch));
    }
    Ok(())
}

} // verus!
