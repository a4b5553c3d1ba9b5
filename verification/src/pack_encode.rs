//! Encoding the canonical payload of a repository pack, and the proof that
//! the payload decoder reads back exactly what was encoded.

use vstd::prelude::*;

use crate::bytes::append_bytes;
use crate::digest::digests_view;
use crate::pack::{
    entry_ids, entry_views, lemma_id_order_ok, strictly_ascending, total_bytes, PackEntry,
    PackEpochEntry, PackFault, PackObjectEntry, PackRootEntry, COMPRESSION_NONE, FORMAT_VERSION,
    MAX_EXPANDED_BYTES, MAX_PACK_BYTES, MAX_PACK_EPOCHS, MAX_PACK_LEAVES, MAX_PACK_OBJECTS,
    MAX_PACK_ROOTS, TREE_ALGORITHM_TAG,
};
use crate::pack::{absent_signature_spec, empty_section_spec};
use crate::pack_payload::{
    all_ids, counts_ok, entries_spec, entry_spec, payload_spec, section_spec, sections_spec,
    tree_spec, EntryView, PackView,
};
use crate::scb::{
    enc_bytes, enc_fields, enc_list, enc_record, enc_union, encode_list, encode_record,
    encode_union, encode_uvar, field_values, fields_numbered, items_fit, lemma_enc_fields_len,
    lemma_enc_items_len, lemma_field_step_enc, lemma_list_roundtrip, lemma_record_roundtrip,
    lemma_record_start_enc, lemma_single_uvar_roundtrip, uvar_bytes, lemma_bytes_roundtrip,
    lemma_empty_list_bytes, lemma_uvar_roundtrip, read_record_spec, single_uvar_spec,
};

verus! {

/// The list element of an epoch or root entry: identity and bytes.
pub open spec fn pair_fields(e: EntryView) -> Seq<(u64, Seq<u8>)> {
    seq![(1u64, e.0), (2u64, e.1)]
}

/// The list element of an object entry: identity, byte count and bytes.
pub open spec fn object_fields(e: EntryView) -> Seq<(u64, Seq<u8>)> {
    seq![(1u64, e.0), (2u64, uvar_bytes(e.1.len())), (3u64, e.1)]
}

/// The encoded list element of one entry.
#[verifier::opaque]
pub open spec fn entry_element(e: EntryView, object: bool) -> Seq<u8> {
    if object {
        enc_record(object_fields(e))
    } else {
        enc_record(pair_fields(e))
    }
}

/// The encoded list elements of one section.
pub open spec fn section_elements(es: Seq<EntryView>, object: bool) -> Seq<Seq<u8>> {
    es.map_values(|e: EntryView| entry_element(e, object))
}

/// The fields of the digest-tree record.
pub open spec fn tree_fields(leaves: Seq<Seq<u8>>, root: Seq<u8>) -> Seq<(u64, Seq<u8>)> {
    seq![
        (1u64, uvar_bytes(TREE_ALGORITHM_TAG as nat)),
        (2u64, uvar_bytes(leaves.len())),
        (3u64, enc_list(leaves)),
        (4u64, root),
    ]
}

/// The encoded signature union: absent, or present with its bytes.
pub open spec fn signature_bytes(signature: Option<Seq<u8>>) -> Seq<u8> {
    match signature {
        None => enc_union(0, Seq::empty()),
        Some(b) => enc_union(1, b),
    }
}

/// The nine fields of a pack payload.
#[verifier::opaque]
pub open spec fn payload_fields(
    epochs: Seq<EntryView>,
    roots: Seq<EntryView>,
    objects: Seq<EntryView>,
    refs: Seq<Seq<u8>>,
    transactions: Seq<Seq<u8>>,
    compression: u64,
    leaves: Seq<Seq<u8>>,
    root: Seq<u8>,
    signature: Option<Seq<u8>>,
) -> Seq<(u64, Seq<u8>)> {
    seq![
        (1u64, uvar_bytes(FORMAT_VERSION as nat)),
        (2u64, enc_list(section_elements(epochs, false))),
        (3u64, enc_list(section_elements(roots, false))),
        (4u64, enc_list(refs)),
        (5u64, enc_list(section_elements(objects, true))),
        (6u64, enc_list(transactions)),
        (7u64, uvar_bytes(compression as nat)),
        (8u64, enc_record(tree_fields(leaves, root))),
        (9u64, signature_bytes(signature)),
    ]
}

/// The encoded pack payload.
pub open spec fn payload_bytes(
    epochs: Seq<EntryView>,
    roots: Seq<EntryView>,
    objects: Seq<EntryView>,
    refs: Seq<Seq<u8>>,
    transactions: Seq<Seq<u8>>,
    compression: u64,
    leaves: Seq<Seq<u8>>,
    root: Seq<u8>,
    signature: Option<Seq<u8>>,
) -> Seq<u8> {
    enc_record(
        payload_fields(epochs, roots, objects, refs, transactions, compression, leaves, root, signature),
    )
}

/// Everything a payload is encoded from.
#[derive(Clone, Debug, PartialEq, Eq)]
pub struct PayloadSections {
    /// Embedded schema epochs, in identity order.
    pub epochs: Vec<PackEpochEntry>,
    /// Embedded roots, in identity order.
    pub roots: Vec<PackRootEntry>,
    /// Embedded objects, in identity order.
    pub objects: Vec<PackObjectEntry>,
    /// Reference section elements.
    pub refs: Vec<Vec<u8>>,
    /// Transaction section elements.
    pub transactions: Vec<Vec<u8>>,
    /// Compression profile.
    pub compression_profile: u64,
    /// Digest leaves.
    pub leaves: Vec<[u8; 32]>,
    /// Digest-tree root.
    pub tree_root: [u8; 32],
    /// Signature bytes, if any.
    pub signature: Option<Vec<u8>>,
}

impl PayloadSections {
    /// The payload these sections encode to.
    pub open spec fn encoded(&self) -> Seq<u8> {
        payload_bytes(
            entry_views(self.epochs@),
            entry_views(self.roots@),
            entry_views(self.objects@),
            self.refs.deep_view(),
            self.transactions.deep_view(),
            self.compression_profile,
            digests_view(self.leaves@),
            self.tree_root@,
            self.signature_view(),
        )
    }

    /// The signature bytes, if any.
    pub open spec fn signature_view(&self) -> Option<Seq<u8>> {
        match self.signature {
            None => None,
            Some(b) => Some(b@),
        }
    }
}

fn push_field(fields: &mut Vec<(u64, Vec<u8>)>, tag: u64, value: Vec<u8>)
    ensures
        final(fields).deep_view() == old(fields).deep_view().push((tag, value@)),
{
    let ghost before = fields.deep_view();
    let ghost v = value@;
    assert(value.deep_view() =~= v);
    fields.push((tag, value));
    assert(fields.deep_view() =~= before.push((tag, v)));
}

fn push_element(elements: &mut Vec<Vec<u8>>, value: Vec<u8>)
    ensures
        final(elements).deep_view() == old(elements).deep_view().push(value@),
{
    let ghost before = elements.deep_view();
    let ghost v = value@;
    assert(value.deep_view() =~= v);
    elements.push(value);
    assert(elements.deep_view() =~= before.push(v));
}

fn copy_bytes(input: &[u8]) -> (r: Vec<u8>)
    ensures
        r@ == input@,
{
    let mut out: Vec<u8> = Vec::new();
    append_bytes(&mut out, input);
    assert(out@ =~= input@);
    out
}

/// Encodes the list element of one entry.
pub fn encode_entry_element(id: &[u8; 32], bytes: &[u8], object: bool) -> (r: Vec<u8>)
    ensures
        r@ == entry_element((id@, bytes@), object),
{
    reveal(entry_element);
    let mut fields: Vec<(u64, Vec<u8>)> = Vec::new();
    assert(fields.deep_view() =~= Seq::<(u64, Seq<u8>)>::empty());
    push_field(&mut fields, 1, copy_bytes(id.as_slice()));
    if object {
        push_field(&mut fields, 2, encode_uvar(bytes.len() as u64));
        push_field(&mut fields, 3, copy_bytes(bytes));
        assert(fields.deep_view() =~= object_fields((id@, bytes@)));
    } else {
        push_field(&mut fields, 2, copy_bytes(bytes));
        assert(fields.deep_view() =~= pair_fields((id@, bytes@)));
    }
    encode_record(&fields)
}

fn encode_section<E: PackEntry>(es: &Vec<E>, object: bool) -> (r: Vec<u8>)
    ensures
        r@ == enc_list(section_elements(entry_views(es@), object)),
{
    let ghost target = section_elements(entry_views(es@), object);
    let mut elements: Vec<Vec<u8>> = Vec::new();
    let mut i: usize = 0;
    assert(elements.deep_view() =~= target.take(0));
    while i < es.len()
        invariant
            i <= es.len(),
            target == section_elements(entry_views(es@), object),
            elements.deep_view() == target.take(i as int),
        decreases es.len() - i,
    {
        let element = encode_entry_element(es[i].id(), es[i].content(), object);
        push_element(&mut elements, element);
        proof {
            assert(target.take(i + 1) =~= target.take(i as int).push(target[i as int]));
        }
        i = i + 1;
    }
    assert(target.take(i as int) =~= target);
    encode_list(&elements)
}

/// Encodes a pack payload.
pub fn encode_payload(sections: &PayloadSections) -> (r: Vec<u8>)
    ensures
        r@ == sections.encoded(),
{
    let mut leaf_elements: Vec<Vec<u8>> = Vec::new();
    let mut i: usize = 0;
    assert(leaf_elements.deep_view() =~= digests_view(sections.leaves@).take(0));
    while i < sections.leaves.len()
        invariant
            i <= sections.leaves@.len(),
            leaf_elements.deep_view() == digests_view(sections.leaves@).take(i as int),
        decreases sections.leaves.len() - i,
    {
        let leaf = copy_bytes(sections.leaves[i].as_slice());
        push_element(&mut leaf_elements, leaf);
        proof {
            assert(digests_view(sections.leaves@).take(i + 1) =~= digests_view(
                sections.leaves@,
            ).take(i as int).push(sections.leaves@[i as int]@));
        }
        i = i + 1;
    }
    assert(leaf_elements.deep_view() =~= digests_view(sections.leaves@));
    let mut tree: Vec<(u64, Vec<u8>)> = Vec::new();
    assert(tree.deep_view() =~= Seq::<(u64, Seq<u8>)>::empty());
    push_field(&mut tree, 1, encode_uvar(TREE_ALGORITHM_TAG));
    push_field(&mut tree, 2, encode_uvar(sections.leaves.len() as u64));
    push_field(&mut tree, 3, encode_list(&leaf_elements));
    push_field(&mut tree, 4, copy_bytes(sections.tree_root.as_slice()));
    assert(tree.deep_view() =~= tree_fields(digests_view(sections.leaves@), sections.tree_root@));
    let signature = match &sections.signature {
        None => {
            let empty: Vec<u8> = Vec::new();
            encode_union(0, empty.as_slice())
        },
        Some(bytes) => encode_union(1, bytes.as_slice()),
    };
    assert(signature@ == signature_bytes(sections.signature_view()));
    let mut fields: Vec<(u64, Vec<u8>)> = Vec::new();
    assert(fields.deep_view() =~= Seq::<(u64, Seq<u8>)>::empty());
    push_field(&mut fields, 1, encode_uvar(FORMAT_VERSION));
    push_field(&mut fields, 2, encode_section(&sections.epochs, false));
    push_field(&mut fields, 3, encode_section(&sections.roots, false));
    push_field(&mut fields, 4, encode_list(&sections.refs));
    push_field(&mut fields, 5, encode_section(&sections.objects, true));
    push_field(&mut fields, 6, encode_list(&sections.transactions));
    push_field(&mut fields, 7, encode_uvar(sections.compression_profile));
    push_field(&mut fields, 8, encode_record(&tree));
    push_field(&mut fields, 9, signature);
    proof {
        let expected = payload_fields(
            entry_views(sections.epochs@),
            entry_views(sections.roots@),
            entry_views(sections.objects@),
            sections.refs.deep_view(),
            sections.transactions.deep_view(),
            sections.compression_profile,
            digests_view(sections.leaves@),
            sections.tree_root@,
            sections.signature_view(),
        );
        reveal(payload_fields);
        assert(fields.deep_view() =~= expected);
    }
    encode_record(&fields)
}

/// Every identity is 32 bytes long.
pub open spec fn ids_32(es: Seq<EntryView>) -> bool {
    forall|i: int| 0 <= i < es.len() ==> (#[trigger] es[i]).0.len() == 32
}

proof fn lemma_record_len(fs: Seq<(u64, Seq<u8>)>, i: int)
    requires
        0 <= i < fs.len(),
    ensures
        fs[i].1.len() <= enc_record(fs).len(),
{
    lemma_enc_fields_len(fs, i);
}

proof fn lemma_list_len(es: Seq<Seq<u8>>, i: int)
    requires
        0 <= i < es.len(),
    ensures
        es[i].len() <= enc_list(es).len(),
{
    lemma_enc_items_len(es, i);
}

/// One encoded entry decodes back to itself.
#[verifier::spinoff_prover]
#[verifier::rlimit(90)]
proof fn lemma_entry_roundtrip(e: EntryView, object: bool)
    requires
        e.0.len() == 32,
        entry_element(e, object).len() <= MAX_PACK_BYTES,
    ensures
        entry_spec(entry_element(e, object), object) == Ok::<EntryView, PackFault>(e),
{
    reveal(entry_spec);
    reveal(entry_element);
    let fs = if object {
        object_fields(e)
    } else {
        pair_fields(e)
    };
    let empty = Seq::<u8>::empty();
    lemma_record_start_enc(fs);
    assert(enc_fields(fs) + empty =~= enc_fields(fs));
    lemma_record_len(fs, 0);
    lemma_record_len(fs, 1);
    lemma_field_step_enc(fs, empty, fs.len() as u64, None);
    let f1 = fs.drop_first();
    assert(f1[0] == fs[1]);
    lemma_field_step_enc(f1, empty, (fs.len() - 1) as u64, Some(1u64));
    let f2 = f1.drop_first();
    if object {
        lemma_record_len(fs, 2);
        assert(f2[0] == fs[2]);
        lemma_single_uvar_roundtrip(e.1.len() as u64);
        lemma_field_step_enc(f2, empty, 1u64, Some(2u64));
        assert(f2.drop_first() =~= Seq::<(u64, Seq<u8>)>::empty());
        assert(enc_fields(f2.drop_first()) + empty =~= empty);
    } else {
        assert(f2 =~= Seq::<(u64, Seq<u8>)>::empty());
        assert(enc_fields(f2) + empty =~= empty);
    }
}

/// The elements of a section fit the byte-string ceiling.
pub open spec fn elements_fit(es: Seq<EntryView>, object: bool) -> bool {
    items_fit(section_elements(es, object))
}

proof fn lemma_tail_valid(es: Seq<EntryView>, object: bool)
    requires
        es.len() > 0,
        ids_32(es),
        elements_fit(es, object),
    ensures
        ids_32(es.drop_first()),
        elements_fit(es.drop_first(), object),
        section_elements(es, object).drop_first() == section_elements(es.drop_first(), object),
        es[0].0.len() == 32,
        entry_element(es[0], object).len() <= MAX_PACK_BYTES,
{
    let t = es.drop_first();
    let els = section_elements(es, object);
    let te = section_elements(t, object);
    assert(els.drop_first() =~= te);
    assert forall|i: int| 0 <= i < t.len() implies (#[trigger] t[i]).0.len() == 32 by {
        assert(t[i] == es[i + 1]);
    }
    assert forall|i: int| 0 <= i < te.len() implies #[trigger] te[i].len() <= MAX_PACK_BYTES by {
        assert(te[i] == els[i + 1]);
    }
    assert(els[0] == entry_element(es[0], object));
}

proof fn lemma_entries_cons(els: Seq<Seq<u8>>, object: bool, e: EntryView, t: Seq<EntryView>)
    requires
        els.len() > 0,
        entry_spec(els[0], object) == Ok::<EntryView, PackFault>(e),
        entries_spec(els.drop_first(), object) == Ok::<Seq<EntryView>, PackFault>(t),
    ensures
        entries_spec(els, object) == Ok::<Seq<EntryView>, PackFault>(seq![e] + t),
{
    reveal(entries_spec);
}

proof fn lemma_entries_roundtrip(es: Seq<EntryView>, object: bool)
    requires
        ids_32(es),
        elements_fit(es, object),
    ensures
        entries_spec(section_elements(es, object), object) == Ok::<Seq<EntryView>, PackFault>(es),
    decreases es.len(),
{
    let els = section_elements(es, object);
    if es.len() == 0 {
        assert(els =~= Seq::<Seq<u8>>::empty());
        assert(es =~= Seq::<EntryView>::empty());
        reveal(entries_spec);
    } else {
        let t = es.drop_first();
        lemma_tail_valid(es, object);
        lemma_entry_roundtrip(es[0], object);
        lemma_entries_roundtrip(t, object);
        lemma_entries_cons(els, object, es[0], t);
        assert(seq![es[0]] + t =~= es);
    }
}

/// An encoded section decodes back to its entries.
pub proof fn lemma_section_roundtrip(es: Seq<EntryView>, maximum: usize, object: bool, nonempty: bool)
    requires
        ids_32(es),
        elements_fit(es, object),
        es.len() <= maximum,
        strictly_ascending(entry_ids(es)),
        nonempty ==> es.len() > 0,
    ensures
        section_spec(enc_list(section_elements(es, object)), maximum, object, nonempty) == Ok::<
            Seq<EntryView>,
            PackFault,
        >(es),
{
    let els = section_elements(es, object);
    lemma_list_roundtrip(els, maximum);
    lemma_entries_roundtrip(es, object);
    lemma_id_order_ok(entry_ids(es));
}

#[verifier::spinoff_prover]
#[verifier::rlimit(90)]
proof fn lemma_tree_roundtrip(leaves: Seq<Seq<u8>>, root: Seq<u8>)
    requires
        1 <= leaves.len() <= MAX_PACK_LEAVES,
        all_ids(leaves),
        root.len() == 32,
        enc_record(tree_fields(leaves, root)).len() <= MAX_PACK_BYTES,
    ensures
        tree_spec(enc_record(tree_fields(leaves, root))) == Ok::<(Seq<Seq<u8>>, Seq<u8>), PackFault>(
            (leaves, root),
        ),
{
    let fs = tree_fields(leaves, root);
    let empty = Seq::<u8>::empty();
    lemma_record_start_enc(fs);
    assert(enc_fields(fs) + empty =~= enc_fields(fs));
    lemma_record_len(fs, 0);
    lemma_record_len(fs, 1);
    lemma_record_len(fs, 2);
    lemma_record_len(fs, 3);
    lemma_field_step_enc(fs, empty, 4u64, None);
    lemma_single_uvar_roundtrip(TREE_ALGORITHM_TAG);
    let f1 = fs.drop_first();
    assert(f1[0] == fs[1]);
    lemma_field_step_enc(f1, empty, 3u64, Some(1u64));
    lemma_single_uvar_roundtrip(leaves.len() as u64);
    let f2 = f1.drop_first();
    assert(f2[0] == fs[2]);
    lemma_field_step_enc(f2, empty, 2u64, Some(2u64));
    assert(items_fit(leaves)) by {
        assert forall|i: int| 0 <= i < leaves.len() implies #[trigger] leaves[i].len()
            <= MAX_PACK_BYTES by {
            assert(leaves[i].len() == 32);
        }
    }
    lemma_list_roundtrip(leaves, MAX_PACK_LEAVES);
    let f3 = f2.drop_first();
    assert(f3[0] == fs[3]);
    lemma_field_step_enc(f3, empty, 1u64, Some(3u64));
    assert(f3.drop_first() =~= Seq::<(u64, Seq<u8>)>::empty());
    assert(enc_fields(f3.drop_first()) + empty =~= empty);
}

/// A pack payload that the pack limits admit, encoded with empty reference
/// and transaction sections, no compression and no signature, decodes back
/// to exactly its version, entries, leaves and root.
#[verifier::rlimit(60)]
pub proof fn lemma_payload_roundtrip(
    epochs: Seq<EntryView>,
    roots: Seq<EntryView>,
    objects: Seq<EntryView>,
    leaves: Seq<Seq<u8>>,
    root: Seq<u8>,
)
    requires
        ids_32(epochs),
        ids_32(roots),
        ids_32(objects),
        strictly_ascending(entry_ids(epochs)),
        strictly_ascending(entry_ids(roots)),
        strictly_ascending(entry_ids(objects)),
        counts_ok(epochs.len(), roots.len(), objects.len()),
        total_bytes(epochs) + total_bytes(roots) + total_bytes(objects) <= MAX_EXPANDED_BYTES,
        1 <= leaves.len() <= MAX_PACK_LEAVES,
        all_ids(leaves),
        root.len() == 32,
        payload_bytes(
            epochs,
            roots,
            objects,
            Seq::empty(),
            Seq::empty(),
            COMPRESSION_NONE,
            leaves,
            root,
            None,
        ).len() <= MAX_PACK_BYTES,
    ensures
        payload_spec(
            payload_bytes(
                epochs,
                roots,
                objects,
                Seq::empty(),
                Seq::empty(),
                COMPRESSION_NONE,
                leaves,
                root,
                None,
            ),
        ) == Ok::<PackView, PackFault>(
            (FORMAT_VERSION, epochs, roots, objects, COMPRESSION_NONE, leaves, root),
        ),
{
    let none = Seq::<Seq<u8>>::empty();
    let fs = payload_fields(epochs, roots, objects, none, none, COMPRESSION_NONE, leaves, root, None);
    let bytes = enc_record(fs);
    assert(fs.len() == 9 && fields_numbered(fs, 1)) by {
        reveal(payload_fields);
        assert forall|i: int| 0 <= i < fs.len() implies (#[trigger] fs[i]).1.len()
            <= MAX_PACK_BYTES by {
            lemma_record_len(fs, i);
        }
    }
    lemma_record_roundtrip(fs);
    let vs = field_values(fs);
    assert(vs.len() == 9);
    assert(single_uvar_spec(vs[0]) == Ok::<u64, PackFault>(FORMAT_VERSION)) by {
        reveal(payload_fields);
        lemma_single_uvar_roundtrip(FORMAT_VERSION);
    }
    assert(single_uvar_spec(vs[6]) == Ok::<u64, PackFault>(COMPRESSION_NONE)) by {
        reveal(payload_fields);
        lemma_single_uvar_roundtrip(COMPRESSION_NONE);
    }
    assert(empty_section_spec(vs[3]) == Ok::<(), PackFault>(()) && empty_section_spec(vs[5])
        == Ok::<(), PackFault>(())) by {
        reveal(payload_fields);
        lemma_empty_list_bytes();
        lemma_uvar_roundtrip(0, Seq::empty());
        assert(uvar_bytes(0) + Seq::<u8>::empty() =~= uvar_bytes(0));
    }
    assert(absent_signature_spec(vs[8]) == Ok::<(), PackFault>(())) by {
        reveal(payload_fields);
        let u = uvar_bytes(0);
        lemma_uvar_roundtrip(0, enc_bytes(Seq::empty()));
        lemma_bytes_roundtrip(Seq::empty(), Seq::empty());
        assert(enc_bytes(Seq::<u8>::empty()) + Seq::<u8>::empty() =~= enc_bytes(Seq::empty()));
        assert(vs[8].skip(u.len() as int) =~= enc_bytes(Seq::empty()));
    }
    assert(section_spec(vs[1], MAX_PACK_EPOCHS, false, false) == Ok::<Seq<EntryView>, PackFault>(
        epochs,
    )) by {
        reveal(payload_fields);
        lemma_elements_fit(epochs, false);
        lemma_section_roundtrip(epochs, MAX_PACK_EPOCHS, false, false);
    }
    assert(section_spec(vs[2], MAX_PACK_ROOTS, false, true) == Ok::<Seq<EntryView>, PackFault>(
        roots,
    )) by {
        reveal(payload_fields);
        lemma_elements_fit(roots, false);
        lemma_section_roundtrip(roots, MAX_PACK_ROOTS, false, true);
    }
    assert(section_spec(vs[4], MAX_PACK_OBJECTS, true, false) == Ok::<Seq<EntryView>, PackFault>(
        objects,
    )) by {
        reveal(payload_fields);
        lemma_elements_fit(objects, true);
        lemma_section_roundtrip(objects, MAX_PACK_OBJECTS, true, false);
    }
    assert(tree_spec(vs[7]) == Ok::<(Seq<Seq<u8>>, Seq<u8>), PackFault>((leaves, root))) by {
        reveal(payload_fields);
        lemma_tree_roundtrip(leaves, root);
    }
    lemma_payload_from_fields(bytes, vs, epochs, roots, objects, leaves, root);
}

proof fn lemma_payload_from_fields(
    bytes: Seq<u8>,
    vs: Seq<Seq<u8>>,
    epochs: Seq<EntryView>,
    roots: Seq<EntryView>,
    objects: Seq<EntryView>,
    leaves: Seq<Seq<u8>>,
    root: Seq<u8>,
)
    requires
        read_record_spec(bytes, 9) == Ok::<Seq<Seq<u8>>, PackFault>(vs),
        vs.len() == 9,
        single_uvar_spec(vs[0]) == Ok::<u64, PackFault>(FORMAT_VERSION),
        empty_section_spec(vs[3]) == Ok::<(), PackFault>(()),
        empty_section_spec(vs[5]) == Ok::<(), PackFault>(()),
        single_uvar_spec(vs[6]) == Ok::<u64, PackFault>(COMPRESSION_NONE),
        absent_signature_spec(vs[8]) == Ok::<(), PackFault>(()),
        section_spec(vs[1], MAX_PACK_EPOCHS, false, false) == Ok::<Seq<EntryView>, PackFault>(
            epochs,
        ),
        section_spec(vs[2], MAX_PACK_ROOTS, false, true) == Ok::<Seq<EntryView>, PackFault>(roots),
        section_spec(vs[4], MAX_PACK_OBJECTS, true, false) == Ok::<Seq<EntryView>, PackFault>(
            objects,
        ),
        tree_spec(vs[7]) == Ok::<(Seq<Seq<u8>>, Seq<u8>), PackFault>((leaves, root)),
        counts_ok(epochs.len(), roots.len(), objects.len()),
        total_bytes(epochs) + total_bytes(roots) + total_bytes(objects) <= MAX_EXPANDED_BYTES,
    ensures
        payload_spec(bytes) == Ok::<PackView, PackFault>(
            (FORMAT_VERSION, epochs, roots, objects, COMPRESSION_NONE, leaves, root),
        ),
{
    reveal(sections_spec);
}

/// The encoded list of a section fits the ceiling only if each element
/// does.
pub open spec fn section_elements_fit(es: Seq<EntryView>, object: bool, list: Seq<u8>) -> bool {
    list == enc_list(section_elements(es, object)) && list.len() <= MAX_PACK_BYTES ==> elements_fit(
        es,
        object,
    )
}

proof fn lemma_elements_fit(es: Seq<EntryView>, object: bool)
    ensures
        section_elements_fit(es, object, enc_list(section_elements(es, object))),
{
    let els = section_elements(es, object);
    assert forall|i: int| 0 <= i < els.len() implies #[trigger] els[i].len() <= enc_list(els).len() by {
        lemma_list_len(els, i);
    }
}

} // verus!
