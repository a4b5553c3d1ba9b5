//! Repository pack (contract tag 170): failure codes and the canonical
//! pack payload.

use vstd::prelude::*;

use crate::bytes::{compare_bytes, lex, ByteOrder};
use crate::scb::{read_bytes_spec, read_uvar_spec, Reader, ScbErrorCode};

verus! {

/// Maximum accepted stored pack bytes.
pub const MAX_PACK_BYTES: usize = 67_108_864;
/// Maximum total embedded epoch, root, and object bytes.
pub const MAX_EXPANDED_BYTES: usize = 67_108_864;
/// Maximum epoch entries.
pub const MAX_PACK_EPOCHS: usize = 256;
/// Maximum root entries.
pub const MAX_PACK_ROOTS: usize = 4_096;
/// Maximum object entries.
pub const MAX_PACK_OBJECTS: usize = 65_536;
/// Maximum digest leaves.
pub const MAX_PACK_LEAVES: usize = 69_888;
/// Maximum decoder allocation budget.
pub const MAX_PACK_ALLOCATION: usize = 134_217_728;

/// Stable repository-pack failure code.
#[derive(Clone, Copy, Debug, PartialEq, Eq, Structural)]
pub enum PackErrorCode {
    /// `PACK_VERSION_UNSUPPORTED`.
    VersionUnsupported,
    /// `PACK_DIGEST_MISMATCH`.
    DigestMismatch,
    /// `PACK_DIGEST_TREE_MISMATCH`.
    DigestTreeMismatch,
    /// `PACK_CANONICAL_ORDER`.
    CanonicalOrder,
    /// `PACK_DUPLICATE_ENTRY`.
    DuplicateEntry,
    /// `PACK_SCHEMA_UNSUPPORTED`.
    SchemaUnsupported,
    /// `PACK_ROOT_INVALID`.
    RootInvalid,
    /// `PACK_OBJECT_MISSING`.
    ObjectMissing,
    /// `PACK_OBJECT_UNEXPECTED`.
    ObjectUnexpected,
    /// `PACK_OBJECT_CORRUPT`.
    ObjectCorrupt,
    /// `PACK_RESOURCE_LIMIT`.
    ResourceLimit,
    /// `PACK_COMPRESSION_UNSUPPORTED`.
    CompressionUnsupported,
    /// Reserved `PACK_DECOMPRESSION_LIMIT`.
    DecompressionLimit,
    /// `PACK_PROFILE_UNSUPPORTED`.
    ProfileUnsupported,
}

impl PackErrorCode {
    /// The stable symbol of each code.
    pub open spec fn symbol(self) -> Seq<char> {
        match self {
            PackErrorCode::VersionUnsupported => "PACK_VERSION_UNSUPPORTED"@,
            PackErrorCode::DigestMismatch => "PACK_DIGEST_MISMATCH"@,
            PackErrorCode::DigestTreeMismatch => "PACK_DIGEST_TREE_MISMATCH"@,
            PackErrorCode::CanonicalOrder => "PACK_CANONICAL_ORDER"@,
            PackErrorCode::DuplicateEntry => "PACK_DUPLICATE_ENTRY"@,
            PackErrorCode::SchemaUnsupported => "PACK_SCHEMA_UNSUPPORTED"@,
            PackErrorCode::RootInvalid => "PACK_ROOT_INVALID"@,
            PackErrorCode::ObjectMissing => "PACK_OBJECT_MISSING"@,
            PackErrorCode::ObjectUnexpected => "PACK_OBJECT_UNEXPECTED"@,
            PackErrorCode::ObjectCorrupt => "PACK_OBJECT_CORRUPT"@,
            PackErrorCode::ResourceLimit => "PACK_RESOURCE_LIMIT"@,
            PackErrorCode::CompressionUnsupported => "PACK_COMPRESSION_UNSUPPORTED"@,
            PackErrorCode::DecompressionLimit => "PACK_DECOMPRESSION_LIMIT"@,
            PackErrorCode::ProfileUnsupported => "PACK_PROFILE_UNSUPPORTED"@,
        }
    }

    /// Returns the exact stable symbol.
    pub fn as_str(self) -> (s: &'static str)
        ensures
            s@ == self.symbol(),
    {
        match self {
            PackErrorCode::VersionUnsupported => "PACK_VERSION_UNSUPPORTED",
            PackErrorCode::DigestMismatch => "PACK_DIGEST_MISMATCH",
            PackErrorCode::DigestTreeMismatch => "PACK_DIGEST_TREE_MISMATCH",
            PackErrorCode::CanonicalOrder => "PACK_CANONICAL_ORDER",
            PackErrorCode::DuplicateEntry => "PACK_DUPLICATE_ENTRY",
            PackErrorCode::SchemaUnsupported => "PACK_SCHEMA_UNSUPPORTED",
            PackErrorCode::RootInvalid => "PACK_ROOT_INVALID",
            PackErrorCode::ObjectMissing => "PACK_OBJECT_MISSING",
            PackErrorCode::ObjectUnexpected => "PACK_OBJECT_UNEXPECTED",
            PackErrorCode::ObjectCorrupt => "PACK_OBJECT_CORRUPT",
            PackErrorCode::ResourceLimit => "PACK_RESOURCE_LIMIT",
            PackErrorCode::CompressionUnsupported => "PACK_COMPRESSION_UNSUPPORTED",
            PackErrorCode::DecompressionLimit => "PACK_DECOMPRESSION_LIMIT",
            PackErrorCode::ProfileUnsupported => "PACK_PROFILE_UNSUPPORTED",
        }
    }
}

/// Which layer a pack failure belongs to, with its code.
#[derive(Clone, Copy, Debug, PartialEq, Eq, Structural)]
pub enum PackFault {
    /// A pack-owned failure.
    Pack(PackErrorCode),
    /// A preserved wire-layer failure.
    Scb(ScbErrorCode),
}

impl PackFault {
    /// The stable symbol of the failure.
    pub open spec fn symbol(self) -> Seq<char> {
        match self {
            PackFault::Pack(code) => code.symbol(),
            PackFault::Scb(code) => code.symbol(),
        }
    }
}

/// Exact pack or preserved lower-layer failure.
#[derive(Clone, Copy, Debug, PartialEq, Eq, Structural)]
pub struct PackError {
    fault: PackFault,
}

impl View for PackError {
    type V = PackFault;

    closed spec fn view(&self) -> PackFault {
        self.fault
    }
}

impl PackError {
    /// A pack-owned failure.
    pub fn pack(code: PackErrorCode) -> (e: Self)
        ensures
            e@ == PackFault::Pack(code),
    {
        PackError { fault: PackFault::Pack(code) }
    }

    /// A preserved wire-layer failure.
    pub fn upstream(code: ScbErrorCode) -> (e: Self)
        ensures
            e@ == PackFault::Scb(code),
    {
        PackError { fault: PackFault::Scb(code) }
    }

    /// The failure `fault`.
    pub fn from_fault(fault: PackFault) -> (e: Self)
        ensures
            e@ == fault,
    {
        PackError { fault }
    }

    /// Returns the failure with its layer.
    pub fn fault(&self) -> (f: PackFault)
        ensures
            f == self@,
    {
        self.fault
    }

    /// Returns the exact stable failure symbol.
    pub fn symbol(&self) -> (s: &'static str)
        ensures
            s@ == self@.symbol(),
    {
        match self.fault {
            PackFault::Pack(code) => code.as_str(),
            PackFault::Scb(code) => code.as_str(),
        }
    }
}

/// Contract tag of a repository pack.
pub const CONTRACT_TAG: u32 = 170;
/// Wire format version of a repository pack.
pub const FORMAT_VERSION: u64 = 1;
/// Fields of a pack payload record.
pub const FIELD_COUNT: u64 = 9;
/// Digest-tree algorithm tag.
pub const TREE_ALGORITHM_TAG: u64 = 1;
/// Compression profile "none".
pub const COMPRESSION_NONE: u64 = 0;
/// Leaf section of an epoch entry.
pub const EPOCH_SECTION: u64 = 1;
/// Leaf section of a root entry.
pub const ROOT_SECTION: u64 = 2;
/// Leaf section of an object entry.
pub const OBJECT_SECTION: u64 = 3;
/// Length of every identity and digest.
pub const ID_LEN: usize = 32;

/// Exact embedded schema-epoch bytes.
#[derive(Clone, Debug, PartialEq, Eq)]
pub struct PackEpochEntry {
    /// Declared schema epoch.
    pub schema_epoch_id: [u8; 32],
    /// Exact bootstrap preimage.
    pub bootstrap_preimage: Vec<u8>,
}

/// Exact embedded root bytes.
#[derive(Clone, Debug, PartialEq, Eq)]
pub struct PackRootEntry {
    /// Declared semantic root.
    pub state_root: [u8; 32],
    /// Exact standalone root bytes.
    pub stored_bytes: Vec<u8>,
}

/// Exact embedded object bytes.
#[derive(Clone, Debug, PartialEq, Eq)]
pub struct PackObjectEntry {
    /// Declared object identifier.
    pub object_id: [u8; 32],
    /// Exact standalone object bytes.
    pub stored_bytes: Vec<u8>,
}

impl View for PackEpochEntry {
    type V = (Seq<u8>, Seq<u8>);

    open spec fn view(&self) -> (Seq<u8>, Seq<u8>) {
        (self.schema_epoch_id@, self.bootstrap_preimage@)
    }
}

impl View for PackRootEntry {
    type V = (Seq<u8>, Seq<u8>);

    open spec fn view(&self) -> (Seq<u8>, Seq<u8>) {
        (self.state_root@, self.stored_bytes@)
    }
}

impl View for PackObjectEntry {
    type V = (Seq<u8>, Seq<u8>);

    open spec fn view(&self) -> (Seq<u8>, Seq<u8>) {
        (self.object_id@, self.stored_bytes@)
    }
}

/// The identities of a sequence of (identity, bytes) entries.
pub open spec fn entry_ids(es: Seq<(Seq<u8>, Seq<u8>)>) -> Seq<Seq<u8>> {
    es.map_values(|e: (Seq<u8>, Seq<u8>)| e.0)
}

/// Outcome of checking that identities strictly ascend: the first
/// non-ascending adjacent pair decides the failure.
pub open spec fn id_order_spec(ids: Seq<Seq<u8>>) -> Result<(), PackFault>
    decreases ids.len(),
{
    if ids.len() < 2 {
        Ok(())
    } else {
        match lex(ids[0], ids[1]) {
            ByteOrder::Equal => Err(PackFault::Pack(PackErrorCode::DuplicateEntry)),
            ByteOrder::Greater => Err(PackFault::Pack(PackErrorCode::CanonicalOrder)),
            ByteOrder::Less => id_order_spec(ids.drop_first()),
        }
    }
}

/// Identities strictly ascend.
pub open spec fn strictly_ascending(ids: Seq<Seq<u8>>) -> bool {
    forall|i: int| 0 <= i < ids.len() - 1 ==> #[trigger] lex(ids[i], ids[i + 1]) == ByteOrder::Less
}

/// The order check succeeds exactly on strictly ascending identities.
pub proof fn lemma_id_order_ok(ids: Seq<Seq<u8>>)
    ensures
        id_order_spec(ids) is Ok <==> strictly_ascending(ids),
    decreases ids.len(),
{
    if ids.len() >= 2 {
        let t = ids.drop_first();
        lemma_id_order_ok(t);
        if strictly_ascending(ids) {
            assert(lex(ids[0], ids[1]) == ByteOrder::Less);
            assert forall|i: int| 0 <= i < t.len() - 1 implies #[trigger] lex(t[i], t[i + 1])
                == ByteOrder::Less by {
                assert(lex(ids[i + 1], ids[i + 2]) == ByteOrder::Less);
            }
        }
        if id_order_spec(ids) is Ok {
            assert forall|i: int| 0 <= i < ids.len() - 1 implies #[trigger] lex(ids[i], ids[i + 1])
                == ByteOrder::Less by {
                if i > 0 {
                    assert(lex(t[i - 1], t[i]) == ByteOrder::Less);
                }
            }
        }
    }
}

/// Checks that identities strictly ascend.
pub fn check_id_order(ids: &Vec<[u8; 32]>) -> (r: Result<(), PackError>)
    ensures
        match id_order_spec(crate::digest::digests_view(ids@)) {
            Ok(()) => r is Ok,
            Err(f) => r is Err && r->Err_0@ == f,
        },
{
    let ghost all = crate::digest::digests_view(ids@);
    let n = ids.len();
    if n < 2 {
        return Ok(());
    }
    let mut i: usize = 0;
    proof {
        assert(all.skip(0) =~= all);
    }
    while i < n - 1
        invariant
            all == crate::digest::digests_view(ids@),
            n == ids.len(),
            n >= 2,
            i <= n - 1,
            id_order_spec(all) == id_order_spec(all.skip(i as int)),
        decreases ids.len() - i,
    {
        let order = compare_bytes(ids[i].as_slice(), ids[i + 1].as_slice());
        proof {
            let t = all.skip(i as int);
            assert(t[0] == ids@[i as int]@);
            assert(t[1] == ids@[i + 1]@);
            assert(t.drop_first() =~= all.skip(i + 1));
        }
        match order {
            ByteOrder::Equal => {
                return Err(PackError::pack(PackErrorCode::DuplicateEntry));
            },
            ByteOrder::Greater => {
                return Err(PackError::pack(PackErrorCode::CanonicalOrder));
            },
            ByteOrder::Less => {},
        }
        i = i + 1;
    }
    Ok(())
}

/// Checks the entry counts of a pack.
pub fn check_counts(epochs: usize, roots: usize, objects: usize) -> (r: Result<(), PackError>)
    ensures
        (1 <= epochs <= MAX_PACK_EPOCHS && 1 <= roots <= MAX_PACK_ROOTS && objects
            <= MAX_PACK_OBJECTS) ==> r is Ok,
        !(1 <= epochs <= MAX_PACK_EPOCHS && 1 <= roots <= MAX_PACK_ROOTS && objects
            <= MAX_PACK_OBJECTS) ==> r is Err && r->Err_0@ == PackFault::Pack(
            PackErrorCode::ResourceLimit,
        ),
{
    if epochs == 0 || epochs > MAX_PACK_EPOCHS || roots == 0 || roots > MAX_PACK_ROOTS || objects
        > MAX_PACK_OBJECTS {
        return Err(PackError::pack(PackErrorCode::ResourceLimit));
    }
    Ok(())
}

/// Total length of the byte strings of a sequence of entries.
pub open spec fn total_bytes(es: Seq<(Seq<u8>, Seq<u8>)>) -> nat
    decreases es.len(),
{
    if es.len() == 0 {
        0
    } else {
        es[0].1.len() + total_bytes(es.drop_first())
    }
}

proof fn lemma_total_bytes_push(es: Seq<(Seq<u8>, Seq<u8>)>, e: (Seq<u8>, Seq<u8>))
    ensures
        total_bytes(es.push(e)) == total_bytes(es) + e.1.len(),
    decreases es.len(),
{
    let p = es.push(e);
    assert(p[0] == if es.len() == 0 { e } else { es[0] });
    if es.len() == 0 {
        assert(p.drop_first() =~= Seq::<(Seq<u8>, Seq<u8>)>::empty());
        assert(total_bytes(p.drop_first()) == 0);
    } else {
        lemma_total_bytes_push(es.drop_first(), e);
        assert(p.drop_first() =~= es.drop_first().push(e));
    }
}

/// Adds the lengths of the byte strings of `es` to `total`, failing once the
/// sum exceeds `limit`.
fn sum_entry_bytes<E: PackEntry>(es: &Vec<E>, total: usize, limit: usize) -> (r: Option<usize>)
    requires
        total <= limit,
    ensures
        r is Some <==> total + total_bytes(entry_views(es@)) <= limit,
        r is Some ==> r->0 == total + total_bytes(entry_views(es@)),
{
    let ghost vs = entry_views(es@);
    let mut sum = total;
    let mut i: usize = 0;
    proof {
        assert(vs.take(0) =~= Seq::<(Seq<u8>, Seq<u8>)>::empty());
    }
    while i < es.len()
        invariant
            i <= es.len(),
            vs == entry_views(es@),
            sum == total + total_bytes(vs.take(i as int)),
            sum <= limit,
        decreases es.len() - i,
    {
        let len = es[i].content().len();
        proof {
            assert(vs.take(i + 1) =~= vs.take(i as int).push(vs[i as int]));
            lemma_total_bytes_push(vs.take(i as int), vs[i as int]);
        }
        if len > limit - sum {
            proof {
                lemma_total_bytes_prefix(vs, i + 1);
            }
            return None;
        }
        sum = sum + len;
        i = i + 1;
    }
    assert(vs.take(i as int) =~= vs);
    Some(sum)
}

proof fn lemma_total_bytes_prefix(es: Seq<(Seq<u8>, Seq<u8>)>, k: int)
    requires
        0 <= k <= es.len(),
    ensures
        total_bytes(es.take(k)) <= total_bytes(es),
    decreases es.len(),
{
    if k > 0 {
        lemma_total_bytes_prefix(es.drop_first(), k - 1);
        assert(es.take(k).drop_first() =~= es.drop_first().take(k - 1));
    }
}

/// The (identity, bytes) views of a sequence of entries.
pub open spec fn entry_views<E: View<V = (Seq<u8>, Seq<u8>)>>(es: Seq<E>) -> Seq<(Seq<u8>, Seq<u8>)> {
    es.map_values(|e: E| e@)
}

/// An embedded entry: a 32-byte identity and the exact bytes it names.
pub trait PackEntry: View<V = (Seq<u8>, Seq<u8>)> + Sized {
    /// The entry naming `content` by `id`.
    fn make(id: [u8; 32], content: Vec<u8>) -> (r: Self)
        ensures
            r@ == (id@, content@);

    /// The declared identity.
    fn id(&self) -> (r: &[u8; 32])
        ensures
            r@ == self@.0;

    /// The embedded bytes.
    fn content(&self) -> (r: &[u8])
        ensures
            r@ == self@.1;
}

impl PackEntry for PackEpochEntry {
    fn make(id: [u8; 32], content: Vec<u8>) -> (r: Self) {
        PackEpochEntry { schema_epoch_id: id, bootstrap_preimage: content }
    }

    fn id(&self) -> (r: &[u8; 32]) {
        &self.schema_epoch_id
    }

    fn content(&self) -> (r: &[u8]) {
        self.bootstrap_preimage.as_slice()
    }
}

impl PackEntry for PackRootEntry {
    fn make(id: [u8; 32], content: Vec<u8>) -> (r: Self) {
        PackRootEntry { state_root: id, stored_bytes: content }
    }

    fn id(&self) -> (r: &[u8; 32]) {
        &self.state_root
    }

    fn content(&self) -> (r: &[u8]) {
        self.stored_bytes.as_slice()
    }
}

impl PackEntry for PackObjectEntry {
    fn make(id: [u8; 32], content: Vec<u8>) -> (r: Self) {
        PackObjectEntry { object_id: id, stored_bytes: content }
    }

    fn id(&self) -> (r: &[u8; 32]) {
        &self.object_id
    }

    fn content(&self) -> (r: &[u8]) {
        self.stored_bytes.as_slice()
    }
}

/// Checks the total embedded bytes of a pack.
pub fn check_expanded_bytes(
    epochs: &Vec<PackEpochEntry>,
    roots: &Vec<PackRootEntry>,
    objects: &Vec<PackObjectEntry>,
) -> (r: Result<(), PackError>)
    ensures
        ({
            let total = total_bytes(entry_views(epochs@)) + total_bytes(entry_views(roots@)) + total_bytes(entry_views(objects@));
            &&& total <= MAX_EXPANDED_BYTES ==> r is Ok
            &&& total > MAX_EXPANDED_BYTES ==> r is Err && r->Err_0@ == PackFault::Pack(
                PackErrorCode::ResourceLimit,
            )
        }),
{
    let a = sum_entry_bytes(epochs, 0, MAX_EXPANDED_BYTES);
    if a.is_none() {
        return Err(PackError::pack(PackErrorCode::ResourceLimit));
    }
    let b = sum_entry_bytes(roots, a.unwrap(), MAX_EXPANDED_BYTES);
    if b.is_none() {
        return Err(PackError::pack(PackErrorCode::ResourceLimit));
    }
    let c = sum_entry_bytes(objects, b.unwrap(), MAX_EXPANDED_BYTES);
    if c.is_none() {
        return Err(PackError::pack(PackErrorCode::ResourceLimit));
    }
    Ok(())
}

/// Reading a section that must declare zero entries.
pub open spec fn empty_section_spec(s: Seq<u8>) -> Result<(), PackFault> {
    match read_uvar_spec(s) {
        Err(code) => Err(PackFault::Scb(code)),
        Ok((count, n)) => if count != 0 {
            Err(PackFault::Pack(PackErrorCode::ProfileUnsupported))
        } else if n != s.len() {
            Err(PackFault::Scb(ScbErrorCode::TrailingBytes))
        } else {
            Ok(())
        },
    }
}

/// Requires an empty later-profile section (refs or transactions).
pub fn decode_empty_section(input: &[u8]) -> (r: Result<(), PackError>)
    ensures
        match empty_section_spec(input@) {
            Ok(()) => r is Ok,
            Err(f) => r is Err && r->Err_0@ == f,
        },
{
    let mut reader = Reader::new(input);
    let count = reader.read_uvar()?;
    if count != 0 {
        return Err(PackError::pack(PackErrorCode::ProfileUnsupported));
    }
    if !reader.is_finished() {
        return Err(PackError::upstream(ScbErrorCode::TrailingBytes));
    }
    Ok(())
}

/// Reading a signature union that must be the absent variant.
pub open spec fn absent_signature_spec(s: Seq<u8>) -> Result<(), PackFault> {
    match read_uvar_spec(s) {
        Err(code) => Err(PackFault::Scb(code)),
        Ok((tag, n)) => match read_bytes_spec(s.skip(n as int)) {
            Err(f) => Err(f),
            Ok((payload, m)) => if n + m != s.len() {
                Err(PackFault::Scb(ScbErrorCode::TrailingBytes))
            } else if tag == 0 && payload.len() == 0 {
                Ok(())
            } else if tag == 1 {
                Err(PackFault::Pack(PackErrorCode::ProfileUnsupported))
            } else {
                Err(PackFault::Scb(ScbErrorCode::UnionInvalid))
            },
        },
    }
}

/// Requires the absent signature variant.
pub fn decode_absent_signature(input: &[u8]) -> (r: Result<(), PackError>)
    ensures
        match absent_signature_spec(input@) {
            Ok(()) => r is Ok,
            Err(f) => r is Err && r->Err_0@ == f,
        },
{
    let mut reader = Reader::new(input);
    let tag = reader.read_uvar()?;
    let ghost mid = reader.rest();
    proof {
        if let Ok((t, n)) = read_uvar_spec(input@) {
            assert(mid =~= input@.skip(n as int));
        }
    }
    let payload = reader.read_bytes()?;
    if !reader.is_finished() {
        return Err(PackError::upstream(ScbErrorCode::TrailingBytes));
    }
    if tag == 0 && payload.len() == 0 {
        Ok(())
    } else if tag == 1 {
        Err(PackError::pack(PackErrorCode::ProfileUnsupported))
    } else {
        Err(PackError::upstream(ScbErrorCode::UnionInvalid))
    }
}

} // verus!
