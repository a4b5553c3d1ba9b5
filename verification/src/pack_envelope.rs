//! The stored form of a repository pack: the SLEYSCB1 envelope around the
//! payload, sealed by a 32-byte pack identity.

use vstd::prelude::*;

use crate::bytes::{append_bytes, bytes_equal};
use crate::pack::{PackError, PackErrorCode, PackFault, CONTRACT_TAG, FORMAT_VERSION, MAX_PACK_BYTES};
use crate::pack_tree::ascii_bytes;
use crate::scb::{
    encode_uvar, lemma_uvar_roundtrip, read_len_spec, read_uvar_spec, uvar_bytes, Reader, ScbErrorCode,
};

verus! {

/// The leading magic bytes of every stored pack.
pub open spec fn magic() -> Seq<u8> {
    ascii_bytes("SLEYSCB1"@)
}

fn magic_bytes() -> (r: &'static [u8])
    ensures
        r@ == magic(),
{
    let text = "SLEYSCB1";
    proof {
        reveal_strlit("SLEYSCB1");
        vstd::string::is_ascii_spec_bytes(text);
    }
    let r = text.as_bytes();
    assert(r@ =~= magic());
    r
}

/// The bytes a pack identity is derived from: magic, format version,
/// contract tag, schema epoch, payload length and payload.
pub open spec fn envelope_preimage(epoch: Seq<u8>, payload: Seq<u8>) -> Seq<u8> {
    magic() + uvar_bytes(FORMAT_VERSION as nat) + uvar_bytes(CONTRACT_TAG as nat) + epoch
        + uvar_bytes(payload.len()) + payload
}

/// Builds the preimage of a pack identity.
pub fn pack_preimage(epoch_id: &[u8; 32], payload: &[u8]) -> (r: Vec<u8>)
    ensures
        r@ == envelope_preimage(epoch_id@, payload@),
{
    let mut out: Vec<u8> = Vec::new();
    append_bytes(&mut out, magic_bytes());
    let version = encode_uvar(FORMAT_VERSION);
    append_bytes(&mut out, version.as_slice());
    let tag = encode_uvar(CONTRACT_TAG as u64);
    append_bytes(&mut out, tag.as_slice());
    append_bytes(&mut out, epoch_id.as_slice());
    let len = encode_uvar(payload.len() as u64);
    append_bytes(&mut out, len.as_slice());
    append_bytes(&mut out, payload);
    assert(out@ =~= envelope_preimage(epoch_id@, payload@));
    out
}

/// Appends the pack identity to its preimage, refusing a result over
/// `MAX_PACK_BYTES`.
pub fn stored_pack_bytes(preimage: Vec<u8>, pack_id: &[u8; 32]) -> (r: Result<Vec<u8>, PackError>)
    ensures
        preimage@.len() + 32 <= MAX_PACK_BYTES ==> r is Ok && r->Ok_0@ == preimage@ + pack_id@,
        preimage@.len() + 32 > MAX_PACK_BYTES ==> r is Err && r->Err_0@ == PackFault::Pack(
            PackErrorCode::ResourceLimit,
        ),
{
    let mut out = preimage;
    if out.len() > MAX_PACK_BYTES - 32 {
        return Err(PackError::pack(PackErrorCode::ResourceLimit));
    }
    append_bytes(&mut out, pack_id.as_slice());
    Ok(out)
}

/// Reading a stored pack whose identity, derived from every byte before the
/// 32-byte trailer, is `derived`: its schema epoch and payload.
pub open spec fn envelope_spec(s: Seq<u8>, derived: Seq<u8>) -> Result<(Seq<u8>, Seq<u8>), PackFault> {
    if s.len() > MAX_PACK_BYTES {
        Err(PackFault::Pack(PackErrorCode::ResourceLimit))
    } else if s.len() < 8 {
        Err(PackFault::Scb(ScbErrorCode::LengthOverflow))
    } else if s.take(8) != magic() {
        Err(PackFault::Scb(ScbErrorCode::MagicInvalid))
    } else {
        let s1 = s.skip(8);
        match read_uvar_spec(s1) {
            Err(c) => Err(PackFault::Scb(c)),
            Ok((version, n1)) => if version != FORMAT_VERSION {
                Err(PackFault::Scb(ScbErrorCode::VersionUnsupported))
            } else {
                let s2 = s1.skip(n1 as int);
                match read_uvar_spec(s2) {
                    Err(c) => Err(PackFault::Scb(c)),
                    Ok((tag, n2)) => if tag != CONTRACT_TAG {
                        Err(PackFault::Scb(ScbErrorCode::ContractUnknown))
                    } else {
                        let s3 = s2.skip(n2 as int);
                        if s3.len() < 32 {
                            Err(PackFault::Scb(ScbErrorCode::LengthOverflow))
                        } else {
                            let s4 = s3.skip(32);
                            match read_len_spec(s4, MAX_PACK_BYTES) {
                                Err(f) => Err(f),
                                Ok((len, n4)) => {
                                    let s5 = s4.skip(n4 as int);
                                    if len > s5.len() {
                                        Err(PackFault::Scb(ScbErrorCode::LengthOverflow))
                                    } else {
                                        let s6 = s5.skip(len as int);
                                        if s6.len() < 32 {
                                            Err(PackFault::Scb(ScbErrorCode::LengthOverflow))
                                        } else if s6.len() != 32 {
                                            Err(PackFault::Scb(ScbErrorCode::TrailingBytes))
                                        } else if s6 != derived {
                                            Err(PackFault::Pack(PackErrorCode::DigestMismatch))
                                        } else {
                                            Ok((s3.take(32), s5.take(len as int)))
                                        }
                                    }
                                },
                            }
                        }
                    },
                }
            },
        }
    }
}

/// Reads a stored pack: checks the envelope and that its trailer equals
/// `derived_id`, the identity derived from the bytes before the trailer;
/// returns the schema epoch and the payload.
#[verifier::rlimit(40)]
pub fn decode_envelope(input: &[u8], derived_id: &[u8; 32]) -> (r: Result<([u8; 32], Vec<u8>), PackError>)
    ensures
        match envelope_spec(input@, derived_id@) {
            Ok((epoch, payload)) => r is Ok && r->Ok_0.0@ == epoch && r->Ok_0.1@ == payload,
            Err(f) => r is Err && r->Err_0@ == f,
        },
{
    if input.len() > MAX_PACK_BYTES {
        return Err(PackError::pack(PackErrorCode::ResourceLimit));
    }
    let mut reader = Reader::new(input);
    let head = reader.take_exact(8)?;
    if !bytes_equal(head.as_slice(), magic_bytes()) {
        return Err(PackError::upstream(ScbErrorCode::MagicInvalid));
    }
    let ghost s1 = reader.rest();
    assert(s1 =~= input@.skip(8));
    let version = reader.read_uvar()?;
    if version != FORMAT_VERSION {
        return Err(PackError::upstream(ScbErrorCode::VersionUnsupported));
    }
    let ghost s2 = reader.rest();
    proof {
        let n1 = read_uvar_spec(s1)->Ok_0.1;
        assert(s2 =~= s1.skip(n1 as int));
    }
    let tag = reader.read_uvar()?;
    if tag != CONTRACT_TAG as u64 {
        return Err(PackError::upstream(ScbErrorCode::ContractUnknown));
    }
    let ghost s3 = reader.rest();
    proof {
        let n2 = read_uvar_spec(s2)->Ok_0.1;
        assert(s3 =~= s2.skip(n2 as int));
    }
    let epoch = reader.take_array()?;
    let ghost s4 = reader.rest();
    assert(s4 =~= s3.skip(32));
    let len = reader.read_len(MAX_PACK_BYTES)?;
    let ghost s5 = reader.rest();
    proof {
        let n4 = read_len_spec(s4, MAX_PACK_BYTES)->Ok_0.1;
        assert(s5 =~= s4.skip(n4 as int));
    }
    let payload = reader.take_exact(len)?;
    let ghost s6 = reader.rest();
    assert(s6 =~= s5.skip(len as int));
    let trailer = reader.take_array()?;
    if !reader.is_finished() {
        return Err(PackError::upstream(ScbErrorCode::TrailingBytes));
    }
    assert(s6.take(32) =~= s6);
    if !bytes_equal(trailer.as_slice(), derived_id.as_slice()) {
        return Err(PackError::pack(PackErrorCode::DigestMismatch));
    }
    Ok((epoch, payload))
}

/// A stored pack built from a schema epoch and a payload reads back as that
/// epoch and payload, given the identity it was sealed with.
pub proof fn lemma_envelope_roundtrip(epoch: Seq<u8>, payload: Seq<u8>, pack_id: Seq<u8>)
    requires
        epoch.len() == 32,
        pack_id.len() == 32,
        envelope_preimage(epoch, payload).len() + 32 <= MAX_PACK_BYTES,
    ensures
        envelope_spec(envelope_preimage(epoch, payload) + pack_id, pack_id) == Ok::<
            (Seq<u8>, Seq<u8>),
            PackFault,
        >((epoch, payload)),
{
    reveal_strlit("SLEYSCB1");
    assert(magic().len() == 8);
    let s = envelope_preimage(epoch, payload) + pack_id;
    let uv = uvar_bytes(FORMAT_VERSION as nat);
    let ut = uvar_bytes(CONTRACT_TAG as nat);
    let ul = uvar_bytes(payload.len());
    let tail4 = ul + payload + pack_id;
    let tail3 = epoch + tail4;
    let tail2 = ut + tail3;
    let tail1 = uv + tail2;
    assert(s =~= magic() + tail1);
    assert(s.take(8) =~= magic());
    assert(s.skip(8) =~= tail1);
    lemma_uvar_roundtrip(FORMAT_VERSION, tail2);
    assert(tail1.skip(uv.len() as int) =~= tail2);
    lemma_uvar_roundtrip(CONTRACT_TAG as u64, tail3);
    assert(tail2.skip(ut.len() as int) =~= tail3);
    assert(tail3.take(32) =~= epoch);
    assert(tail3.skip(32) =~= tail4);
    lemma_uvar_roundtrip(payload.len() as u64, payload + pack_id);
    assert(tail4 =~= ul + (payload + pack_id));
    assert(tail4.skip(ul.len() as int) =~= payload + pack_id);
    assert((payload + pack_id).take(payload.len() as int) =~= payload);
    assert((payload + pack_id).skip(payload.len() as int) =~= pack_id);
}

} // verus!
