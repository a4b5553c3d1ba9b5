//! SLEYSCB1 wire primitives: the unsigned base-128 varint, length-prefixed
//! byte strings, field records, lists and unions.

use vstd::prelude::*;

use crate::bytes::copy_range;
use crate::pack::{PackError, PackErrorCode, PackFault, MAX_PACK_BYTES};

verus! {

/// Stable wire-layer failure code preserved by every decoder here.
#[derive(Clone, Copy, Debug, PartialEq, Eq, Structural)]
pub enum ScbErrorCode {
    /// Leading magic bytes are not `SLEYSCB1`.
    MagicInvalid,
    /// Unsupported wire format version.
    VersionUnsupported,
    /// Unknown contract tag.
    ContractUnknown,
    /// Envelope schema epoch differs from the expected one.
    EpochMismatch,
    /// Input ends before a declared length, or a length does not fit.
    LengthOverflow,
    /// A varint does not fit in 64 bits.
    IntegerOverflow,
    /// A varint is not in its shortest form.
    VarintNonMinimal,
    /// Bytes remain after a complete value.
    TrailingBytes,
    /// A required field is absent.
    FieldMissing,
    /// A field tag repeats.
    FieldDuplicate,
    /// Field tags are not ascending.
    FieldOrder,
    /// A field tag is not part of the contract.
    FieldUnknown,
    /// A union tag or payload is invalid.
    UnionInvalid,
}

impl ScbErrorCode {
    /// Returns the exact stable symbol.
    pub fn as_str(self) -> (s: &'static str)
        ensures
            s@ == self.symbol(),
    {
        match self {
            ScbErrorCode::MagicInvalid => "SCB_MAGIC_INVALID",
            ScbErrorCode::VersionUnsupported => "SCB_VERSION_UNSUPPORTED",
            ScbErrorCode::ContractUnknown => "SCB_CONTRACT_UNKNOWN",
            ScbErrorCode::EpochMismatch => "SCB_EPOCH_MISMATCH",
            ScbErrorCode::LengthOverflow => "SCB_LENGTH_OVERFLOW",
            ScbErrorCode::IntegerOverflow => "SCB_INTEGER_OVERFLOW",
            ScbErrorCode::VarintNonMinimal => "SCB_VARINT_NON_MINIMAL",
            ScbErrorCode::TrailingBytes => "SCB_TRAILING_BYTES",
            ScbErrorCode::FieldMissing => "SCB_FIELD_MISSING",
            ScbErrorCode::FieldDuplicate => "SCB_FIELD_DUPLICATE",
            ScbErrorCode::FieldOrder => "SCB_FIELD_ORDER",
            ScbErrorCode::FieldUnknown => "SCB_FIELD_UNKNOWN",
            ScbErrorCode::UnionInvalid => "SCB_UNION_INVALID",
        }
    }

    /// The stable symbol of each code.
    pub open spec fn symbol(self) -> Seq<char> {
        match self {
            ScbErrorCode::MagicInvalid => "SCB_MAGIC_INVALID"@,
            ScbErrorCode::VersionUnsupported => "SCB_VERSION_UNSUPPORTED"@,
            ScbErrorCode::ContractUnknown => "SCB_CONTRACT_UNKNOWN"@,
            ScbErrorCode::EpochMismatch => "SCB_EPOCH_MISMATCH"@,
            ScbErrorCode::LengthOverflow => "SCB_LENGTH_OVERFLOW"@,
            ScbErrorCode::IntegerOverflow => "SCB_INTEGER_OVERFLOW"@,
            ScbErrorCode::VarintNonMinimal => "SCB_VARINT_NON_MINIMAL"@,
            ScbErrorCode::TrailingBytes => "SCB_TRAILING_BYTES"@,
            ScbErrorCode::FieldMissing => "SCB_FIELD_MISSING"@,
            ScbErrorCode::FieldDuplicate => "SCB_FIELD_DUPLICATE"@,
            ScbErrorCode::FieldOrder => "SCB_FIELD_ORDER"@,
            ScbErrorCode::FieldUnknown => "SCB_FIELD_UNKNOWN"@,
            ScbErrorCode::UnionInvalid => "SCB_UNION_INVALID"@,
        }
    }
}

// ---------------------------------------------------------------------------
// Mathematical model of the unsigned varint.
// ---------------------------------------------------------------------------

/// The seven payload bits of one varint byte.
pub open spec fn low7(b: u8) -> nat {
    if b >= 128 {
        (b - 128) as nat
    } else {
        b as nat
    }
}

/// `128` raised to `k`.
pub open spec fn pow128(k: nat) -> nat
    decreases k,
{
    if k == 0 {
        1
    } else {
        128 * pow128((k - 1) as nat)
    }
}

/// Little-endian base-128 value of the payload bits of `s`.
pub open spec fn le_value(s: Seq<u8>) -> nat
    decreases s.len(),
{
    if s.len() == 0 {
        0
    } else {
        low7(s[0]) + 128 * le_value(s.drop_first())
    }
}

/// The canonical (shortest) varint encoding of `v`.
pub open spec fn uvar_bytes(v: nat) -> Seq<u8>
    decreases v,
{
    if v < 128 {
        seq![v as u8]
    } else {
        seq![(v % 128 + 128) as u8] + uvar_bytes(v / 128)
    }
}

/// Number of leading continuation bytes (high bit set) of `s`.
pub open spec fn lead_count(s: Seq<u8>) -> nat
    decreases s.len(),
{
    if s.len() == 0 || s[0] < 128 {
        0
    } else {
        1 + lead_count(s.drop_first())
    }
}

/// Outcome of a varint whose terminating byte is `s[k]`.
pub open spec fn uvar_terminated(s: Seq<u8>, k: nat) -> Result<(u64, nat), ScbErrorCode> {
    let v = le_value(s.take((k + 1) as int));
    if uvar_bytes(v).len() == k + 1 {
        Ok((v as u64, k + 1))
    } else {
        Err(ScbErrorCode::VarintNonMinimal)
    }
}

/// What reading one varint from the front of `s` yields: the value and the
/// number of bytes consumed, or the failure.
///
/// At most ten bytes are read; the tenth may only hold `0` or `1`, and the
/// bytes read must be the shortest encoding of their value.
pub open spec fn read_uvar_spec(s: Seq<u8>) -> Result<(u64, nat), ScbErrorCode> {
    let t = lead_count(s);
    if t < s.len() && t <= 8 {
        uvar_terminated(s, t)
    } else if t >= 9 && s.len() >= 10 {
        if s[9] > 1 {
            Err(ScbErrorCode::IntegerOverflow)
        } else {
            uvar_terminated(s, 9)
        }
    } else {
        Err(ScbErrorCode::LengthOverflow)
    }
}

// ---------------------------------------------------------------------------
// Varint lemmas.
// ---------------------------------------------------------------------------

proof fn lemma_mul_128(a: nat, b: nat, p: nat)
    ensures
        128 * (a + b * p) == 128 * a + b * (128 * p),
{
    assert(128 * (a + b * p) == 128 * a + b * (128 * p)) by (nonlinear_arith);
}

proof fn lemma_pow128_positive(k: nat)
    ensures
        pow128(k) >= 1,
    decreases k,
{
    if k > 0 {
        lemma_pow128_positive((k - 1) as nat);
    }
}

proof fn lemma_pow128_monotone(j: nat, k: nat)
    requires
        j <= k,
    ensures
        pow128(j) <= pow128(k),
    decreases k,
{
    if j < k {
        lemma_pow128_monotone(j, (k - 1) as nat);
        lemma_pow128_positive((k - 1) as nat);
    }
}

proof fn lemma_pow128_nine()
    ensures
        pow128(9) == 0x8000_0000_0000_0000,
{
    reveal_with_fuel(pow128, 10);
}

/// The value of `k` payload digits stays below `128^k`.
proof fn lemma_le_value_bound(s: Seq<u8>)
    ensures
        le_value(s) < pow128(s.len()),
    decreases s.len(),
{
    if s.len() > 0 {
        lemma_le_value_bound(s.drop_first());
        let r = le_value(s.drop_first());
        let p = pow128(s.drop_first().len());
        assert(low7(s[0]) + 128 * r < 128 * p) by (nonlinear_arith)
            requires
                low7(s[0]) < 128,
                r < p,
        ;
    }
}

/// Adding one more digit at position `k` adds `low7(s[k]) * 128^k`.
proof fn lemma_le_value_take(s: Seq<u8>, k: nat)
    requires
        k < s.len(),
    ensures
        le_value(s.take((k + 1) as int)) == le_value(s.take(k as int)) + low7(s[k as int]) * pow128(k),
    decreases k,
{
    if k == 0 {
        assert(s.take(1).drop_first() =~= Seq::<u8>::empty());
        assert(s.take(0) =~= Seq::<u8>::empty());
        assert(le_value(Seq::<u8>::empty()) == 0);
        assert(le_value(s.take(1)) == low7(s[0]));
        assert(pow128(0) == 1);
    } else {
        let t = s.drop_first();
        lemma_le_value_take(t, (k - 1) as nat);
        assert(s.take((k + 1) as int).drop_first() =~= t.take(k as int));
        assert(s.take(k as int).drop_first() =~= t.take(k - 1));
        assert(t[k - 1] == s[k as int]);
        assert(s.take((k + 1) as int)[0] == s[0]);
        assert(s.take(k as int)[0] == s[0]);
        assert(le_value(s.take((k + 1) as int)) == low7(s[0]) + 128 * le_value(t.take(k as int)));
        assert(le_value(s.take(k as int)) == low7(s[0]) + 128 * le_value(t.take(k - 1)));
        assert(pow128(k) == 128 * pow128((k - 1) as nat));
        lemma_mul_128(
            le_value(t.take(k - 1)),
            low7(s[k as int]),
            pow128((k - 1) as nat),
        );
    }
}

/// `lead_count` equals `k` when the first `k` bytes continue and byte `k`
/// terminates, or when all `k` bytes of `s` continue.
proof fn lemma_lead_count(s: Seq<u8>, k: nat)
    requires
        k <= s.len(),
        forall|i: int| 0 <= i < k ==> s[i] >= 128,
    ensures
        lead_count(s) >= k,
        k == s.len() ==> lead_count(s) == k,
        k < s.len() && s[k as int] < 128 ==> lead_count(s) == k,
    decreases k,
{
    if k > 0 {
        let t = s.drop_first();
        assert forall|i: int| 0 <= i < k - 1 implies t[i] >= 128 by {
            assert(t[i] == s[i + 1]);
        }
        lemma_lead_count(t, (k - 1) as nat);
    }
}

/// Bytes before position `lead_count(s)` continue, the byte there terminates.
proof fn lemma_lead_count_shape(s: Seq<u8>)
    ensures
        lead_count(s) <= s.len(),
        forall|i: int| 0 <= i < lead_count(s) ==> s[i] >= 128,
        lead_count(s) < s.len() ==> s[lead_count(s) as int] < 128,
    decreases s.len(),
{
    if s.len() > 0 && s[0] >= 128 {
        let t = s.drop_first();
        lemma_lead_count_shape(t);
        assert forall|i: int| 0 <= i < lead_count(s) implies s[i] >= 128 by {
            if i > 0 {
                assert(s[i] == t[i - 1]);
            }
        }
    }
}

/// Shape of the canonical encoding: continuation bytes then one terminator.
pub proof fn lemma_uvar_shape(v: nat)
    ensures
        uvar_bytes(v).len() >= 1,
        forall|i: int| 0 <= i < uvar_bytes(v).len() - 1 ==> uvar_bytes(v)[i] >= 128,
        uvar_bytes(v)[uvar_bytes(v).len() - 1] < 128,
        le_value(uvar_bytes(v)) == v,
    decreases v,
{
    if v >= 128 {
        lemma_uvar_shape(v / 128);
        let b = uvar_bytes(v);
        let t = uvar_bytes(v / 128);
        assert(b.drop_first() =~= t);
        assert forall|i: int| 0 <= i < b.len() - 1 implies b[i] >= 128 by {
            if i > 0 {
                assert(b[i] == t[i - 1]);
            }
        }
        assert(b[b.len() - 1] == t[t.len() - 1]);
        assert(low7(b[0]) == v % 128);
        assert(le_value(b) == low7(b[0]) + 128 * le_value(t));
    } else {
        assert(uvar_bytes(v).drop_first() =~= Seq::<u8>::empty());
        assert(le_value(Seq::<u8>::empty()) == 0);
    }
}

/// A value below `128^(k+1)` encodes in at most `k + 1` bytes.
proof fn lemma_uvar_len_bound(v: nat, k: nat)
    requires
        v < pow128(k + 1),
    ensures
        uvar_bytes(v).len() <= k + 1,
    decreases k,
{
    if v >= 128 {
        if k == 0 {
            assert(pow128(1) == 128) by {
                reveal_with_fuel(pow128, 2);
            }
        } else {
            let p = pow128(k);
            assert(v / 128 < p) by (nonlinear_arith)
                requires
                    v < 128 * p,
            ;
            lemma_uvar_len_bound(v / 128, (k - 1) as nat);
        }
    }
}

/// In a ten-byte encoding of a 64-bit value the last byte is `0` or `1`.
proof fn lemma_uvar_last(v: nat, k: nat)
    requires
        v < 2 * pow128(k),
        uvar_bytes(v).len() == k + 1,
    ensures
        uvar_bytes(v)[k as int] <= 1,
    decreases k,
{
    if k > 0 {
        let p = pow128((k - 1) as nat);
        if v < 128 {
        } else {
            assert(v / 128 < 2 * p) by (nonlinear_arith)
                requires
                    v < 2 * (128 * p),
            ;
            lemma_uvar_last(v / 128, (k - 1) as nat);
            assert(uvar_bytes(v)[k as int] == uvar_bytes(v / 128)[k - 1]);
        }
    }
}

/// A 64-bit value encodes in at most ten bytes, the tenth being `0` or `1`.
pub proof fn lemma_uvar_u64(v: u64)
    ensures
        uvar_bytes(v as nat).len() <= 10,
        uvar_bytes(v as nat).len() == 10 ==> uvar_bytes(v as nat)[9] <= 1,
{
    lemma_pow128_nine();
    assert(pow128(10) == 128 * pow128(9));
    lemma_uvar_len_bound(v as nat, 9);
    if uvar_bytes(v as nat).len() == 10 {
        lemma_uvar_last(v as nat, 9);
    }
}

/// Decoding the canonical encoding of a 64-bit value, whatever follows it,
/// gives the value back and consumes exactly the encoding.
pub proof fn lemma_uvar_roundtrip(v: u64, rest: Seq<u8>)
    ensures
        read_uvar_spec(uvar_bytes(v as nat) + rest) == Ok::<(u64, nat), ScbErrorCode>(
            (v, uvar_bytes(v as nat).len()),
        ),
{
    let b = uvar_bytes(v as nat);
    let s = b + rest;
    lemma_uvar_shape(v as nat);
    lemma_uvar_u64(v);
    let n = b.len();
    assert forall|i: int| 0 <= i < n - 1 implies s[i] >= 128 by {
        assert(s[i] == b[i]);
    }
    assert(s[n - 1] == b[n - 1]);
    lemma_lead_count(s, (n - 1) as nat);
    assert(s.take(n as int) =~= b);
}

/// A successfully decoded varint is exactly the canonical encoding of its
/// value: no other byte string decodes.
pub proof fn lemma_uvar_canonical(s: Seq<u8>)
    ensures
        read_uvar_spec(s) matches Ok((v, n)) ==> n <= s.len() && n <= 10 && s.take(n as int)
            == uvar_bytes(v as nat),
{
    if let Ok((v, n)) = read_uvar_spec(s) {
        let t = lead_count(s);
        lemma_lead_count_shape(s);
        let k: nat = if t < s.len() && t <= 8 {
            t
        } else {
            9
        };
        if k == 9 {
            lemma_lead_count(s, 9);
        }
        let p = s.take((k + 1) as int);
        assert forall|i: int| 0 <= i < k implies p[i] >= 128 by {}
        let w = le_value(p);
        lemma_le_value_bound(p);
        lemma_uvar_shape(w);
        lemma_terminated_canonical(p);
        if k == 9 {
            lemma_pow128_nine();
            lemma_le_value_take(s, 9);
            lemma_le_value_bound(s.take(9));
            assert(w < 0x1_0000_0000_0000_0000) by (nonlinear_arith)
                requires
                    w == le_value(s.take(9)) + low7(s[9]) * pow128(9),
                    le_value(s.take(9)) < pow128(9),
                    low7(s[9]) <= 1,
                    pow128(9) == 0x8000_0000_0000_0000,
            ;
        } else {
            lemma_pow128_nine();
            lemma_pow128_monotone(k + 1, 9);
        }
    }
}

/// A continuation run closed by one terminator whose length is that of the
/// canonical encoding of its value is that canonical encoding.
proof fn lemma_terminated_canonical(p: Seq<u8>)
    requires
        p.len() >= 1,
        forall|i: int| 0 <= i < p.len() - 1 ==> p[i] >= 128,
        p[p.len() - 1] < 128,
        uvar_bytes(le_value(p)).len() == p.len(),
    ensures
        uvar_bytes(le_value(p)) == p,
    decreases p.len(),
{
    let v = le_value(p);
    if p.len() == 1 {
        assert(p.drop_first() =~= Seq::<u8>::empty());
        assert(le_value(Seq::<u8>::empty()) == 0);
        assert(v == p[0]);
        assert(uvar_bytes(v) =~= p);
    } else {
        let t = p.drop_first();
        assert(v >= 128);
        assert(p[0] >= 128);
        assert(v % 128 == low7(p[0]) && v / 128 == le_value(t)) by (nonlinear_arith)
            requires
                v == low7(p[0]) + 128 * le_value(t),
                low7(p[0]) < 128,
        ;
        assert forall|i: int| 0 <= i < t.len() - 1 implies t[i] >= 128 by {
            assert(t[i] == p[i + 1]);
        }
        lemma_terminated_canonical(t);
        assert(p[0] == (v % 128 + 128) as u8);
        assert(uvar_bytes(v) == seq![(v % 128 + 128) as u8] + uvar_bytes(v / 128));
        assert(p =~= seq![p[0]] + t);
        assert(uvar_bytes(v) =~= p);
    }
}

// ---------------------------------------------------------------------------
// Varint encoding.
// ---------------------------------------------------------------------------

/// Returns the length of the canonical varint encoding of `value`.
pub fn uvar_len(value: u64) -> (r: usize)
    ensures
        r == uvar_bytes(value as nat).len(),
        1 <= r <= 10,
{
    proof {
        lemma_uvar_u64(value);
        lemma_uvar_shape(value as nat);
    }
    let mut current = value;
    let mut count: usize = 1;
    while current >= 128
        invariant
            1 <= count,
            count - 1 + uvar_bytes(current as nat).len() == uvar_bytes(value as nat).len(),
            uvar_bytes(value as nat).len() <= 10,
        decreases current,
    {
        proof {
            lemma_uvar_shape((current / 128) as nat);
        }
        current = current / 128;
        count = count + 1;
    }
    count
}

/// Returns the canonical varint encoding of `value`.
pub fn encode_uvar(value: u64) -> (r: Vec<u8>)
    ensures
        r@ == uvar_bytes(value as nat),
{
    let mut out: Vec<u8> = Vec::new();
    let mut current = value;
    while current >= 128
        invariant
            out@ + uvar_bytes(current as nat) == uvar_bytes(value as nat),
        decreases current,
    {
        out.push((current % 128 + 128) as u8);
        current = current / 128;
    }
    out.push(current as u8);
    assert(out@ =~= uvar_bytes(value as nat));
    out
}

// ---------------------------------------------------------------------------
// Reading.
// ---------------------------------------------------------------------------

/// Reading a length prefix bounded by `maximum` from the front of `s`: the
/// length and the bytes its varint used.
pub open spec fn read_len_spec(s: Seq<u8>, maximum: usize) -> Result<(usize, nat), PackFault> {
    match read_uvar_spec(s) {
        Err(code) => Err(PackFault::Scb(code)),
        Ok((v, n)) => if v > usize::MAX {
            Err(PackFault::Scb(ScbErrorCode::LengthOverflow))
        } else if v > maximum {
            Err(PackFault::Pack(PackErrorCode::ResourceLimit))
        } else {
            Ok((v as usize, n))
        },
    }
}

/// Reading one length-prefixed byte string (lengths up to `MAX_PACK_BYTES`)
/// from the front of `s`: its bytes and the bytes consumed.
pub open spec fn read_bytes_spec(s: Seq<u8>) -> Result<(Seq<u8>, nat), PackFault> {
    match read_len_spec(s, MAX_PACK_BYTES) {
        Err(f) => Err(f),
        Ok((len, n)) => if n + len > s.len() {
            Err(PackFault::Scb(ScbErrorCode::LengthOverflow))
        } else {
            Ok((s.subrange(n as int, n + len), (n + len) as nat))
        },
    }
}

/// A forward-only cursor over one input buffer.
pub struct Reader<'a> {
    input: &'a [u8],
    offset: usize,
}

impl<'a> Reader<'a> {
    /// The whole buffer.
    pub closed spec fn data(&self) -> Seq<u8> {
        self.input@
    }

    /// The cursor position.
    pub closed spec fn pos(&self) -> int {
        self.offset as int
    }

    /// The cursor lies within the buffer.
    pub open spec fn wf(&self) -> bool {
        0 <= self.pos() <= self.data().len()
    }

    /// The bytes not yet read.
    pub open spec fn rest(&self) -> Seq<u8> {
        self.data().skip(self.pos())
    }

    /// A cursor at the start of `input`.
    pub fn new(input: &'a [u8]) -> (r: Self)
        ensures
            r.data() == input@,
            r.pos() == 0,
            r.wf(),
            r.rest() == input@,
    {
        let r = Reader { input, offset: 0 };
        assert(r.rest() =~= input@);
        r
    }

    /// Number of bytes not yet read.
    pub fn remaining(&self) -> (r: usize)
        requires
            self.wf(),
        ensures
            r == self.rest().len(),
    {
        self.input.len() - self.offset
    }

    /// Whether every byte has been read.
    pub fn is_finished(&self) -> (r: bool)
        requires
            self.wf(),
        ensures
            r == (self.rest().len() == 0),
    {
        self.offset == self.input.len()
    }

    /// Reads exactly `count` bytes.
    pub fn take_exact(&mut self, count: usize) -> (r: Result<Vec<u8>, PackError>)
        requires
            old(self).wf(),
        ensures
            final(self).wf(),
            final(self).data() == old(self).data(),
            count <= old(self).rest().len() ==> r is Ok && r->Ok_0@ == old(self).rest().take(
                count as int,
            ) && final(self).pos() == old(self).pos() + count,
            count > old(self).rest().len() ==> r is Err && r->Err_0@ == PackFault::Scb(
                ScbErrorCode::LengthOverflow,
            ),
    {
        if count > self.input.len() - self.offset {
            return Err(PackError::upstream(ScbErrorCode::LengthOverflow));
        }
        let end = self.offset + count;
        let bytes = copy_range(self.input, self.offset, end);
        assert(bytes@ =~= self.rest().take(count as int));
        self.offset = end;
        Ok(bytes)
    }

    /// Reads one 32-byte identity.
    pub fn take_array(&mut self) -> (r: Result<[u8; 32], PackError>)
        requires
            old(self).wf(),
        ensures
            final(self).wf(),
            final(self).data() == old(self).data(),
            32 <= old(self).rest().len() ==> r is Ok && r->Ok_0@ == old(self).rest().take(32)
                && final(self).pos() == old(self).pos() + 32,
            32 > old(self).rest().len() ==> r is Err && r->Err_0@ == PackFault::Scb(
                ScbErrorCode::LengthOverflow,
            ),
    {
        let bytes = self.take_exact(32)?;
        Ok(exact_array(&bytes).unwrap())
    }

    /// Reads one varint.
    pub fn read_uvar(&mut self) -> (r: Result<u64, PackError>)
        requires
            old(self).wf(),
        ensures
            final(self).wf(),
            final(self).data() == old(self).data(),
            match read_uvar_spec(old(self).rest()) {
                Ok((v, n)) => r == Ok::<u64, PackError>(v) && final(self).pos() == old(self).pos()
                    + n,
                Err(code) => r is Err && r->Err_0@ == PackFault::Scb(code),
            },
    {
        let ghost s = self.rest();
        let start = self.offset;
        let mut value: u64 = 0;
        let mut scale: u64 = 1;
        let mut k: usize = 0;
        proof {
            assert(s.take(0) =~= Seq::<u8>::empty());
            assert(pow128(0) == 1);
        }
        while k < 10
            invariant
                self.data() == old(self).data(),
                s == old(self).rest(),
                old(self).wf(),
                start == old(self).pos(),
                self.pos() == start + k,
                k <= 9,
                k <= s.len(),
                scale == pow128(k as nat),
                forall|i: int| 0 <= i < k ==> s[i] >= 128,
                value == le_value(s.take(k as int)),
            decreases 10 - k,
        {
            if self.offset >= self.input.len() {
                proof {
                    lemma_lead_count(s, k as nat);
                }
                return Err(PackError::upstream(ScbErrorCode::LengthOverflow));
            }
            let byte = self.input[self.offset];
            assert(byte == s[k as int]);
            self.offset = self.offset + 1;
            if k == 9 && byte > 1 {
                proof {
                    lemma_lead_count(s, 9);
                }
                return Err(PackError::upstream(ScbErrorCode::IntegerOverflow));
            }
            let digit: u64 = if byte >= 128 {
                (byte - 128) as u64
            } else {
                byte as u64
            };
            proof {
                lemma_le_value_bound(s.take(k as int));
                lemma_le_value_take(s, k as nat);
                lemma_pow128_nine();
                lemma_pow128_monotone(k as nat, 9);
                if k < 9 {
                    lemma_pow128_monotone((k + 1) as nat, 9);
                    assert(pow128((k + 1) as nat) == 128 * pow128(k as nat));
                    assert(value + digit * scale < 128 * scale) by (nonlinear_arith)
                        requires
                            value < scale,
                            digit <= 127,
                    ;
                } else {
                    assert(value + digit * scale < 0x1_0000_0000_0000_0000) by (nonlinear_arith)
                        requires
                            value < scale,
                            digit <= 1,
                            scale == 0x8000_0000_0000_0000,
                    ;
                }
            }
            value = value + digit * scale;
            if byte < 128 {
                proof {
                    lemma_lead_count(s, k as nat);
                }
                let used = uvar_len(value);
                if k + 1 != used {
                    return Err(PackError::upstream(ScbErrorCode::VarintNonMinimal));
                }
                return Ok(value);
            }
            proof {
                assert(k < 9);
                assert(pow128((k + 1) as nat) == 128 * pow128(k as nat));
                lemma_pow128_monotone((k + 1) as nat, 9);
            }
            k = k + 1;
            scale = scale * 128;
        }
        Err(PackError::upstream(ScbErrorCode::IntegerOverflow))
    }

    /// Reads a varint length no greater than `maximum`.
    pub fn read_len(&mut self, maximum: usize) -> (r: Result<usize, PackError>)
        requires
            old(self).wf(),
        ensures
            final(self).wf(),
            final(self).data() == old(self).data(),
            match read_len_spec(old(self).rest(), maximum) {
                Ok((v, n)) => r == Ok::<usize, PackError>(v) && final(self).pos() == old(
                    self,
                ).pos() + n,
                Err(f) => r is Err && r->Err_0@ == f,
            },
    {
        let value = self.read_uvar()?;
        if value > usize::MAX as u64 {
            return Err(PackError::upstream(ScbErrorCode::LengthOverflow));
        }
        let value = value as usize;
        if value > maximum {
            return Err(PackError::pack(PackErrorCode::ResourceLimit));
        }
        Ok(value)
    }

    /// Reads one length-prefixed byte string of at most `MAX_PACK_BYTES` bytes.
    pub fn read_bytes(&mut self) -> (r: Result<Vec<u8>, PackError>)
        requires
            old(self).wf(),
        ensures
            final(self).wf(),
            final(self).data() == old(self).data(),
            match read_bytes_spec(old(self).rest()) {
                Ok((v, n)) => r is Ok && r->Ok_0@ == v && final(self).pos() == old(self).pos()
                    + n,
                Err(f) => r is Err && r->Err_0@ == f,
            },
    {
        let ghost s = self.rest();
        let len = self.read_len(MAX_PACK_BYTES)?;
        let ghost mid = self.rest();
        proof {
            if let Ok((l, n)) = read_len_spec(s, MAX_PACK_BYTES) {
                assert(mid =~= s.skip(n as int));
            }
        }
        let bytes = self.take_exact(len)?;
        proof {
            if let Ok((l, n)) = read_len_spec(s, MAX_PACK_BYTES) {
                assert(bytes@ =~= s.subrange(n as int, n + l));
            }
        }
        Ok(bytes)
    }
}

/// Converts exactly 32 bytes into an identity array.
pub fn exact_array(input: &[u8]) -> (r: Result<[u8; 32], PackError>)
    ensures
        input@.len() == 32 ==> r is Ok && r->Ok_0@ == input@,
        input@.len() != 32 ==> r is Err && r->Err_0@ == PackFault::Scb(
            ScbErrorCode::LengthOverflow,
        ),
{
    if input.len() != 32 {
        return Err(PackError::upstream(ScbErrorCode::LengthOverflow));
    }
    let mut out = [0u8; 32];
    let mut i: usize = 0;
    while i < 32
        invariant
            i <= 32,
            input@.len() == 32,
            forall|j: int| 0 <= j < i ==> out@[j] == input@[j],
        decreases 32 - i,
    {
        out[i] = input[i];
        i = i + 1;
    }
    assert(out@ =~= input@);
    Ok(out)
}

// ---------------------------------------------------------------------------
// Records and lists.
// ---------------------------------------------------------------------------

/// Largest field count a record header may declare.
pub const MAX_RECORD_FIELDS: u64 = 65_535;

/// Reading one varint that must fill `s` exactly.
pub open spec fn single_uvar_spec(s: Seq<u8>) -> Result<u64, PackFault> {
    match read_uvar_spec(s) {
        Err(code) => Err(PackFault::Scb(code)),
        Ok((v, n)) => if n == s.len() {
            Ok(v)
        } else {
            Err(PackFault::Scb(ScbErrorCode::TrailingBytes))
        },
    }
}

/// Reading the field tagged `expected` from the front of `s`, given the
/// fields still declared and the previous tag: its bytes and the bytes
/// consumed.
pub open spec fn required_spec(s: Seq<u8>, left: u64, previous: Option<u64>, expected: u64) -> Result<
    (Seq<u8>, nat),
    PackFault,
> {
    if left == 0 {
        Err(PackFault::Scb(ScbErrorCode::FieldMissing))
    } else {
        match read_uvar_spec(s) {
            Err(code) => Err(PackFault::Scb(code)),
            Ok((tag, n)) => if previous is Some && tag <= previous->0 {
                Err(
                    PackFault::Scb(
                        if previous->0 == tag {
                            ScbErrorCode::FieldDuplicate
                        } else {
                            ScbErrorCode::FieldOrder
                        },
                    ),
                )
            } else if tag != expected {
                Err(
                    PackFault::Scb(
                        if tag > expected {
                            ScbErrorCode::FieldMissing
                        } else {
                            ScbErrorCode::FieldUnknown
                        },
                    ),
                )
            } else {
                match read_bytes_spec(s.skip(n as int)) {
                    Err(f) => Err(f),
                    Ok((v, m)) => Ok((v, n + m)),
                }
            },
        }
    }
}

/// Reading the header of a record: the declared field count and the bytes
/// its varint used.
pub open spec fn record_header_spec(s: Seq<u8>) -> Result<(u64, nat), PackFault> {
    match read_uvar_spec(s) {
        Err(code) => Err(PackFault::Scb(code)),
        Ok((count, n)) => if count > MAX_RECORD_FIELDS {
            Err(PackFault::Pack(PackErrorCode::ResourceLimit))
        } else {
            Ok((count, n))
        },
    }
}

/// Reading `k` consecutive fields tagged `first`, `first + 1`, ...
pub open spec fn record_fields_spec(
    s: Seq<u8>,
    left: u64,
    previous: Option<u64>,
    first: u64,
    k: nat,
) -> Result<(Seq<Seq<u8>>, nat), PackFault>
    decreases k,
{
    if k == 0 {
        Ok((Seq::empty(), 0))
    } else {
        match required_spec(s, left, previous, first) {
            Err(f) => Err(f),
            Ok((v, m)) => if first == u64::MAX {
                Ok((seq![v], m))
            } else {
                match record_fields_spec(
                    s.skip(m as int),
                    (left - 1) as u64,
                    Some(first),
                    (first + 1) as u64,
                    (k - 1) as nat,
                ) {
                    Err(f) => Err(f),
                    Ok((vs, m2)) => Ok((seq![v] + vs, m + m2)),
                }
            },
        }
    }
}

/// Reading a whole record whose fields are tagged `1..=n`, in order, with
/// nothing after it.
pub open spec fn read_record_spec(s: Seq<u8>, n: nat) -> Result<Seq<Seq<u8>>, PackFault> {
    match record_header_spec(s) {
        Err(f) => Err(f),
        Ok((count, h)) => match record_fields_spec(s.skip(h as int), count, None, 1, n) {
            Err(f) => Err(f),
            Ok((vs, m)) => if count != n {
                Err(PackFault::Scb(ScbErrorCode::FieldUnknown))
            } else if h + m != s.len() {
                Err(PackFault::Scb(ScbErrorCode::TrailingBytes))
            } else {
                Ok(vs)
            },
        },
    }
}

/// Reading `k` consecutive length-prefixed elements.
pub open spec fn list_items_spec(s: Seq<u8>, k: nat) -> Result<(Seq<Seq<u8>>, nat), PackFault>
    decreases k,
{
    if k == 0 {
        Ok((Seq::empty(), 0))
    } else {
        match read_bytes_spec(s) {
            Err(f) => Err(f),
            Ok((v, m)) => match list_items_spec(s.skip(m as int), (k - 1) as nat) {
                Err(f) => Err(f),
                Ok((vs, m2)) => Ok((seq![v] + vs, m + m2)),
            },
        }
    }
}

/// Reading a whole list of at most `maximum` elements with nothing after it.
pub open spec fn decode_list_spec(s: Seq<u8>, maximum: usize) -> Result<Seq<Seq<u8>>, PackFault> {
    match read_uvar_spec(s) {
        Err(code) => Err(PackFault::Scb(code)),
        Ok((count, n)) => if count > usize::MAX || count > maximum || count > s.len() - n {
            Err(PackFault::Pack(PackErrorCode::ResourceLimit))
        } else {
            match list_items_spec(s.skip(n as int), count as nat) {
                Err(f) => Err(f),
                Ok((vs, m)) => if n + m != s.len() {
                    Err(PackFault::Scb(ScbErrorCode::TrailingBytes))
                } else {
                    Ok(vs)
                },
            }
        },
    }
}

/// A record cursor: the bytes not yet read, the fields still declared and
/// the tag of the last field read.
pub type Cursor = (Seq<u8>, u64, Option<u64>);

/// Opening a record: the cursor after its field-count header.
pub open spec fn record_start(s: Seq<u8>) -> Result<Cursor, PackFault> {
    match record_header_spec(s) {
        Err(f) => Err(f),
        Ok((count, h)) => Ok((s.skip(h as int), count, None)),
    }
}

/// Reading the field tagged `expected` at cursor `c`: its bytes and the
/// cursor after it.
pub open spec fn field_step(c: Cursor, expected: u64) -> Result<(Seq<u8>, Cursor), PackFault> {
    match required_spec(c.0, c.1, c.2, expected) {
        Err(f) => Err(f),
        Ok((v, n)) => Ok((v, (c.0.skip(n as int), (c.1 - 1) as u64, Some(expected)))),
    }
}

/// Closing a record at cursor `c`: every declared field read, nothing left.
pub open spec fn finish_spec(c: Cursor) -> Result<(), PackFault> {
    if c.1 != 0 {
        Err(PackFault::Scb(ScbErrorCode::FieldUnknown))
    } else if c.0.len() != 0 {
        Err(PackFault::Scb(ScbErrorCode::TrailingBytes))
    } else {
        Ok(())
    }
}

/// A cursor over the fields of one record.
pub struct RecordReader<'a> {
    reader: Reader<'a>,
    remaining: u64,
    previous_tag: Option<u64>,
}

impl<'a> RecordReader<'a> {
    /// The bytes not yet read.
    pub closed spec fn rest(&self) -> Seq<u8> {
        self.reader.rest()
    }

    /// Fields the header declared that are not yet read.
    pub closed spec fn fields_left(&self) -> u64 {
        self.remaining
    }

    /// Tag of the last field read.
    pub closed spec fn previous(&self) -> Option<u64> {
        self.previous_tag
    }

    /// The cursor state.
    pub open spec fn cursor(&self) -> Cursor {
        (self.rest(), self.fields_left(), self.previous())
    }

    /// The cursor is well formed.
    pub closed spec fn wf(&self) -> bool {
        self.reader.wf()
    }

    /// Reads the field-count header of `input`.
    pub fn new(input: &'a [u8]) -> (r: Result<Self, PackError>)
        ensures
            match record_header_spec(input@) {
                Ok((count, h)) => r is Ok && r->Ok_0.wf() && r->Ok_0.rest() == input@.skip(
                    h as int,
                ) && r->Ok_0.fields_left() == count && r->Ok_0.previous() == None::<u64>,
                Err(f) => r is Err && r->Err_0@ == f,
            },
    {
        let mut reader = Reader::new(input);
        let remaining = reader.read_uvar()?;
        if remaining > MAX_RECORD_FIELDS {
            return Err(PackError::pack(PackErrorCode::ResourceLimit));
        }
        Ok(RecordReader { reader, remaining, previous_tag: None })
    }

    /// Reads the field that must carry tag `expected`.
    pub fn required(&mut self, expected: u64) -> (r: Result<Vec<u8>, PackError>)
        requires
            old(self).wf(),
        ensures
            final(self).wf(),
            match required_spec(
                old(self).rest(),
                old(self).fields_left(),
                old(self).previous(),
                expected,
            ) {
                Ok((v, n)) => r is Ok && r->Ok_0@ == v && final(self).rest() == old(
                    self,
                ).rest().skip(n as int) && final(self).fields_left() == old(self).fields_left()
                    - 1 && final(self).previous() == Some(expected),
                Err(f) => r is Err && r->Err_0@ == f,
            },
    {
        let ghost s = self.rest();
        if self.remaining == 0 {
            return Err(PackError::upstream(ScbErrorCode::FieldMissing));
        }
        let tag = self.reader.read_uvar()?;
        let ghost mid = self.reader.rest();
        proof {
            if let Ok((t, n)) = read_uvar_spec(s) {
                assert(mid =~= s.skip(n as int));
            }
        }
        if let Some(previous) = self.previous_tag {
            if tag <= previous {
                if previous == tag {
                    return Err(PackError::upstream(ScbErrorCode::FieldDuplicate));
                } else {
                    return Err(PackError::upstream(ScbErrorCode::FieldOrder));
                }
            }
        }
        if tag != expected {
            if tag > expected {
                return Err(PackError::upstream(ScbErrorCode::FieldMissing));
            } else {
                return Err(PackError::upstream(ScbErrorCode::FieldUnknown));
            }
        }
        let value = self.reader.read_bytes()?;
        proof {
            if let Ok((t, n)) = read_uvar_spec(s) {
                if let Ok((v, m)) = read_bytes_spec(s.skip(n as int)) {
                    assert(self.reader.rest() =~= s.skip((n + m) as int));
                }
            }
        }
        self.previous_tag = Some(tag);
        self.remaining = self.remaining - 1;
        Ok(value)
    }

    /// Requires that every declared field was read and nothing follows.
    pub fn finish(self) -> (r: Result<(), PackError>)
        requires
            self.wf(),
        ensures
            self.fields_left() != 0 ==> r is Err && r->Err_0@ == PackFault::Scb(
                ScbErrorCode::FieldUnknown,
            ),
            self.fields_left() == 0 && self.rest().len() != 0 ==> r is Err && r->Err_0@
                == PackFault::Scb(ScbErrorCode::TrailingBytes),
            self.fields_left() == 0 && self.rest().len() == 0 ==> r is Ok,
    {
        if self.remaining != 0 {
            return Err(PackError::upstream(ScbErrorCode::FieldUnknown));
        }
        if !self.reader.is_finished() {
            return Err(PackError::upstream(ScbErrorCode::TrailingBytes));
        }
        Ok(())
    }
}

/// Reads one varint that fills `input` exactly.
pub fn read_single_uvar(input: &[u8]) -> (r: Result<u64, PackError>)
    ensures
        match single_uvar_spec(input@) {
            Ok(v) => r == Ok::<u64, PackError>(v),
            Err(f) => r is Err && r->Err_0@ == f,
        },
{
    let mut reader = Reader::new(input);
    let value = reader.read_uvar()?;
    if !reader.is_finished() {
        return Err(PackError::upstream(ScbErrorCode::TrailingBytes));
    }
    Ok(value)
}

/// Decoding `start` as `total` items is consistent with having decoded
/// `done` from its first `consumed` bytes and `k` items still to come in `cur`.
pub open spec fn list_progress(
    start: Seq<u8>,
    total: nat,
    done: Seq<Seq<u8>>,
    consumed: nat,
    cur: Seq<u8>,
    k: nat,
) -> bool {
    match list_items_spec(cur, k) {
        Ok((vs, m)) => list_items_spec(start, total) == Ok::<(Seq<Seq<u8>>, nat), PackFault>(
            (done + vs, consumed + m),
        ),
        Err(f) => list_items_spec(start, total) == Err::<(Seq<Seq<u8>>, nat), PackFault>(f),
    }
}

proof fn lemma_list_progress_step(
    start: Seq<u8>,
    total: nat,
    done: Seq<Seq<u8>>,
    consumed: nat,
    cur: Seq<u8>,
    k: nat,
)
    requires
        list_progress(start, total, done, consumed, cur, k),
        k > 0,
    ensures
        match read_bytes_spec(cur) {
            Ok((v, m)) => list_progress(
                start,
                total,
                done.push(v),
                consumed + m,
                cur.skip(m as int),
                (k - 1) as nat,
            ),
            Err(f) => list_items_spec(start, total) == Err::<(Seq<Seq<u8>>, nat), PackFault>(f),
        },
{
    if let Ok((v, m)) = read_bytes_spec(cur) {
        match list_items_spec(cur.skip(m as int), (k - 1) as nat) {
            Ok((vs, m2)) => {
                assert(done + (seq![v] + vs) =~= done.push(v) + vs);
            },
            Err(f) => {},
        }
    }
}

/// Decodes a list of at most `maximum` length-prefixed elements.
pub fn decode_list(input: &[u8], maximum: usize) -> (r: Result<Vec<Vec<u8>>, PackError>)
    ensures
        match decode_list_spec(input@, maximum) {
            Ok(vs) => r is Ok && r->Ok_0.deep_view() == vs && vs.len() <= maximum,
            Err(f) => r is Err && r->Err_0@ == f,
        },
{
    let mut reader = Reader::new(input);
    let count = reader.read_uvar()?;
    let ghost n = (input@.len() - reader.rest().len()) as nat;
    if count > usize::MAX as u64 {
        return Err(PackError::pack(PackErrorCode::ResourceLimit));
    }
    let count = count as usize;
    if count > maximum || count > reader.remaining() {
        return Err(PackError::pack(PackErrorCode::ResourceLimit));
    }
    let ghost start = reader.rest();
    proof {
        assert(start =~= input@.skip(n as int));
        assert(out_empty_progress(start, count as nat));
    }
    let mut out: Vec<Vec<u8>> = Vec::new();
    let mut i: usize = 0;
    let ghost consumed: nat = 0;
    proof {
        assert(out.deep_view() =~= Seq::<Seq<u8>>::empty());
        assert(start.skip(0) =~= start);
    }
    while i < count
        invariant
            reader.wf(),
            reader.data() == input@,
            i <= count,
            out@.len() == i,
            start == input@.skip(n as int),
            reader.rest() == start.skip(consumed as int),
            consumed <= start.len(),
            read_uvar_spec(input@) == Ok::<(u64, nat), ScbErrorCode>((count as u64, n)),
            count <= maximum,
            count <= start.len(),
            n <= input@.len(),
            list_progress(
                start,
                count as nat,
                out.deep_view(),
                consumed,
                reader.rest(),
                (count - i) as nat,
            ),
        decreases count - i,
    {
        let ghost before = reader.rest();
        proof {
            lemma_list_progress_step(
                start,
                count as nat,
                out.deep_view(),
                consumed,
                before,
                (count - i) as nat,
            );
        }
        let element = reader.read_bytes()?;
        let ghost old_view = out.deep_view();
        let ghost element_view = element.deep_view();
        out.push(element);
        proof {
            let (v, m) = read_bytes_spec(before)->Ok_0;
            assert(reader.rest() =~= before.skip(m as int));
            assert(before.skip(m as int) =~= start.skip((consumed + m) as int));
            assert(element_view =~= v);
            assert(out.deep_view() =~= old_view.push(v));
            consumed = consumed + m;
        }
        i = i + 1;
    }
    proof {
        assert(list_items_spec(reader.rest(), 0) == Ok::<(Seq<Seq<u8>>, nat), PackFault>(
            (Seq::empty(), 0),
        ));
        assert(out.deep_view() + Seq::<Seq<u8>>::empty() =~= out.deep_view());
    }
    if !reader.is_finished() {
        return Err(PackError::upstream(ScbErrorCode::TrailingBytes));
    }
    Ok(out)
}

spec fn out_empty_progress(start: Seq<u8>, total: nat) -> bool {
    list_progress(start, total, Seq::empty(), 0, start, total)
}

/// Decoding `start` as `total` fields from `1` is consistent with having
/// read `done` from its first `consumed` bytes, the cursor now at `cur`
/// with `left` fields declared, `previous` last and `k` fields from `next`.
pub open spec fn record_progress(
    start: Seq<u8>,
    count: u64,
    total: nat,
    done: Seq<Seq<u8>>,
    consumed: nat,
    cur: Seq<u8>,
    left: u64,
    previous: Option<u64>,
    next: u64,
    k: nat,
) -> bool {
    match record_fields_spec(cur, left, previous, next, k) {
        Ok((vs, m)) => record_fields_spec(start, count, None, 1, total) == Ok::<
            (Seq<Seq<u8>>, nat),
            PackFault,
        >((done + vs, consumed + m)),
        Err(f) => record_fields_spec(start, count, None, 1, total) == Err::<
            (Seq<Seq<u8>>, nat),
            PackFault,
        >(f),
    }
}

proof fn lemma_record_progress_step(
    start: Seq<u8>,
    count: u64,
    total: nat,
    done: Seq<Seq<u8>>,
    consumed: nat,
    cur: Seq<u8>,
    left: u64,
    previous: Option<u64>,
    next: u64,
    k: nat,
)
    requires
        record_progress(start, count, total, done, consumed, cur, left, previous, next, k),
        k > 0,
        next < u64::MAX,
    ensures
        match required_spec(cur, left, previous, next) {
            Ok((v, m)) => left > 0 && record_progress(
                start,
                count,
                total,
                done.push(v),
                consumed + m,
                cur.skip(m as int),
                (left - 1) as u64,
                Some(next),
                (next + 1) as u64,
                (k - 1) as nat,
            ),
            Err(f) => record_fields_spec(start, count, None, 1, total) == Err::<
                (Seq<Seq<u8>>, nat),
                PackFault,
            >(f),
        },
{
    if let Ok((v, m)) = required_spec(cur, left, previous, next) {
        match record_fields_spec(
            cur.skip(m as int),
            (left - 1) as u64,
            Some(next),
            (next + 1) as u64,
            (k - 1) as nat,
        ) {
            Ok((vs, m2)) => {
                assert(done + (seq![v] + vs) =~= done.push(v) + vs);
            },
            Err(f) => {},
        }
    }
}

proof fn lemma_required_consumes(s: Seq<u8>, left: u64, previous: Option<u64>, expected: u64)
    ensures
        required_spec(s, left, previous, expected) matches Ok((v, m)) ==> m <= s.len(),
{
    if let Ok((tag, n)) = read_uvar_spec(s) {
        lemma_uvar_canonical(s);
    }
}

/// Reads a whole record whose fields are tagged `1..=n`, in order, with
/// nothing after it.
pub fn read_record(input: &[u8], n: u64) -> (r: Result<Vec<Vec<u8>>, PackError>)
    requires
        n <= MAX_RECORD_FIELDS,
    ensures
        match read_record_spec(input@, n as nat) {
            Ok(vs) => r is Ok && r->Ok_0.deep_view() == vs && vs.len() == n,
            Err(f) => r is Err && r->Err_0@ == f,
        },
{
    let mut record = RecordReader::new(input)?;
    let ghost count = record.fields_left();
    let ghost start = record.rest();
    let ghost h = (input@.len() - start.len()) as nat;
    proof {
        lemma_uvar_canonical(input@);
        assert(start =~= input@.skip(h as int));
        assert(start.skip(0) =~= start);
    }
    let mut out: Vec<Vec<u8>> = Vec::new();
    let ghost consumed: nat = 0;
    let mut i: u64 = 0;
    proof {
        assert(out.deep_view() =~= Seq::<Seq<u8>>::empty());
        assert(Seq::<Seq<u8>>::empty() + Seq::<Seq<u8>>::empty() =~= Seq::<Seq<u8>>::empty());
    }
    while i < n
        invariant
            record.wf(),
            i <= n,
            out@.len() == i,
            n <= MAX_RECORD_FIELDS,
            record_header_spec(input@) == Ok::<(u64, nat), PackFault>((count, h)),
            h <= input@.len(),
            start == input@.skip(h as int),
            record.rest() == start.skip(consumed as int),
            consumed <= start.len(),
            record.fields_left() == count - i,
            i <= count || i == 0,
            i == 0 ==> record.previous() == None::<u64>,
            i > 0 ==> record.previous() == Some(i),
            record_progress(
                start,
                count,
                n as nat,
                out.deep_view(),
                consumed,
                record.rest(),
                record.fields_left(),
                record.previous(),
                (i + 1) as u64,
                (n - i) as nat,
            ),
        decreases n - i,
    {
        let ghost before = record.rest();
        proof {
            lemma_record_progress_step(
                start,
                count,
                n as nat,
                out.deep_view(),
                consumed,
                before,
                record.fields_left(),
                record.previous(),
                (i + 1) as u64,
                (n - i) as nat,
            );
            lemma_required_consumes(before, record.fields_left(), record.previous(), (i + 1) as u64);
        }
        let value = record.required(i + 1)?;
        let ghost old_view = out.deep_view();
        let ghost value_view = value.deep_view();
        out.push(value);
        proof {
            let (v, m) = required_spec(
                before,
                (count - i) as u64,
                if i == 0 { None::<u64> } else { Some(i) },
                (i + 1) as u64,
            )->Ok_0;
            assert(value_view =~= v);
            assert(out.deep_view() =~= old_view.push(v));
            assert(before.skip(m as int) =~= start.skip((consumed + m) as int));
            consumed = consumed + m;
        }
        i = i + 1;
    }
    proof {
        assert(out.deep_view() + Seq::<Seq<u8>>::empty() =~= out.deep_view());
    }
    record.finish()?;
    Ok(out)
}

// ---------------------------------------------------------------------------
// Encoding.
// ---------------------------------------------------------------------------

/// A length-prefixed byte string.
pub open spec fn enc_bytes(b: Seq<u8>) -> Seq<u8> {
    uvar_bytes(b.len()) + b
}

/// Consecutive length-prefixed byte strings.
pub open spec fn enc_items(es: Seq<Seq<u8>>) -> Seq<u8>
    decreases es.len(),
{
    if es.len() == 0 {
        Seq::empty()
    } else {
        enc_bytes(es[0]) + enc_items(es.drop_first())
    }
}

/// A list: element count, then each element length-prefixed.
pub open spec fn enc_list(es: Seq<Seq<u8>>) -> Seq<u8> {
    uvar_bytes(es.len()) + enc_items(es)
}

/// Consecutive tagged fields.
pub open spec fn enc_fields(fs: Seq<(u64, Seq<u8>)>) -> Seq<u8>
    decreases fs.len(),
{
    if fs.len() == 0 {
        Seq::empty()
    } else {
        uvar_bytes(fs[0].0 as nat) + enc_bytes(fs[0].1) + enc_fields(fs.drop_first())
    }
}

/// A record: field count, then each field as tag and length-prefixed bytes.
pub open spec fn enc_record(fs: Seq<(u64, Seq<u8>)>) -> Seq<u8> {
    uvar_bytes(fs.len()) + enc_fields(fs)
}

/// A union: variant tag and length-prefixed payload.
pub open spec fn enc_union(tag: u64, payload: Seq<u8>) -> Seq<u8> {
    uvar_bytes(tag as nat) + enc_bytes(payload)
}

/// Appends the canonical varint encoding of `value`.
pub fn push_uvar(out: &mut Vec<u8>, value: u64)
    ensures
        final(out)@ == old(out)@ + uvar_bytes(value as nat),
{
    let enc = encode_uvar(value);
    crate::bytes::append_bytes(out, &enc);
}

/// Appends `value` with its length prefix.
pub fn push_bytes(out: &mut Vec<u8>, value: &[u8])
    ensures
        final(out)@ == old(out)@ + enc_bytes(value@),
{
    push_uvar(out, value.len() as u64);
    crate::bytes::append_bytes(out, value);
    assert(final(out)@ =~= old(out)@ + enc_bytes(value@));
}

/// Returns `value` with its length prefix.
pub fn encode_bytes(value: &[u8]) -> (r: Vec<u8>)
    ensures
        r@ == enc_bytes(value@),
{
    let mut out = Vec::new();
    push_bytes(&mut out, value);
    assert(out@ =~= enc_bytes(value@));
    out
}

/// Encodes a list of byte strings.
pub fn encode_list(elements: &Vec<Vec<u8>>) -> (r: Vec<u8>)
    ensures
        r@ == enc_list(elements.deep_view()),
{
    let mut out = encode_uvar(elements.len() as u64);
    let ghost es = elements.deep_view();
    let mut i: usize = 0;
    assert(es.skip(0) =~= es);
    while i < elements.len()
        invariant
            i <= elements.len(),
            es == elements.deep_view(),
            out@ + enc_items(es.skip(i as int)) == enc_list(es),
        decreases elements.len() - i,
    {
        proof {
            assert(es.skip(i as int).drop_first() =~= es.skip(i + 1));
            assert(es.skip(i as int)[0] == elements[i as int]@);
        }
        push_bytes(&mut out, elements[i].as_slice());
        proof {
            assert(out@ + enc_items(es.skip(i + 1)) =~= enc_list(es));
        }
        i = i + 1;
    }
    proof {
        assert(es.skip(i as int) =~= Seq::<Seq<u8>>::empty());
        assert(out@ =~= enc_list(es));
    }
    out
}

/// Encodes a record from its fields in the given order.
pub fn encode_record(fields: &Vec<(u64, Vec<u8>)>) -> (r: Vec<u8>)
    ensures
        r@ == enc_record(fields.deep_view()),
{
    let mut out = encode_uvar(fields.len() as u64);
    let ghost fs = fields.deep_view();
    let mut i: usize = 0;
    assert(fs.skip(0) =~= fs);
    while i < fields.len()
        invariant
            i <= fields.len(),
            fs == fields.deep_view(),
            out@ + enc_fields(fs.skip(i as int)) == enc_record(fs),
        decreases fields.len() - i,
    {
        proof {
            assert(fs.skip(i as int).drop_first() =~= fs.skip(i + 1));
            assert(fs.skip(i as int)[0] == (fields[i as int].0, fields[i as int].1@));
        }
        push_uvar(&mut out, fields[i].0);
        push_bytes(&mut out, fields[i].1.as_slice());
        proof {
            assert(out@ + enc_fields(fs.skip(i + 1)) =~= enc_record(fs));
        }
        i = i + 1;
    }
    proof {
        assert(fs.skip(i as int) =~= Seq::<(u64, Seq<u8>)>::empty());
        assert(out@ =~= enc_record(fs));
    }
    out
}

/// Encodes a union variant.
pub fn encode_union(tag: u64, payload: &[u8]) -> (r: Vec<u8>)
    ensures
        r@ == enc_union(tag, payload@),
{
    let mut out = encode_uvar(tag);
    push_bytes(&mut out, payload);
    out
}

// ---------------------------------------------------------------------------
// Round trips: every decoder accepts exactly what its encoder produces.
// ---------------------------------------------------------------------------

/// Every element fits the `MAX_PACK_BYTES` length ceiling.
pub open spec fn items_fit(es: Seq<Seq<u8>>) -> bool {
    forall|i: int| 0 <= i < es.len() ==> #[trigger] es[i].len() <= MAX_PACK_BYTES
}

/// The field values of a record, in order.
pub open spec fn field_values(fs: Seq<(u64, Seq<u8>)>) -> Seq<Seq<u8>> {
    fs.map_values(|f: (u64, Seq<u8>)| f.1)
}

/// Fields are tagged `first`, `first + 1`, ... and each value fits.
pub open spec fn fields_numbered(fs: Seq<(u64, Seq<u8>)>, first: u64) -> bool {
    &&& first + fs.len() <= u64::MAX
    &&& forall|i: int| 0 <= i < fs.len() ==> (#[trigger] fs[i]).0 == first + i
    &&& forall|i: int| 0 <= i < fs.len() ==> (#[trigger] fs[i]).1.len() <= MAX_PACK_BYTES
}

/// A length-prefixed string reads back whatever follows it.
pub proof fn lemma_bytes_roundtrip(b: Seq<u8>, rest: Seq<u8>)
    requires
        b.len() <= MAX_PACK_BYTES,
    ensures
        read_bytes_spec(enc_bytes(b) + rest) == Ok::<(Seq<u8>, nat), PackFault>(
            (b, enc_bytes(b).len()),
        ),
{
    let u = uvar_bytes(b.len());
    lemma_uvar_roundtrip(b.len() as u64, b + rest);
    assert(enc_bytes(b) + rest =~= u + (b + rest));
    let s = enc_bytes(b) + rest;
    assert(s.subrange(u.len() as int, (u.len() + b.len()) as int) =~= b);
}

proof fn lemma_items_roundtrip(es: Seq<Seq<u8>>, rest: Seq<u8>)
    requires
        items_fit(es),
    ensures
        list_items_spec(enc_items(es) + rest, es.len()) == Ok::<(Seq<Seq<u8>>, nat), PackFault>(
            (es, enc_items(es).len()),
        ),
        enc_items(es).len() >= es.len(),
    decreases es.len(),
{
    if es.len() == 0 {
        assert(es =~= Seq::<Seq<u8>>::empty());
    } else {
        let t = es.drop_first();
        assert(items_fit(t)) by {
            assert forall|i: int| 0 <= i < t.len() implies #[trigger] t[i].len() <= MAX_PACK_BYTES by {
                assert(t[i] == es[i + 1]);
            }
        }
        lemma_items_roundtrip(t, rest);
        let head = enc_bytes(es[0]);
        assert(enc_items(es) + rest =~= head + (enc_items(t) + rest));
        lemma_bytes_roundtrip(es[0], enc_items(t) + rest);
        assert((enc_items(es) + rest).skip(head.len() as int) =~= enc_items(t) + rest);
        assert(seq![es[0]] + t =~= es);
        lemma_uvar_shape(es[0].len());
    }
}

/// A list decodes back to its elements.
pub proof fn lemma_list_roundtrip(es: Seq<Seq<u8>>, maximum: usize)
    requires
        es.len() <= maximum,
        items_fit(es),
    ensures
        decode_list_spec(enc_list(es), maximum) == Ok::<Seq<Seq<u8>>, PackFault>(es),
{
    let u = uvar_bytes(es.len());
    lemma_uvar_roundtrip(es.len() as u64, enc_items(es));
    lemma_items_roundtrip(es, Seq::empty());
    assert(enc_items(es) + Seq::<u8>::empty() =~= enc_items(es));
    assert(enc_list(es).skip(u.len() as int) =~= enc_items(es));
}

#[verifier::spinoff_prover]
#[verifier::rlimit(40)]
proof fn lemma_fields_roundtrip(
    fs: Seq<(u64, Seq<u8>)>,
    rest: Seq<u8>,
    left: u64,
    previous: Option<u64>,
    first: u64,
)
    requires
        fields_numbered(fs, first),
        left >= fs.len(),
        previous is Some ==> previous->0 < first,
    ensures
        record_fields_spec(enc_fields(fs) + rest, left, previous, first, fs.len()) == Ok::<
            (Seq<Seq<u8>>, nat),
            PackFault,
        >((field_values(fs), enc_fields(fs).len())),
    decreases fs.len(),
{
    if fs.len() == 0 {
        assert(field_values(fs) =~= Seq::<Seq<u8>>::empty());
    } else {
        let t = fs.drop_first();
        let tag = fs[0].0;
        let v = fs[0].1;
        let ut = uvar_bytes(tag as nat);
        let body = enc_bytes(v);
        let s = enc_fields(fs) + rest;
        assert(tag == first);
        assert(s =~= ut + (body + (enc_fields(t) + rest)));
        lemma_uvar_roundtrip(tag, body + (enc_fields(t) + rest));
        assert(s.skip(ut.len() as int) =~= body + (enc_fields(t) + rest));
        lemma_bytes_roundtrip(v, enc_fields(t) + rest);
        assert(s.skip((ut.len() + body.len()) as int) =~= enc_fields(t) + rest);
        assert(fields_numbered(t, (first + 1) as u64)) by {
            assert forall|i: int| 0 <= i < t.len() implies (#[trigger] t[i]).0 == first + 1 + i by {
                assert(t[i] == fs[i + 1]);
            }
            assert forall|i: int| 0 <= i < t.len() implies (#[trigger] t[i]).1.len()
                <= MAX_PACK_BYTES by {
                assert(t[i] == fs[i + 1]);
            }
        }
        lemma_fields_roundtrip(t, rest, (left - 1) as u64, Some(first), (first + 1) as u64);
        assert(seq![v] + field_values(t) =~= field_values(fs));
    }
}

/// A record whose fields are tagged `1..=n` decodes back to its values.
pub proof fn lemma_record_roundtrip(fs: Seq<(u64, Seq<u8>)>)
    requires
        fields_numbered(fs, 1),
        fs.len() <= MAX_RECORD_FIELDS,
    ensures
        read_record_spec(enc_record(fs), fs.len()) == Ok::<Seq<Seq<u8>>, PackFault>(
            field_values(fs),
        ),
{
    let u = uvar_bytes(fs.len());
    lemma_uvar_roundtrip(fs.len() as u64, enc_fields(fs));
    assert(enc_record(fs).skip(u.len() as int) =~= enc_fields(fs) + Seq::<u8>::empty());
    lemma_fields_roundtrip(fs, Seq::empty(), fs.len() as u64, None, 1);
    assert(enc_fields(fs) + Seq::<u8>::empty() =~= enc_fields(fs));
}

/// A varint written alone reads back as a single varint.
pub proof fn lemma_single_uvar_roundtrip(v: u64)
    ensures
        single_uvar_spec(uvar_bytes(v as nat)) == Ok::<u64, PackFault>(v),
{
    lemma_uvar_roundtrip(v, Seq::empty());
    assert(uvar_bytes(v as nat) + Seq::<u8>::empty() =~= uvar_bytes(v as nat));
}

/// Opening an encoded record yields its fields and declared count.
pub proof fn lemma_record_start_enc(fs: Seq<(u64, Seq<u8>)>)
    requires
        fs.len() <= MAX_RECORD_FIELDS,
    ensures
        record_start(enc_record(fs)) == Ok::<Cursor, PackFault>(
            (enc_fields(fs), fs.len() as u64, None),
        ),
{
    let u = uvar_bytes(fs.len());
    lemma_uvar_roundtrip(fs.len() as u64, enc_fields(fs));
    assert(enc_record(fs).skip(u.len() as int) =~= enc_fields(fs));
}

/// Reading the first encoded field at a cursor yields its value and moves
/// past it.
pub proof fn lemma_field_step_enc(
    fs: Seq<(u64, Seq<u8>)>,
    rest: Seq<u8>,
    left: u64,
    previous: Option<u64>,
)
    requires
        fs.len() >= 1,
        fs[0].1.len() <= MAX_PACK_BYTES,
        left >= 1,
        previous is Some ==> previous->0 < fs[0].0,
    ensures
        field_step((enc_fields(fs) + rest, left, previous), fs[0].0) == Ok::<
            (Seq<u8>, Cursor),
            PackFault,
        >((fs[0].1, (enc_fields(fs.drop_first()) + rest, (left - 1) as u64, Some(fs[0].0)))),
{
    let t = fs.drop_first();
    let tag = fs[0].0;
    let v = fs[0].1;
    let ut = uvar_bytes(tag as nat);
    let body = enc_bytes(v);
    let s = enc_fields(fs) + rest;
    assert(s =~= ut + (body + (enc_fields(t) + rest)));
    lemma_uvar_roundtrip(tag, body + (enc_fields(t) + rest));
    assert(s.skip(ut.len() as int) =~= body + (enc_fields(t) + rest));
    lemma_bytes_roundtrip(v, enc_fields(t) + rest);
    assert(s.skip((ut.len() + body.len()) as int) =~= enc_fields(t) + rest);
}

/// Every field value is no longer than the encoded fields.
pub proof fn lemma_enc_fields_len(fs: Seq<(u64, Seq<u8>)>, i: int)
    requires
        0 <= i < fs.len(),
    ensures
        fs[i].1.len() <= enc_fields(fs).len(),
    decreases fs.len(),
{
    if i > 0 {
        lemma_enc_fields_len(fs.drop_first(), i - 1);
    }
}

/// Every element is no longer than the encoded items.
pub proof fn lemma_enc_items_len(es: Seq<Seq<u8>>, i: int)
    requires
        0 <= i < es.len(),
    ensures
        es[i].len() <= enc_items(es).len(),
    decreases es.len(),
{
    if i > 0 {
        lemma_enc_items_len(es.drop_first(), i - 1);
    }
}

/// The empty list reads back as a zero count.
pub proof fn lemma_empty_list_bytes()
    ensures
        enc_list(Seq::<Seq<u8>>::empty()) == uvar_bytes(0),
{
    assert(enc_list(Seq::<Seq<u8>>::empty()) =~= uvar_bytes(0));
}

/// The cursor of an encoded record after its first `k` fields were read.
pub open spec fn cursor_at(fs: Seq<(u64, Seq<u8>)>, k: int) -> Cursor {
    (
        enc_fields(fs.skip(k)),
        (fs.len() - k) as u64,
        if k == 0 {
            None
        } else {
            Some(k as u64)
        },
    )
}

/// Opening a record whose fields are tagged `1..=n` gives the cursor
/// before its first field.
pub proof fn lemma_cursor_start(fs: Seq<(u64, Seq<u8>)>)
    requires
        fs.len() <= MAX_RECORD_FIELDS,
    ensures
        record_start(enc_record(fs)) == Ok::<Cursor, PackFault>(cursor_at(fs, 0)),
{
    lemma_record_start_enc(fs);
    assert(fs.skip(0) =~= fs);
}

/// Reading field `k + 1` of a record whose fields are tagged `1..=n`
/// yields its value and the cursor after it.
pub proof fn lemma_cursor_step(fs: Seq<(u64, Seq<u8>)>, k: int)
    requires
        fields_numbered(fs, 1),
        0 <= k < fs.len(),
    ensures
        field_step(cursor_at(fs, k), (k + 1) as u64) == Ok::<(Seq<u8>, Cursor), PackFault>(
            (fs[k].1, cursor_at(fs, k + 1)),
        ),
{
    let t = fs.skip(k);
    let empty = Seq::<u8>::empty();
    assert(t[0] == fs[k]);
    assert(enc_fields(t) + empty =~= enc_fields(t));
    lemma_field_step_enc(t, empty, (fs.len() - k) as u64, cursor_at(fs, k).2);
    assert(t.drop_first() =~= fs.skip(k + 1));
    assert(enc_fields(t.drop_first()) + empty =~= enc_fields(t.drop_first()));
}

/// Every field of a record read, nothing is left.
pub proof fn lemma_cursor_finish(fs: Seq<(u64, Seq<u8>)>)
    requires
        fs.len() >= 1,
    ensures
        finish_spec(cursor_at(fs, fs.len() as int)) == Ok::<(), PackFault>(()),
{
    assert(fs.skip(fs.len() as int) =~= Seq::<(u64, Seq<u8>)>::empty());
}

} // verus!
