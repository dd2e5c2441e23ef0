//! The wire-level integer codec: variable-length, continuation-bit-encoded
//! 32-bit integers, and the length-prefixed string format built on them.

use vstd::prelude::*;

verus! {

/// Why a decode operation failed.
#[derive(Clone, Copy, Debug, PartialEq, Eq, Structural)]
pub enum DecodeError {
    /// The source ended before the field was fully available.
    TruncatedInput,
    /// A varint continuation-bit sequence would need a sixth byte.
    MalformedVarInt,
    /// A decoded string length was negative.
    MalformedLength,
}

/// The unsigned 32-bit value with the same two's-complement bits as `v`.
pub open spec fn u32_of_i32(v: i32) -> nat {
    if v >= 0 {
        v as nat
    } else {
        (v + 0x1_0000_0000) as nat
    }
}

/// 128 to the power `n`.
pub open spec fn pow128(n: nat) -> nat
    decreases n,
{
    if n == 0 {
        1
    } else {
        128 * pow128((n - 1) as nat)
    }
}

/// The integer denoted by a sequence of varint bytes: each byte contributes
/// its low seven bits, least-significant group first.
pub open spec fn varint_nat(s: Seq<u8>) -> nat
    decreases s.len(),
{
    if s.len() == 0 {
        0
    } else {
        (s[0] % 128) as nat + 128 * varint_nat(s.skip(1))
    }
}

/// The canonical varint encoding of `n`: low seven bits per byte, the high
/// bit set on every byte but the last.
pub open spec fn varint_bytes(n: nat) -> Seq<u8>
    decreases n,
{
    if n < 128 {
        seq![n as u8]
    } else {
        seq![(128 + n % 128) as u8] + varint_bytes(n / 128)
    }
}

/// The index of the terminating byte (high bit clear) of the varint at the
/// head of `s`, scanning from position `i`, or the error decoding stops with:
/// `MalformedVarInt` once a sixth byte would be needed, `TruncatedInput` if
/// the source ends first.
pub open spec fn varint_term(s: Seq<u8>, i: nat) -> Result<nat, DecodeError>
    decreases 5 - i,
{
    if i >= 5 {
        Err(DecodeError::MalformedVarInt)
    } else if i >= s.len() {
        Err(DecodeError::TruncatedInput)
    } else if s[i as int] < 128 {
        Ok(i)
    } else {
        varint_term(s, i + 1)
    }
}

/// What decoding a varint from the head of `s` yields: the two's-complement
/// bits of the value and the number of bytes consumed, or the error.
pub open spec fn spec_decode_varint(s: Seq<u8>) -> Result<(nat, int), DecodeError> {
    match varint_term(s, 0) {
        Ok(t) => Ok((varint_nat(s.take(t as int + 1)) % 0x1_0000_0000, t as int + 1)),
        Err(e) => Err(e),
    }
}

proof fn lemma_varint_nat_bound(s: Seq<u8>)
    ensures
        varint_nat(s) < pow128(s.len()),
    decreases s.len(),
{
    if s.len() == 0 {
    } else {
        lemma_varint_nat_bound(s.skip(1));
        assert(varint_nat(s) < pow128(s.len())) by (nonlinear_arith)
            requires
                varint_nat(s) == (s[0] % 128) as nat + 128 * varint_nat(s.skip(1)),
                varint_nat(s.skip(1)) < pow128(s.skip(1).len()),
                s.skip(1).len() == s.len() - 1,
                pow128(s.len()) == 128 * pow128((s.len() - 1) as nat),
                ((s[0] % 128) as nat) < 128,
        ;
    }
}

proof fn lemma_varint_nat_push(s: Seq<u8>, b: u8)
    ensures
        varint_nat(s.push(b)) == varint_nat(s) + (b % 128) as nat * pow128(s.len()),
    decreases s.len(),
{
    if s.len() == 0 {
        assert(s.push(b) =~= seq![b]);
        assert(seq![b].skip(1) =~= Seq::<u8>::empty());
        assert(varint_nat(Seq::<u8>::empty()) == 0);
        assert(varint_nat(seq![b]) == (b % 128) as nat + 128 * varint_nat(seq![b].skip(1)));
        assert(pow128(0) == 1);
        assert(varint_nat(s) == 0);
    } else {
        lemma_varint_nat_push(s.skip(1), b);
        assert(s.push(b).skip(1) =~= s.skip(1).push(b));
        assert(varint_nat(s.push(b)) == varint_nat(s) + (b % 128) as nat * pow128(s.len()))
            by (nonlinear_arith)
            requires
                varint_nat(s.push(b)) == (s[0] % 128) as nat + 128 * varint_nat(s.skip(1).push(b)),
                varint_nat(s.skip(1).push(b)) == varint_nat(s.skip(1)) + (b % 128) as nat * pow128(
                    (s.len() - 1) as nat,
                ),
                varint_nat(s) == (s[0] % 128) as nat + 128 * varint_nat(s.skip(1)),
                pow128(s.len()) == 128 * pow128((s.len() - 1) as nat),
        ;
    }
}

/// Decodes a varint from the head of `source`, returning the value and the
/// number of bytes consumed.
pub fn decode_varint(source: &[u8]) -> (r: Result<(i32, usize), DecodeError>)
    ensures
        match r {
            Ok(p) => spec_decode_varint(source@) == Ok::<(nat, int), DecodeError>(
                (u32_of_i32(p.0), p.1 as int),
            ) && 1 <= p.1 <= source@.len(),
            Err(e) => spec_decode_varint(source@) == Err::<(nat, int), DecodeError>(e),
        },
{
    let mut acc: u64 = 0;
    let mut mult: u64 = 1;
    let mut i: usize = 0;
    while i < 5
        invariant
            0 <= i <= 5,
            i <= source@.len(),
            mult == pow128(i as nat),
            acc == varint_nat(source@.take(i as int)),
            varint_term(source@, 0) == varint_term(source@, i as nat),
            forall|j: int| 0 <= j < i ==> source@[j] >= 128,
        decreases 5 - i,
    {
        if i >= source.len() {
            assert(varint_term(source@, i as nat) == Err::<nat, DecodeError>(
                DecodeError::TruncatedInput,
            ));
            return Err(DecodeError::TruncatedInput);
        }
        let b = source[i];
        proof {
            lemma_varint_nat_bound(source@.take(i as int));
            assert(pow128((i + 1) as nat) == 128 * pow128(i as nat));
            assert(pow128(0) == 1);
            assert(pow128(1) == 128);
            assert(pow128(2) == 128 * 128);
            assert(pow128(3) == 128 * 128 * 128);
            assert(pow128(4) == 128 * 128 * 128 * 128);
            assert(pow128(5) == 128 * 128 * 128 * 128 * 128);
            assert(acc + (b % 128) as u64 * mult < pow128((i + 1) as nat)) by (nonlinear_arith)
                requires
                    acc < pow128(i as nat),
                    mult == pow128(i as nat),
                    (b % 128) as u64 <= 127,
                    pow128((i + 1) as nat) == 128 * pow128(i as nat),
        ;
            assert(source@.take(i + 1) =~= source@.take(i as int).push(source@[i as int]));
            lemma_varint_nat_push(source@.take(i as int), b);
        }
        acc = acc + (b % 128) as u64 * mult;
        if b < 128 {
            assert(varint_term(source@, i as nat) == Ok::<nat, DecodeError>(i as nat));
            let bits: u32 = (acc % 0x1_0000_0000) as u32;
            let v: i32 = if bits < 0x8000_0000 {
                bits as i32
            } else {
                ((bits - 0x8000_0000) as i32) - 0x7FFF_FFFF - 1
            };
            assert(u32_of_i32(v) == bits as nat);
            return Ok((v, i + 1));
        }
        proof {
            assert(varint_term(source@, i as nat) == varint_term(source@, (i + 1) as nat));
        }
        mult = mult * 128;
        i = i + 1;
    }
    assert(varint_term(source@, 5) == Err::<nat, DecodeError>(DecodeError::MalformedVarInt));
    Err(DecodeError::MalformedVarInt)
}

/// Encodes `v` as a canonical varint, one to five bytes.
pub fn encode_varint(v: i32) -> (r: Vec<u8>)
    ensures
        r@ == varint_bytes(u32_of_i32(v)),
{
    let mut n: u32 = if v >= 0 {
        v as u32
    } else {
        (((v + 0x7FFF_FFFF) + 1) as u32) + 0x8000_0000
    };
    assert(n as nat == u32_of_i32(v));
    let ghost n0: nat = n as nat;
    let mut out: Vec<u8> = Vec::new();
    while n >= 128
        invariant
            varint_bytes(n0) == out@ + varint_bytes(n as nat),
        decreases n,
    {
        let b: u8 = ((n % 128) as u8) + 128;
        proof {
            assert(varint_bytes(n as nat) == seq![b] + varint_bytes((n as nat) / 128));
            assert(out@ + varint_bytes(n as nat) =~= out@.push(b) + varint_bytes((n as nat) / 128));
            assert((n / 128) as nat == (n as nat) / 128);
            assert(n / 128 < n) by (nonlinear_arith)
                requires
                    n >= 128,
            ;
        }
        out.push(b);
        n = n / 128;
    }
    proof {
        assert(varint_bytes(n as nat) =~= seq![n as u8]);
        assert(out@ + varint_bytes(n as nat) =~= out@.push(n as u8));
    }
    out.push(n as u8);
    out
}

/// Shape of a canonical encoding: nonempty, terminated only by its last byte,
/// and denoting exactly the encoded value.
proof fn lemma_varint_bytes_shape(n: nat)
    ensures
        varint_bytes(n).len() >= 1,
        varint_bytes(n)[varint_bytes(n).len() - 1] < 128,
        forall|i: int| 0 <= i < varint_bytes(n).len() - 1 ==> varint_bytes(n)[i] >= 128,
        varint_nat(varint_bytes(n)) == n,
    decreases n,
{
    if n < 128 {
        assert(varint_bytes(n) =~= seq![n as u8]);
        assert(seq![n as u8].skip(1) =~= Seq::<u8>::empty());
        assert(varint_nat(Seq::<u8>::empty()) == 0);
    } else {
        lemma_varint_bytes_shape(n / 128);
        let s = varint_bytes(n);
        let b = (128 + n % 128) as u8;
        assert(s == seq![b] + varint_bytes(n / 128));
        assert(s.skip(1) =~= varint_bytes(n / 128));
        assert(varint_nat(s) == (b % 128) as nat + 128 * varint_nat(s.skip(1)));
        assert((b % 128) as nat == n % 128);
        assert(n % 128 + 128 * (n / 128) == n);
    }
}

/// A value below `pow128(k)` encodes in at most `k` bytes.
proof fn lemma_varint_bytes_len(n: nat, k: nat)
    requires
        n < pow128(k),
        k >= 1,
    ensures
        varint_bytes(n).len() <= k,
    decreases n,
{
    if n < 128 {
    } else {
        assert(pow128(k) == 128 * pow128((k - 1) as nat));
        lemma_pow128_positive((k - 1) as nat);
        if k >= 2 {
            assert(n / 128 < pow128((k - 1) as nat)) by (nonlinear_arith)
                requires
                    n < 128 * pow128((k - 1) as nat),
            ;
            lemma_varint_bytes_len(n / 128, (k - 1) as nat);
        } else {
            // k == 1 cannot happen here: pow128(1) is 128, yet n >= 128.
            assert(pow128(0) == 1);
        }
    }
}

proof fn lemma_pow128_positive(k: nat)
    ensures
        pow128(k) >= 1,
    decreases k,
{
    if k == 0 {
    } else {
        lemma_pow128_positive((k - 1) as nat);
    }
}

/// If every byte before position `t` continues and byte `t` terminates,
/// scanning from any position at or before `t` stops exactly at `t`.
proof fn lemma_varint_term_of_valid(s: Seq<u8>, t: nat, i: nat)
    requires
        t < s.len(),
        t < 5,
        s[t as int] < 128,
        forall|j: int| 0 <= j < t ==> s[j] >= 128,
        i <= t,
    ensures
        varint_term(s, i) == Ok::<nat, DecodeError>(t),
    decreases t - i,
{
    if i < t {
        lemma_varint_term_of_valid(s, t, i + 1);
    }
}

/// Two `i32` values with the same two's-complement bits are equal.
pub proof fn lemma_u32_of_i32_injective(a: i32, b: i32)
    requires
        u32_of_i32(a) == u32_of_i32(b),
    ensures
        a == b,
{
}

/// Law (varint round trip): decoding the canonical encoding of any 32-bit
/// value yields exactly that value back, consuming the whole encoding.
pub proof fn lemma_varint_round_trip(v: i32)
    ensures
        spec_decode_varint(varint_bytes(u32_of_i32(v))) == Ok::<(nat, int), DecodeError>(
            (u32_of_i32(v), varint_bytes(u32_of_i32(v)).len() as int),
        ),
{
    let n = u32_of_i32(v);
    let s = varint_bytes(n);
    lemma_varint_bytes_shape(n);
    assert(pow128(0) == 1);
    assert(pow128(1) == 128);
    assert(pow128(2) == 128 * 128);
    assert(pow128(3) == 128 * 128 * 128);
    assert(pow128(4) == 128 * 128 * 128 * 128);
    assert(pow128(5) == 128 * 128 * 128 * 128 * 128);
    lemma_varint_bytes_len(n, 5);
    lemma_varint_term_of_valid(s, (s.len() - 1) as nat, 0);
    assert(s.take(s.len() as int) =~= s);
    assert(n % 0x1_0000_0000 == n);
}

/// Law (truncation): any strict prefix of a well-formed varint fails to
/// decode with `TruncatedInput`; no partial value comes back.
pub proof fn lemma_varint_truncation(s: Seq<u8>, m: int)
    requires
        spec_decode_varint(s) is Ok,
        0 <= m < spec_decode_varint(s)->Ok_0.1,
    ensures
        spec_decode_varint(s.take(m)) == Err::<(nat, int), DecodeError>(DecodeError::TruncatedInput),
{
    let t = (spec_decode_varint(s)->Ok_0.1 - 1) as nat;
    lemma_varint_term_is_first(s, 0, t);
    lemma_varint_term_truncated(s.take(m), 0);
}

/// A successful varint decode consumes one to five bytes, never more than
/// the source holds.
pub proof fn lemma_varint_consumed_bounds(s: Seq<u8>)
    requires
        spec_decode_varint(s) is Ok,
    ensures
        1 <= spec_decode_varint(s)->Ok_0.1 <= 5,
        spec_decode_varint(s)->Ok_0.1 <= s.len(),
{
    let t = (spec_decode_varint(s)->Ok_0.1 - 1) as nat;
    lemma_varint_term_is_first(s, 0, t);
}

/// A successful string decode consumes at least one byte, never more than
/// the source holds.
pub proof fn lemma_string_consumed_bounds(s: Seq<u8>)
    requires
        spec_decode_string(s) is Ok,
    ensures
        1 <= spec_decode_string(s)->Ok_0.1 <= s.len(),
{
    lemma_varint_consumed_bounds(s);
}

/// Decoding reads nothing past the bytes it consumes: any prefix that still
/// holds them decodes to the same value.
pub proof fn lemma_varint_prefix(s: Seq<u8>, m: int)
    requires
        spec_decode_varint(s) is Ok,
        spec_decode_varint(s)->Ok_0.1 <= m <= s.len(),
    ensures
        spec_decode_varint(s.take(m)) == spec_decode_varint(s),
{
    let t = (spec_decode_varint(s)->Ok_0.1 - 1) as nat;
    lemma_varint_term_is_first(s, 0, t);
    lemma_varint_term_of_valid(s.take(m), t, 0);
    assert(s.take(m).take(t as int + 1) =~= s.take(t as int + 1));
}

/// Law (truncation): any strict prefix of a well-formed length-prefixed
/// string fails to decode with `TruncatedInput`; no partial value comes back.
pub proof fn lemma_string_truncation(s: Seq<u8>, m: int)
    requires
        spec_decode_string(s) is Ok,
        0 <= m < spec_decode_string(s)->Ok_0.1,
    ensures
        spec_decode_string(s.take(m)) == Err::<(Seq<u8>, int), DecodeError>(
            DecodeError::TruncatedInput,
        ),
{
    let p = spec_decode_varint(s)->Ok_0;
    if m < p.1 {
        lemma_varint_truncation(s, m);
    } else {
        lemma_varint_prefix(s, m);
    }
}

/// String decoding reads nothing past the bytes it consumes either.
pub proof fn lemma_string_prefix(s: Seq<u8>, m: int)
    requires
        spec_decode_string(s) is Ok,
        spec_decode_string(s)->Ok_0.1 <= m <= s.len(),
    ensures
        spec_decode_string(s.take(m)) == spec_decode_string(s),
{
    let p = spec_decode_varint(s)->Ok_0;
    lemma_varint_prefix(s, m);
    assert(s.take(m).subrange(p.1, p.1 + p.0 as int) =~= s.subrange(p.1, p.1 + p.0 as int));
}

/// When scanning stops at `t`, every byte before `t` continues.
proof fn lemma_varint_term_is_first(s: Seq<u8>, i: nat, t: nat)
    requires
        varint_term(s, i) == Ok::<nat, DecodeError>(t),
    ensures
        i <= t < s.len(),
        t < 5,
        s[t as int] < 128,
        forall|j: int| i <= j < t ==> s[j] >= 128,
    decreases 5 - i,
{
    if i >= 5 {
    } else if i >= s.len() {
    } else if s[i as int] < 128 {
    } else {
        lemma_varint_term_is_first(s, i + 1, t);
    }
}

/// A short all-continuation source fails as truncated.
proof fn lemma_varint_term_truncated(s: Seq<u8>, i: nat)
    requires
        s.len() < 5,
        forall|j: int| 0 <= j < s.len() ==> s[j] >= 128,
        i <= s.len(),
    ensures
        varint_term(s, i) == Err::<nat, DecodeError>(DecodeError::TruncatedInput),
    decreases 5 - i,
{
    if i < s.len() {
        lemma_varint_term_truncated(s, i + 1);
    }
}

/// What decoding a length-prefixed string from the head of `s` yields: the
/// raw bytes and the total number of bytes consumed, or the error. A varint
/// length with its sign bit set counts as negative and is rejected.
pub open spec fn spec_decode_string(s: Seq<u8>) -> Result<(Seq<u8>, int), DecodeError> {
    match spec_decode_varint(s) {
        Ok(p) => {
            let bits = p.0;
            let n = p.1;
            if bits >= 0x8000_0000 {
                Err(DecodeError::MalformedLength)
            } else if s.len() < n + bits {
                Err(DecodeError::TruncatedInput)
            } else {
                Ok((s.subrange(n, n + bits), n + bits))
            }
        },
        Err(e) => Err(e),
    }
}

} // verus!
