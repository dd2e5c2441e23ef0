//! The modern handshake packet: field-by-field decoding of a fully buffered,
//! length-delimited packet body, and the splitting of the host field into its
//! null-separated segments.

use vstd::prelude::*;

use crate::mc::spec_decode_string;
use crate::mc::spec_decode_varint;
use crate::mc::u32_of_i32;
use crate::mc::DecodeError;
use crate::util::ByteCursor;
use crate::util::ByteRead;
use crate::util::McRead;

verus! {

/// The decoded fields of a modern handshake packet.
#[derive(Debug)]
pub struct HandshakePacket {
    pub packet_id: i32,
    pub protocol_version: i32,
    /// The raw host field: one or more null-separated names.
    pub server_address: Vec<u8>,
    /// Big-endian unsigned 16-bit port.
    pub server_port: u16,
}

/// What parsing a handshake body yields: the two's-complement bits of the
/// packet id and protocol version, the raw host bytes, and the port; or the
/// first field's error. Bytes past the port are ignored.
pub open spec fn spec_parse_handshake(s: Seq<u8>) -> Result<(nat, nat, Seq<u8>, u16), DecodeError> {
    match spec_decode_varint(s) {
        Err(e) => Err(e),
        Ok(p1) => {
            let s1 = s.skip(p1.1);
            match spec_decode_varint(s1) {
                Err(e) => Err(e),
                Ok(p2) => {
                    let s2 = s1.skip(p2.1);
                    match spec_decode_string(s2) {
                        Err(e) => Err(e),
                        Ok(p3) => {
                            let s3 = s2.skip(p3.1);
                            if s3.len() < 2 {
                                Err(DecodeError::TruncatedInput)
                            } else {
                                Ok(
                                    (
                                        p1.0,
                                        p2.0,
                                        p3.0,
                                        (s3[0] as nat * 256 + s3[1] as nat) as u16,
                                    ),
                                )
                            }
                        },
                    }
                },
            }
        },
    }
}

/// Decodes, in order, packet id, protocol version, host field and big-endian
/// port from a fully buffered packet body. Residual bytes are ignored.
pub fn parse_handshake(buffer: Vec<u8>) -> (r: Result<HandshakePacket, DecodeError>)
    ensures
        match r {
            Ok(p) => spec_parse_handshake(buffer@) == Ok::<(nat, nat, Seq<u8>, u16), DecodeError>(
                (
                    u32_of_i32(p.packet_id),
                    u32_of_i32(p.protocol_version),
                    p.server_address@,
                    p.server_port,
                ),
            ),
            Err(e) => spec_parse_handshake(buffer@) == Err::<
                (nat, nat, Seq<u8>, u16),
                DecodeError,
            >(e),
        },
{
    let mut cur = ByteCursor::new(buffer);
    let packet_id = match cur.read_var_int() {
        Ok(v) => v,
        Err(e) => {
            return Err(e);
        },
    };
    let protocol_version = match cur.read_var_int() {
        Ok(v) => v,
        Err(e) => {
            return Err(e);
        },
    };
    let server_address = match cur.read_mc_string() {
        Ok(b) => b,
        Err(e) => {
            return Err(e);
        },
    };
    let hi = match cur.read_byte() {
        Ok(b) => b,
        Err(e) => {
            return Err(e);
        },
    };
    let lo = match cur.read_byte() {
        Ok(b) => b,
        Err(e) => {
            return Err(e);
        },
    };
    let server_port: u16 = (hi as u16) * 256 + (lo as u16);
    Ok(
        HandshakePacket {
            packet_id,
            protocol_version,
            server_address,
            server_port,
        },
    )
}

/// Total bytes a handshake body consumes: both varints, the string field and
/// the two port bytes. Meaningful where the body parses.
pub open spec fn spec_handshake_len(s: Seq<u8>) -> int {
    let n1 = spec_decode_varint(s)->Ok_0.1;
    let n2 = spec_decode_varint(s.skip(n1))->Ok_0.1;
    let n3 = spec_decode_string(s.skip(n1).skip(n2))->Ok_0.1;
    n1 + n2 + n3 + 2
}

/// Law (truncation): a handshake body cut anywhere short of its last needed
/// byte fails to parse with `TruncatedInput`, whichever field the cut lands
/// in, and no partial packet comes back.
pub proof fn lemma_handshake_truncation(s: Seq<u8>, m: int)
    requires
        spec_parse_handshake(s) is Ok,
        0 <= m < spec_handshake_len(s),
    ensures
        spec_parse_handshake(s.take(m)) == Err::<(nat, nat, Seq<u8>, u16), DecodeError>(
            DecodeError::TruncatedInput,
        ),
{
    let n1 = spec_decode_varint(s)->Ok_0.1;
    let s1 = s.skip(n1);
    let n2 = spec_decode_varint(s1)->Ok_0.1;
    let s2 = s1.skip(n2);
    let n3 = spec_decode_string(s2)->Ok_0.1;
    let s3 = s2.skip(n3);
    crate::mc::lemma_varint_consumed_bounds(s);
    crate::mc::lemma_varint_consumed_bounds(s1);
    crate::mc::lemma_string_consumed_bounds(s2);
    if m < n1 {
        crate::mc::lemma_varint_truncation(s, m);
    } else {
        crate::mc::lemma_varint_prefix(s, m);
        assert(s.take(m).skip(n1) =~= s1.take(m - n1));
        if m - n1 < n2 {
            crate::mc::lemma_varint_truncation(s1, m - n1);
        } else {
            crate::mc::lemma_varint_prefix(s1, m - n1);
            assert(s1.take(m - n1).skip(n2) =~= s2.take(m - n1 - n2));
            if m - n1 - n2 < n3 {
                crate::mc::lemma_string_truncation(s2, m - n1 - n2);
            } else {
                crate::mc::lemma_string_prefix(s2, m - n1 - n2);
                assert(s2.take(m - n1 - n2).skip(n3) =~= s3.take(m - n1 - n2 - n3));
                assert(s3.take(m - n1 - n2 - n3).len() < 2);
            }
        }
    }
}

/// Law (residual bytes ignored): a handshake body parses the same however
/// many bytes follow its port field; cutting the body anywhere at or past
/// the last needed byte changes nothing.
pub proof fn lemma_handshake_residual_ignored(s: Seq<u8>, m: int)
    requires
        spec_parse_handshake(s) is Ok,
        spec_handshake_len(s) <= m <= s.len(),
    ensures
        spec_parse_handshake(s.take(m)) == spec_parse_handshake(s),
{
    let n1 = spec_decode_varint(s)->Ok_0.1;
    let s1 = s.skip(n1);
    let n2 = spec_decode_varint(s1)->Ok_0.1;
    let s2 = s1.skip(n2);
    let n3 = spec_decode_string(s2)->Ok_0.1;
    let s3 = s2.skip(n3);
    crate::mc::lemma_varint_consumed_bounds(s);
    crate::mc::lemma_varint_consumed_bounds(s1);
    crate::mc::lemma_string_consumed_bounds(s2);
    crate::mc::lemma_varint_prefix(s, m);
    assert(s.take(m).skip(n1) =~= s1.take(m - n1));
    crate::mc::lemma_varint_prefix(s1, m - n1);
    assert(s1.take(m - n1).skip(n2) =~= s2.take(m - n1 - n2));
    crate::mc::lemma_string_prefix(s2, m - n1 - n2);
    assert(s2.take(m - n1 - n2).skip(n3) =~= s3.take(m - n1 - n2 - n3));
    assert(s3.take(m - n1 - n2 - n3)[0] == s3[0]);
    assert(s3.take(m - n1 - n2 - n3)[1] == s3[1]);
}

/// The index of the first null byte of `s`, or `s.len()` if there is none.
pub open spec fn first_zero(s: Seq<u8>) -> int
    decreases s.len(),
{
    if s.len() == 0 {
        0
    } else if s[0] == 0 {
        0
    } else {
        1 + first_zero(s.skip(1))
    }
}

/// The null-separated segments of a host field, in order: each null byte
/// terminates a segment, and a last unterminated segment is kept as it
/// stands. A trailing null thus adds no empty segment.
pub open spec fn seg_split(s: Seq<u8>) -> Seq<Seq<u8>>
    decreases s.len(),
{
    if s.len() == 0 {
        seq![]
    } else {
        let i = first_zero(s);
        if 0 <= i < s.len() {
            seq![s.take(i)] + seg_split(s.skip(i + 1))
        } else {
            seq![s]
        }
    }
}

proof fn lemma_first_zero_at(s: Seq<u8>, i: int)
    requires
        0 <= i <= s.len(),
        forall|k: int| 0 <= k < i ==> s[k] != 0,
        i < s.len() ==> s[i] == 0,
    ensures
        first_zero(s) == i,
    decreases i,
{
    if s.len() == 0 {
    } else if i == 0 {
    } else {
        lemma_first_zero_at(s.skip(1), i - 1);
    }
}

/// Splits a host field on its null bytes: the first segment is the primary
/// hostname, later ones are auxiliary addon identifiers.
pub fn split_segments(address: &[u8]) -> (r: Vec<Vec<u8>>)
    ensures
        r.deep_view() == seg_split(address@),
{
    let mut segs: Vec<Vec<u8>> = Vec::new();
    let mut pos: usize = 0;
    proof {
        assert(address@.skip(0) =~= address@);
        assert(segs.deep_view() =~= Seq::<Seq<u8>>::empty());
        assert(segs.deep_view() + seg_split(address@) =~= seg_split(address@));
    }
    while pos < address.len()
        invariant
            pos <= address@.len(),
            seg_split(address@) == segs.deep_view() + seg_split(address@.skip(pos as int)),
        decreases address@.len() - pos,
    {
        let ghost rest = address@.skip(pos as int);
        let mut j: usize = pos;
        while j < address.len() && *vstd::slice::slice_index_get(address, j) != 0
            invariant
                pos <= j <= address@.len(),
                forall|k: int| pos <= k < j ==> address@[k] != 0,
            decreases address@.len() - j,
        {
            j = j + 1;
        }
        proof {
            assert forall|k: int| 0 <= k < j - pos implies rest[k] != 0 by {
                assert(rest[k] == address@[pos + k]);
            }
            if j < address@.len() {
                assert(rest[j - pos] == address@[j as int]);
            }
            lemma_first_zero_at(rest, j - pos);
        }
        let piece = vstd::slice::slice_to_vec(vstd::slice::slice_subrange(address, pos, j));
        proof {
            assert(piece@ =~= rest.take(j - pos));
        }
        let ghost prev = segs.deep_view();
        segs.push(piece);
        proof {
            assert(segs.deep_view() =~~= prev.push(piece@));
        }
        if j == address.len() {
            proof {
                assert(rest =~= rest.take(j - pos));
                assert(seg_split(rest) == seq![rest]);
                let ghost tail = seg_split(address@.skip(j as int));
                assert(address@.skip(j as int) =~= Seq::<u8>::empty());
                assert(tail =~= Seq::<Seq<u8>>::empty());
                assert(prev + seq![piece@] =~= prev.push(piece@) + tail);
                assert(seg_split(address@) == segs.deep_view() + tail);
            }
            pos = j;
        } else {
            proof {
                let ghost tail = seg_split(address@.skip(j + 1int));
                assert(rest.skip(j - pos + 1) =~= address@.skip(j + 1int));
                assert(seg_split(rest) == seq![rest.take(j - pos)] + tail);
                assert(prev + (seq![piece@] + tail) =~= prev.push(piece@) + tail);
                assert(seg_split(address@) == segs.deep_view() + tail);
            }
            pos = j + 1;
        }
    }
    proof {
        assert(seg_split(address@.skip(pos as int)) =~= Seq::<Seq<u8>>::empty());
        assert(segs.deep_view() + Seq::<Seq<u8>>::empty() =~= segs.deep_view());
    }
    segs
}

} // verus!
