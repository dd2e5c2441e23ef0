//! One-shot classification of a new connection from its first byte, the
//! relay handoff decision, and the legacy path's diagnostic markers.

use vstd::prelude::*;

verus! {

/// The leading byte that marks a legacy ping probe.
pub const LEGACY_MARKER: u8 = 0xFE;

/// What a connection is, decided once from its first byte and never
/// re-evaluated.
#[derive(Clone, Copy, Debug, PartialEq, Eq, Structural)]
pub enum ConnectionKind {
    Legacy,
    Modern,
}

/// The kind a stream's first byte dictates.
pub open spec fn spec_classify(first_byte: u8) -> ConnectionKind {
    if first_byte == LEGACY_MARKER {
        ConnectionKind::Legacy
    } else {
        ConnectionKind::Modern
    }
}

/// Classifies a connection from its first byte (which the caller peeks
/// without consuming): the marker byte means a legacy ping, anything else a
/// modern framed handshake. Later bytes play no part.
pub fn classify(first_byte: u8) -> (k: ConnectionKind)
    ensures
        k == spec_classify(first_byte),
        (k == ConnectionKind::Legacy <==> first_byte == LEGACY_MARKER),
        (k == ConnectionKind::Modern <==> first_byte != LEGACY_MARKER),
{
    if first_byte == LEGACY_MARKER {
        ConnectionKind::Legacy
    } else {
        ConnectionKind::Modern
    }
}

/// Whether a classified connection goes on to the relay: only modern ones do.
pub open spec fn spec_should_relay(kind: ConnectionKind) -> bool {
    kind == ConnectionKind::Modern
}

/// Decides the relay handoff: a modern connection is forwarded to the
/// backend, a legacy one is drained and dropped without a reply.
pub fn should_relay(kind: ConnectionKind) -> (b: bool)
    ensures
        b == spec_should_relay(kind),
{
    match kind {
        ConnectionKind::Modern => true,
        ConnectionKind::Legacy => false,
    }
}

/// Law (legacy never relays): whatever the rest of the stream holds, a
/// connection whose first byte is the legacy marker is classified legacy,
/// and a legacy connection is never handed to the relay.
pub proof fn lemma_legacy_never_relayed(first_byte: u8)
    ensures
        first_byte == LEGACY_MARKER ==> spec_classify(first_byte) == ConnectionKind::Legacy,
        spec_classify(first_byte) == ConnectionKind::Legacy ==> !spec_should_relay(
            spec_classify(first_byte),
        ),
{
}

/// The most bytes a legacy ping may buffer while being drained; a peer that
/// sends more is cut off with an error rather than growing memory unbounded.
pub const MAX_LEGACY_DRAIN: usize = 65536;

/// The first two bytes of a drained legacy stream, its diagnostic markers;
/// nothing if the stream held fewer than two bytes.
pub fn legacy_markers(buf: &[u8]) -> (r: Option<(u8, u8)>)
    ensures
        match r {
            Some(p) => buf@.len() >= 2 && p.0 == buf@[0] && p.1 == buf@[1],
            None => buf@.len() < 2,
        },
{
    if buf.len() >= 2 {
        Some((*vstd::slice::slice_index_get(buf, 0), *vstd::slice::slice_index_get(buf, 1)))
    } else {
        None
    }
}

} // verus!
