//! [`Event`]: one journal entry, and the fixed little-endian byte layout it takes across the
//! syscall boundary:
//!
//! ```text
//! offset 0  : u64 seq
//! offset 8  : u64 actor
//! offset 16 : u64 detail
//! offset 24 : u32 rights
//! offset 28 : u8  action   (Action::as_u8)
//! offset 29 : u8  kind
//! offset 30 : [u8; 2] zero padding
//! ```

use vstd::prelude::*;
use vstd::bytes::*;
use vstd::slice::slice_subrange;

use crate::audit::action::{Action, action_byte, action_of_byte, action_round_trip};

verus! {

/// The width of an [`Event`]'s encoded form.
pub const ENCODED_EVENT_BYTES: usize = 32;

/// Why encoding or decoding an [`Event`] failed.
#[derive(Debug, Clone, Copy, PartialEq, Eq, Structural)]
pub enum AuditError {
    /// The buffer passed to [`Event::encode`] is smaller than [`ENCODED_EVENT_BYTES`].
    BufferTooSmall,
    /// The input to [`Event::decode`] is shorter than [`ENCODED_EVENT_BYTES`], or its action
    /// byte names no [`Action`].
    Malformed,
}

/// One recorded happening: who did what, to which kind of object, with which rights.
#[derive(Debug, Clone, Copy, PartialEq, Eq, Structural)]
pub struct Event {
    /// Assigned by the journal: strictly increasing, never reused, never zero.
    pub seq: u64,
    /// The thread id that performed the action.
    pub actor: u64,
    pub action: Action,
    /// The object-kind tag of the object concerned.
    pub kind: u8,
    /// The rights bitmask this action granted, checked, or was refused.
    pub rights: u32,
    /// Whatever else the action needs: a handle, an endpoint id, an error code.
    pub detail: u64,
}

/// The 32 bytes `encode` writes for an event.
pub open spec fn event_bytes(e: Event) -> Seq<u8> {
    spec_u64_to_le_bytes(e.seq) + spec_u64_to_le_bytes(e.actor) + spec_u64_to_le_bytes(e.detail)
        + spec_u32_to_le_bytes(e.rights) + seq![action_byte(e.action), e.kind, 0u8, 0u8]
}

/// What `decode` makes of a byte sequence.
pub open spec fn decode_event(b: Seq<u8>) -> Result<Event, AuditError> {
    if b.len() < 32 {
        Err(AuditError::Malformed)
    } else {
        match action_of_byte(b[28]) {
            None => Err(AuditError::Malformed),
            Some(action) => Ok(
                Event {
                    seq: spec_u64_from_le_bytes(b.subrange(0, 8)),
                    actor: spec_u64_from_le_bytes(b.subrange(8, 16)),
                    action,
                    kind: b[29],
                    rights: spec_u32_from_le_bytes(b.subrange(24, 28)),
                    detail: spec_u64_from_le_bytes(b.subrange(16, 24)),
                },
            ),
        }
    }
}

fn write_bytes_at(out: &mut [u8], at: usize, bytes: &Vec<u8>)
    requires
        at + bytes@.len() <= old(out)@.len(),
    ensures
        final(out)@.len() == old(out)@.len(),
        final(out)@.subrange(at as int, at + bytes@.len()) == bytes@,
        forall|i: int|
            0 <= i < old(out)@.len() && !(at <= i < at + bytes@.len()) ==> final(out)@[i]
                == old(out)@[i],
{
    assert(out@.len() == out.len());
    let mut k: usize = 0;
    while k < bytes.len()
        invariant
            k <= bytes@.len(),
            at + bytes@.len() <= old(out)@.len(),
            old(out)@.len() <= usize::MAX,
            out@.len() == old(out)@.len(),
            forall|i: int| at <= i < at + k ==> out@[i] == bytes@[i - at],
            forall|i: int|
                0 <= i < old(out)@.len() && !(at <= i < at + k) ==> out@[i] == old(out)@[i],
        decreases bytes@.len() - k,
    {
        out[at + k] = bytes[k];
        k = k + 1;
    }
    assert(out@.subrange(at as int, at + bytes@.len()) =~= bytes@);
}

impl Event {
    /// Encodes this event into `out`'s first [`ENCODED_EVENT_BYTES`] bytes and returns that
    /// count. Fails `BufferTooSmall`, writing nothing, if `out` is shorter than that.
    pub fn encode(&self, out: &mut [u8]) -> (r: Result<usize, AuditError>)
        ensures
            final(out)@.len() == old(out)@.len(),
            old(out)@.len() < 32 ==> r == Err::<usize, AuditError>(AuditError::BufferTooSmall)
                && final(out)@ == old(out)@,
            old(out)@.len() >= 32 ==> r == Ok::<usize, AuditError>(32) && final(out)@.subrange(
                0,
                32,
            ) == event_bytes(*self) && final(out)@.subrange(32, old(out)@.len() as int) == old(out)@.subrange(32, old(out)@.len() as int),
    {
        if out.len() < ENCODED_EVENT_BYTES {
            return Err(AuditError::BufferTooSmall);
        }
        let ghost orig = out@;
        let seq = u64_to_le_bytes(self.seq);
        let actor = u64_to_le_bytes(self.actor);
        let detail = u64_to_le_bytes(self.detail);
        let rights = u32_to_le_bytes(self.rights);
        proof {
            lemma_auto_spec_u64_to_from_le_bytes();
            lemma_auto_spec_u32_to_from_le_bytes();
        }
        write_bytes_at(out, 0, &seq);
        let ghost o1 = out@;
        write_bytes_at(out, 8, &actor);
        let ghost o2 = out@;
        write_bytes_at(out, 16, &detail);
        let ghost o3 = out@;
        write_bytes_at(out, 24, &rights);
        let ghost o4 = out@;
        out[28] = self.action.as_u8();
        out[29] = self.kind;
        out[30] = 0;
        out[31] = 0;
        proof {
            assert(out@.subrange(0, 8) =~= o1.subrange(0, 8));
            assert(out@.subrange(8, 16) =~= o2.subrange(8, 16));
            assert(out@.subrange(16, 24) =~= o3.subrange(16, 24));
            assert(out@.subrange(24, 28) =~= o4.subrange(24, 28));
            assert(out@.subrange(0, 32) =~= event_bytes(*self));
            assert(out@.subrange(32, orig.len() as int) =~= orig.subrange(32, orig.len() as int));
        }
        Ok(ENCODED_EVENT_BYTES)
    }

    /// Decodes an event from `bytes`' first [`ENCODED_EVENT_BYTES`] bytes. A short input and an
    /// unrecognised action byte are both `Malformed`.
    pub fn decode(bytes: &[u8]) -> (r: Result<Event, AuditError>)
        ensures
            r == decode_event(bytes@),
    {
        if bytes.len() < ENCODED_EVENT_BYTES {
            return Err(AuditError::Malformed);
        }
        let action = match Action::from_u8(bytes[28]) {
            Some(a) => a,
            None => return Err(AuditError::Malformed),
        };
        let seq = u64_from_le_bytes(slice_subrange(bytes, 0, 8));
        let actor = u64_from_le_bytes(slice_subrange(bytes, 8, 16));
        let detail = u64_from_le_bytes(slice_subrange(bytes, 16, 24));
        let rights = u32_from_le_bytes(slice_subrange(bytes, 24, 28));
        let kind = bytes[29];
        Ok(Event { seq, actor, action, kind, rights, detail })
    }
}

/// Decoding what `encode` wrote gives back the same event, field for field.
pub proof fn event_round_trip(e: Event)
    ensures
        event_bytes(e).len() == 32,
        decode_event(event_bytes(e)) == Ok::<Event, AuditError>(e),
{
    lemma_auto_spec_u64_to_from_le_bytes();
    lemma_auto_spec_u32_to_from_le_bytes();
    let b = event_bytes(e);
    assert(b.subrange(0, 8) =~= spec_u64_to_le_bytes(e.seq));
    assert(b.subrange(8, 16) =~= spec_u64_to_le_bytes(e.actor));
    assert(b.subrange(16, 24) =~= spec_u64_to_le_bytes(e.detail));
    assert(b.subrange(24, 28) =~= spec_u32_to_le_bytes(e.rights));
    assert(b[28] == action_byte(e.action));
    assert(b[29] == e.kind);
    action_round_trip(e.action, 0);
}

} // verus!
