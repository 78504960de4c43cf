//! The audit journal: every grant, delegation, revocation and refusal, in order, with who did
//! it — a fixed-capacity ring whose evictions are counted, sequence numbers that never repeat,
//! and a fixed wire layout for carrying an event across the syscall boundary.

pub mod action;
pub mod event;
pub mod journal;

pub use action::Action;
pub use event::{AuditError, ENCODED_EVENT_BYTES, Event};
pub use journal::Journal;
