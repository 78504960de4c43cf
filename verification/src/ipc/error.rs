//! Why an IPC operation failed.

use vstd::prelude::*;

verus! {

/// Why an IPC operation failed.
#[derive(Debug, Clone, Copy, PartialEq, Eq, Structural)]
pub enum IpcError {
    /// A message body longer than `MAX_PAYLOAD`.
    PayloadTooLarge,
    /// Interface `0`, which `Message::new` reserves as invalid.
    UntypedMessage,
    /// A `MessageQueue` has no free slot for another message.
    QueueFull,
    /// A name that is empty, longer than `MAX_NAME`, or holds a byte outside printable ASCII.
    InvalidName,
    /// A `Registry::register` naming an already-bound `Name`.
    NameTaken,
    /// A `Registry` has no free slot for another binding.
    RegistryFull,
}

} // verus!
