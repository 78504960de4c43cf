//! What a capability slot refers to.

use vstd::prelude::*;

verus! {

/// The kernel object a capability grants some level of access to. `Null` marks a free slot.
#[derive(Debug, Clone, Copy, PartialEq, Eq, Structural)]
pub enum Object {
    /// A free slot.
    Null,
    /// The kernel console/serial device.
    Console,
    /// Another task, named by its kernel-assigned id.
    Task(u64),
    /// A range of physical memory.
    Memory { base: u64, len: u64 },
    /// An IPC endpoint, named by its id.
    Endpoint(u64),
    /// The name registry.
    Registry,
    /// The audit journal.
    Journal,
}

/// The kernel's object-kind tag, as `SYS_IDENTIFY` and the audit journal report it.
pub open spec fn kind_tag(object: Object) -> u8 {
    match object {
        Object::Null => 0,
        Object::Console => 1,
        Object::Task(_) => 2,
        Object::Memory { .. } => 3,
        Object::Endpoint(_) => 4,
        Object::Registry => 5,
        Object::Journal => 6,
    }
}

impl Object {
    /// The object-kind tag: `0` Null, `1` Console, `2` Task, `3` Memory, `4` Endpoint,
    /// `5` Registry, `6` Journal.
    pub fn kind(&self) -> (k: u8)
        ensures
            k == kind_tag(*self),
    {
        match self {
            Object::Null => 0,
            Object::Console => 1,
            Object::Task(_) => 2,
            Object::Memory { .. } => 3,
            Object::Endpoint(_) => 4,
            Object::Registry => 5,
            Object::Journal => 6,
        }
    }

    /// Whether this is the free-slot marker.
    pub fn is_null(&self) -> (b: bool)
        ensures
            b == (*self == Object::Null),
    {
        match self {
            Object::Null => true,
            _ => false,
        }
    }
}

} // verus!
