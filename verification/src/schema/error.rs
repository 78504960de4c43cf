//! Why a schema operation failed.

use vstd::prelude::*;

verus! {

/// Why a schema operation failed.
#[derive(Debug, Clone, Copy, PartialEq, Eq, Structural)]
pub enum SchemaError {
    /// `Method::new` given more than `MAX_ARGS` arguments.
    TooManyArgs,
    /// `Interface::add` called past `MAX_METHODS`.
    TooManyMethods,
    /// `Interface::new` given id `0`, reserved as untyped.
    UntypedInterface,
    /// `Method::encode` given a buffer shorter than `ENCODED_METHOD_BYTES`.
    BufferTooSmall,
    /// `Method::decode` given bytes that are not one of this module's own encodings.
    Malformed,
    /// `SchemaTable::register` given an id that is already registered.
    DuplicateInterface,
    /// `SchemaTable::register` with no free slot for another interface.
    TableFull,
}

} // verus!
