//! How a capability describes itself: which methods its interface exposes, what each takes and
//! returns, and a fixed byte layout for carrying a method description across a syscall
//! boundary. The same description renders as help for a person and as a tool definition for an
//! agent.

pub mod error;
pub mod interface;
pub mod method;
pub mod table;

pub use error::SchemaError;
pub use interface::{Interface, MAX_METHODS};
pub use method::{ArgKind, ENCODED_METHOD_BYTES, MAX_ARGS, Method};
pub use table::SchemaTable;
