//! Capabilities: handles, rights, the objects they name, and a task's capability space with
//! the derivation tree that makes a grant withdrawable.

pub mod handle;
pub mod object;
pub mod rights;
pub mod space;

pub use handle::Handle;
pub use object::Object;
pub use rights::Rights;
pub use space::{CapError, CapSpace};
