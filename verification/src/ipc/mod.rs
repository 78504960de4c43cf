//! Typed IPC: messages that name an interface and a method, the fixed-capacity queue they wait
//! in, and the registry a program uses to find another program's endpoint by name.

pub mod error;
pub mod message;
pub mod queue;
pub mod registry;

pub use error::IpcError;
pub use message::{Header, MAX_PAYLOAD, Message};
pub use queue::MessageQueue;
pub use registry::{MAX_NAME, Name, Registry};
