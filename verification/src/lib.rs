//! An in-memory key-value store speaking a RESP-style wire protocol.
//!
//! The crate has three layers: the frame model with its incremental codec
//! (`resp`), the command parsing and execution layer (`cmd`), and the
//! backing store (`backend`).

pub mod backend;
pub mod cmd;
pub mod resp;

pub use backend::Backend;
pub use backend::BackendInner;
pub use resp::BulkString;
pub use resp::RespArray;
pub use resp::RespError;
pub use resp::RespFrame;
