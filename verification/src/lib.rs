//! Low-level building blocks of the on-disk Nakala index format: a read
//! cursor over bytes, a write cursor that records its position, protocol
//! buffer varints and a multi-level skip list.

pub mod error;
pub mod prim;

pub use error::{ErrorKind, FormatContext, FormatError};
