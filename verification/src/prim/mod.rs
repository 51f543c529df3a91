//! Low level I/O primitives. They form the building blocks of the on-disk
//! Nakala index format: they encode integers, varints, length prefixed
//! strings and more.

pub mod varint;
pub mod write;

pub use write::Cursor as WriteCursor;
pub mod read;

pub use read::Cursor as ReadCursor;
pub mod skip_layout;
pub mod skip;
pub mod skip_size;
pub mod roundtrip;
