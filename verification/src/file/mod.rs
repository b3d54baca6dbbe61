//! The stored form of a compiled grammar.
//!
//! A table is laid out as a string of bytes, the payload, which is then
//! compressed.  In the payload every number is a variable-length integer:
//! the two highest bits of its first byte give the number of bytes that
//! follow, and the other bits of all its bytes are the number, highest part
//! first.

pub mod read;
pub mod stored;
pub mod write;

pub use read::{read_lib, CorruptLibraryError};
pub use write::save_lib;
