//! Random access to the Nth Unicode character of a large text buffer.
//!
//! The buffer is the contents of a memory-mapped file, handed over as plain
//! bytes.  A [`mapped::MappedFile`] owns those bytes together with a
//! monotonically growing cache of checkpoints, one per line start discovered
//! so far, and resolves a 0-based character index to its character value while
//! decoding only the byte span that must be traversed.

pub mod decode;
pub mod mapped;

pub use mapped::CharPosition;
pub use mapped::DecodeError;
pub use mapped::IndexError;
pub use mapped::MappedFile;
