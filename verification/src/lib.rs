//! Write-ahead log for an embedded key-value store.
//!
//! The log accepts typed mutation records (index chunk updates, value
//! writes, table drops), frames them with a begin marker, typed entries
//! and a CRC32-protected end marker, keeps an in-memory overlay of the
//! pending mutations for readers, and recycles log files through a
//! pool/appending/flushing/reading/cleanup state machine.  File contents
//! are modelled as byte buffers; the surrounding application maps them
//! to the file system.

pub mod alist;
pub mod bench;
pub mod codec;
pub mod error;
pub mod ident;
pub mod log;
pub mod overlay;
pub mod writer;
