//! An embedded key-value store built on append-only log segments.
//!
//! Each segment holds the bytes of one log file and an index from keys to the
//! offsets of their latest records; the store rotates to a fresh segment after
//! a fixed number of writes and resolves lookups newest segment first.

pub mod codec;
pub mod depths;
pub mod laws;
pub mod replay;
pub mod segment;
pub mod store;

pub use codec::{decode_value, encode_record, parse_length, DecodeError};
pub use segment::{FileMap, IndexEntry};
pub use store::{KeyValMap, DEPTH_CAPACITY, WRITE_MAX};
