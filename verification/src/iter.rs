//! Iterators between hex and bytes.

pub mod bytes_to_hex;
pub mod digits;
pub mod hex_to_bytes;

pub use bytes_to_hex::{ByteRef, BytesToHexIter};
pub use digits::{DigitPairs, HexDigitsIter};
pub use hex_to_bytes::{HexSliceToBytesIter, HexToBytesIter};
