//! Hex encoding and decoding without surprises.
//!
//! Bytes become hex through [`BufEncoder`], which writes into a fixed buffer, or through
//! [`BytesToHexIter`], which yields one character at a time. Hex becomes bytes through
//! [`HexToBytesIter`], which reads pairs of digits from either end and says exactly which
//! character was wrong, and where.

pub mod buf_encoder;
pub mod case;
pub mod decode;
pub mod digit;
pub mod error;
pub mod iter;
pub mod laws;
mod scratch;
pub mod utf8;

pub use buf_encoder::BufEncoder;
pub use case::{Case, Table};
pub use error::{InvalidChar, InvalidCharError, OddLengthStringError};
pub use iter::{BytesToHexIter, HexDigitsIter, HexSliceToBytesIter, HexToBytesIter};
