//! CRC32-family checksums with machine-checked contracts.
//!
//! The library computes the classic IEEE CRC32 and the Castagnoli CRC32C over
//! byte streams, in one call or piece by piece, and hosts any other 32-bit CRC
//! that an [`Algorithm32`] describes.
//!
//! The code that runs:
//! - [`algorithm`]: the description of a variant;
//! - [`bits`]: bit reversal;
//! - [`table`]: the shift register and the 256-entry table built from it;
//! - [`engine`]: the streaming engine;
//! - [`crc32`], [`crc32c`]: the two variants that ship.
//!
//! What is proved of it beyond the contracts of its functions:
//! - [`streaming`]: chunked input gives the checksum of the whole, a reset starts over;
//! - [`serial`]: the table-driven engine is the bit-by-bit shift register;
//! - [`mirror`]: a reflected variant is the standard one seen in a mirror;
//! - [`division`]: the register is the remainder of a polynomial division;
//! - [`detection`]: damage confined to four consecutive bytes always shows;
//! - [`vectors`]: the two variants give the catalogue's values for `123456789`.

pub mod algorithm;
pub mod bits;
pub mod crc32;
pub mod crc32c;
pub mod detection;
pub mod division;
pub mod engine;
pub mod mirror;
pub mod serial;
pub mod streaming;
pub mod table;
pub mod vectors;

pub use crate::algorithm::Algorithm32;
pub use crate::crc32::{crc32, Crc32};
pub use crate::crc32c::{crc32c, Crc32c};
pub use crate::engine::{Crc32Engine, EngineView};
