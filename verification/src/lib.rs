//! A codec for densely packed bit sequences.
//!
//! A record on the wire is a compact length prefix that counts the bits,
//! followed by the backing words of the sequence, each written least
//! significant byte first. The same bytes come out on every host.

pub mod bits;
pub mod compact;
pub mod endian;
pub mod equality;
pub mod error;
pub mod host;
pub mod input;
pub mod length;
pub mod sequence;
pub mod storage;
pub mod views;
pub mod word;

pub use crate::endian::reverse_endian;
pub use crate::error::Error;
pub use crate::input::Input;
pub use crate::length::required_bytes;
pub use crate::sequence::BitSequence;
pub use crate::views::{BitBox, BitSlice};
pub use crate::word::{Endian, Order, WordWidth};
