//! The Ogg container, and Opus in it.

pub mod bytes;
pub mod crc;
pub mod opus;
pub mod page;
pub mod writer;
