pub mod celt;
pub mod config;
pub mod decoder;
pub mod encoder;
pub mod experimental;
pub mod lpc;
pub mod math;
pub mod ogg;
pub mod packet;
pub mod range;
