//! The range coder: one buffer, filled with arithmetic-coded symbols from the
//! front and with raw bits from the back.

pub mod cost;
pub mod decoder;
pub mod encoder;
pub mod symbols;

pub use self::decoder::RangeDecoder;
pub use self::encoder::RangeEncoder;
