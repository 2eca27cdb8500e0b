//! The CELT layer: bit allocation, band shapes and their side information.

pub mod analysis;
pub mod angle;
pub mod bands;
pub mod budget;
pub mod codebook;
pub mod coder;
pub mod cwrs;
pub mod decoder;
pub mod encoder;
pub mod energy;
pub mod energy_model;
pub mod frame;
pub mod hadamard;
pub mod laplace;
pub mod modes;
pub mod pitch;
pub mod rate;
pub mod search;
pub mod shrink;
pub mod tables;
pub mod vq;
