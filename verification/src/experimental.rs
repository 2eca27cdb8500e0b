//! The decisions of the experimental frame codec: which coder a frame suits, by
//! how evenly its energy is spread, and which frames it takes at all.

pub mod laws;

use vstd::prelude::*;

use crate::packet::{Bandwidth, Mode};

verus! {

/// A frame had no sample.
#[derive(Clone, Copy, Debug, PartialEq, Eq, Structural)]
pub struct EmptyFrameError;

/// The parts of a frame whose energies are compared.
pub const N_SUB_BANDS: usize = 8;

/// How evenly the energy of a frame is spread: the ratio of the parts' geometric
/// mean to their arithmetic mean.
#[derive(Clone, Copy, Debug, PartialEq, Eq, Structural)]
pub enum Flatness {
    /// Below 0.4.
    Peaked,
    /// From 0.4 to 0.8.
    Middling,
    /// Above 0.8.
    Flat,
}

/// Whether a frame is long enough for its energy's spread to be measured at a
/// bandwidth where that decides.
pub fn wants_flatness(len: usize, bandwidth: Bandwidth) -> (r: bool)
    ensures
        r == (bandwidth.rank_spec() >= 2 && len >= 8),
{
    bandwidth.rank() >= 2 && len >= N_SUB_BANDS
}

/// Where part `b` of a frame of `len` samples stands.
pub fn sub_band(len: usize, b: usize) -> (r: (usize, usize))
    requires
        b < N_SUB_BANDS,
    ensures
        r.0 == b * (len / 8),
        r.1 == (b + 1) * (len / 8),
        r.0 <= r.1 <= len,
{
    let size: usize = len / N_SUB_BANDS;
    assert(8 * size <= len);
    assert(0 <= b * size && (b + 1) * size <= 8 * size && b * size <= (b + 1) * size) by (nonlinear_arith)
        requires
            0 <= b < 8,
            0 <= size,
    ;
    (b * size, (b + 1) * size)
}

/// The coder that a frame suits.
pub open spec fn suited_mode(len: int, bandwidth: Bandwidth, flatness: Flatness) -> Mode {
    if bandwidth.rank_spec() < 2 {
        Mode::SilkOnly
    } else if len < 8 {
        Mode::CeltOnly
    } else {
        match flatness {
            Flatness::Flat => Mode::CeltOnly,
            Flatness::Peaked => Mode::SilkOnly,
            Flatness::Middling => Mode::Hybrid,
        }
    }
}

/// Chooses the coder of a frame of `len` samples: narrow bandwidths take linear
/// prediction, frames too short to measure the transform; else the spread of the
/// energy decides.
pub fn detect_mode(len: usize, bandwidth: Bandwidth, flatness: Flatness) -> (r: Mode)
    ensures
        r == suited_mode(len as int, bandwidth, flatness),
{
    if bandwidth.rank() < 2 {
        return Mode::SilkOnly;
    }
    if len < N_SUB_BANDS {
        return Mode::CeltOnly;
    }
    match flatness {
        Flatness::Flat => Mode::CeltOnly,
        Flatness::Peaked => Mode::SilkOnly,
        Flatness::Middling => Mode::Hybrid,
    }
}

/// Refuses a frame without samples.
pub fn check_frame(len: usize) -> (r: Result<(), EmptyFrameError>)
    ensures
        r is Err <==> len == 0,
{
    if len == 0 {
        Err(EmptyFrameError)
    } else {
        Ok(())
    }
}

} // verus!
