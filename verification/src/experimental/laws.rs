//! What the choice of a coder by the spread of the energy comes to.

use vstd::prelude::*;

use crate::experimental::{self, Flatness};
use crate::packet::{Bandwidth, Mode};

verus! {

/// The two narrowest bandwidths go to linear prediction whatever the frame is. Beyond them a
/// frame that is too short to measure, or whose energy is spread evenly, is transform coded,
/// one whose energy is peaked is predicted, and what is between goes to both.
pub proof fn lemma_suited(len: int, bw: Bandwidth, f: Flatness)
    ensures
        ({
            let narrow = bw == Bandwidth::NarrowBand || bw == Bandwidth::MediumBand;
            let m = experimental::suited_mode(len, bw, f);
            &&& narrow ==> m == Mode::SilkOnly
            &&& !narrow && len < 8 ==> m == Mode::CeltOnly
            &&& !narrow && len >= 8 ==> (m == Mode::CeltOnly <==> f == Flatness::Flat)
            &&& !narrow && len >= 8 ==> (m == Mode::SilkOnly <==> f == Flatness::Peaked)
        }),
{
}

} // verus!
