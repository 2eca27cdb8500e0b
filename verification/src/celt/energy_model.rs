//! The models of the coarse energy steps leave room for every step.

use vstd::prelude::*;

use crate::celt::laplace;
use crate::celt::modes::E_PROB_MODEL;

verus! {

/// Whether the model of a band leaves room for both signs of every step.
pub open spec fn model_fits(lm: int, intra: bool, i: int) -> bool {
    let row = if intra {
        1int
    } else {
        0
    };
    let fs = E_PROB_MODEL[lm][row][2 * i] * 128;
    let decay = E_PROB_MODEL[lm][row][2 * i + 1] * 64;
    &&& 0 < fs <= 32704
    &&& 0 <= decay < 16384
    &&& laplace::layout_fits(fs, decay)
}

/// The model of every band leaves room for both signs of every step.
pub proof fn lemma_model_fits(lm: int, intra: bool, i: int)
    requires
        0 <= lm <= 3,
        0 <= i < 21,
    ensures
        model_fits(lm, intra, i),
{
    if lm == 0 {
        lemma_model_fits_0(i);
        lemma_model_fits_0_intra(i);
    }
    if lm == 1 {
        lemma_model_fits_1(i);
        lemma_model_fits_1_intra(i);
    }
    if lm == 2 {
        lemma_model_fits_2(i);
        lemma_model_fits_2_intra(i);
    }
    if lm == 3 {
        lemma_model_fits_3(i);
        lemma_model_fits_3_intra(i);
    }
}

#[verifier::rlimit(50)]
proof fn lemma_model_fits_0(i: int)
    requires
        0 <= i < 21,
    ensures
        model_fits(0, false, i),
{
    reveal(E_PROB_MODEL);
    if i == 0 {
        assert(laplace::layout_fits(9216, 8128)) by {
            reveal_with_fuel(laplace::tail_start, 24);
        }
    }
    if i == 1 {
        assert(laplace::layout_fits(8320, 8256)) by {
            reveal_with_fuel(laplace::tail_start, 24);
        }
    }
    if i == 2 {
        assert(laplace::layout_fits(8448, 8192)) by {
            reveal_with_fuel(laplace::tail_start, 24);
        }
    }
    if i == 3 {
        assert(laplace::layout_fits(8320, 8192)) by {
            reveal_with_fuel(laplace::tail_start, 24);
        }
    }
    if i == 4 {
        assert(laplace::layout_fits(8192, 8192)) by {
            reveal_with_fuel(laplace::tail_start, 24);
        }
    }
    if i == 5 {
        assert(laplace::layout_fits(7936, 8192)) by {
            reveal_with_fuel(laplace::tail_start, 24);
        }
    }
    if i == 6 {
        assert(laplace::layout_fits(8192, 8192)) by {
            reveal_with_fuel(laplace::tail_start, 24);
        }
    }
    if i == 7 {
        assert(laplace::layout_fits(8192, 8192)) by {
            reveal_with_fuel(laplace::tail_start, 24);
        }
    }
    if i == 8 {
        assert(laplace::layout_fits(11776, 4992)) by {
            reveal_with_fuel(laplace::tail_start, 24);
        }
    }
    if i == 9 {
        assert(laplace::layout_fits(11776, 5056)) by {
            reveal_with_fuel(laplace::tail_start, 24);
        }
    }
    if i == 10 {
        assert(laplace::layout_fits(11776, 4992)) by {
            reveal_with_fuel(laplace::tail_start, 24);
        }
    }
    if i == 11 {
        assert(laplace::layout_fits(11520, 5056)) by {
            reveal_with_fuel(laplace::tail_start, 24);
        }
    }
    if i == 12 {
        assert(laplace::layout_fits(14848, 2624)) by {
            reveal_with_fuel(laplace::tail_start, 24);
        }
    }
    if i == 13 {
        assert(laplace::layout_fits(14720, 2560)) by {
            reveal_with_fuel(laplace::tail_start, 24);
        }
    }
    if i == 14 {
        assert(laplace::layout_fits(14592, 2560)) by {
            reveal_with_fuel(laplace::tail_start, 24);
        }
    }
    if i == 15 {
        assert(laplace::layout_fits(16896, 1664)) by {
            reveal_with_fuel(laplace::tail_start, 24);
        }
    }
    if i == 16 {
        assert(laplace::layout_fits(16896, 1664)) by {
            reveal_with_fuel(laplace::tail_start, 24);
        }
    }
    if i == 17 {
        assert(laplace::layout_fits(18560, 1088)) by {
            reveal_with_fuel(laplace::tail_start, 24);
        }
    }
    if i == 18 {
        assert(laplace::layout_fits(20608, 768)) by {
            reveal_with_fuel(laplace::tail_start, 24);
        }
    }
    if i == 19 {
        assert(laplace::layout_fits(22528, 640)) by {
            reveal_with_fuel(laplace::tail_start, 24);
        }
    }
    if i == 20 {
        assert(laplace::layout_fits(22656, 704)) by {
            reveal_with_fuel(laplace::tail_start, 24);
        }
    }
}

#[verifier::rlimit(50)]
proof fn lemma_model_fits_0_intra(i: int)
    requires
        0 <= i < 21,
    ensures
        model_fits(0, true, i),
{
    reveal(E_PROB_MODEL);
    if i == 0 {
        assert(laplace::layout_fits(3072, 11456)) by {
            reveal_with_fuel(laplace::tail_start, 24);
        }
    }
    if i == 1 {
        assert(laplace::layout_fits(6144, 8832)) by {
            reveal_with_fuel(laplace::tail_start, 24);
        }
    }
    if i == 2 {
        assert(laplace::layout_fits(6912, 8640)) by {
            reveal_with_fuel(laplace::tail_start, 24);
        }
    }
    if i == 3 {
        assert(laplace::layout_fits(6912, 8448)) by {
            reveal_with_fuel(laplace::tail_start, 24);
        }
    }
    if i == 4 {
        assert(laplace::layout_fits(6784, 8576)) by {
            reveal_with_fuel(laplace::tail_start, 24);
        }
    }
    if i == 5 {
        assert(laplace::layout_fits(7168, 8512)) by {
            reveal_with_fuel(laplace::tail_start, 24);
        }
    }
    if i == 6 {
        assert(laplace::layout_fits(7040, 8448)) by {
            reveal_with_fuel(laplace::tail_start, 24);
        }
    }
    if i == 7 {
        assert(laplace::layout_fits(7040, 8448)) by {
            reveal_with_fuel(laplace::tail_start, 24);
        }
    }
    if i == 8 {
        assert(laplace::layout_fits(7808, 7296)) by {
            reveal_with_fuel(laplace::tail_start, 24);
        }
    }
    if i == 9 {
        assert(laplace::layout_fits(8960, 6144)) by {
            reveal_with_fuel(laplace::tail_start, 24);
        }
    }
    if i == 10 {
        assert(laplace::layout_fits(9472, 5632)) by {
            reveal_with_fuel(laplace::tail_start, 24);
        }
    }
    if i == 11 {
        assert(laplace::layout_fits(9600, 5632)) by {
            reveal_with_fuel(laplace::tail_start, 24);
        }
    }
    if i == 12 {
        assert(laplace::layout_fits(11136, 4736)) by {
            reveal_with_fuel(laplace::tail_start, 24);
        }
    }
    if i == 13 {
        assert(laplace::layout_fits(11392, 4224)) by {
            reveal_with_fuel(laplace::tail_start, 24);
        }
    }
    if i == 14 {
        assert(laplace::layout_fits(11648, 4288)) by {
            reveal_with_fuel(laplace::tail_start, 24);
        }
    }
    if i == 15 {
        assert(laplace::layout_fits(12800, 3776)) by {
            reveal_with_fuel(laplace::tail_start, 24);
        }
    }
    if i == 16 {
        assert(laplace::layout_fits(13824, 3200)) by {
            reveal_with_fuel(laplace::tail_start, 24);
        }
    }
    if i == 17 {
        assert(laplace::layout_fits(15360, 2560)) by {
            reveal_with_fuel(laplace::tail_start, 24);
        }
    }
    if i == 18 {
        assert(laplace::layout_fits(15616, 2368)) by {
            reveal_with_fuel(laplace::tail_start, 24);
        }
    }
    if i == 19 {
        assert(laplace::layout_fits(12416, 2752)) by {
            reveal_with_fuel(laplace::tail_start, 24);
        }
    }
    if i == 20 {
        assert(laplace::layout_fits(9984, 3200)) by {
            reveal_with_fuel(laplace::tail_start, 24);
        }
    }
}

#[verifier::rlimit(50)]
proof fn lemma_model_fits_1(i: int)
    requires
        0 <= i < 21,
    ensures
        model_fits(1, false, i),
{
    reveal(E_PROB_MODEL);
    if i == 0 {
        assert(laplace::layout_fits(10624, 4992)) by {
            reveal_with_fuel(laplace::tail_start, 24);
        }
    }
    if i == 1 {
        assert(laplace::layout_fits(10752, 5184)) by {
            reveal_with_fuel(laplace::tail_start, 24);
        }
    }
    if i == 2 {
        assert(laplace::layout_fits(11264, 4800)) by {
            reveal_with_fuel(laplace::tail_start, 24);
        }
    }
    if i == 3 {
        assert(laplace::layout_fits(11008, 4736)) by {
            reveal_with_fuel(laplace::tail_start, 24);
        }
    }
    if i == 4 {
        assert(laplace::layout_fits(11136, 4544)) by {
            reveal_with_fuel(laplace::tail_start, 24);
        }
    }
    if i == 5 {
        assert(laplace::layout_fits(11520, 4672)) by {
            reveal_with_fuel(laplace::tail_start, 24);
        }
    }
    if i == 6 {
        assert(laplace::layout_fits(11904, 4736)) by {
            reveal_with_fuel(laplace::tail_start, 24);
        }
    }
    if i == 7 {
        assert(laplace::layout_fits(11904, 4736)) by {
            reveal_with_fuel(laplace::tail_start, 24);
        }
    }
    if i == 8 {
        assert(laplace::layout_fits(13952, 2560)) by {
            reveal_with_fuel(laplace::tail_start, 24);
        }
    }
    if i == 9 {
        assert(laplace::layout_fits(14592, 2304)) by {
            reveal_with_fuel(laplace::tail_start, 24);
        }
    }
    if i == 10 {
        assert(laplace::layout_fits(14976, 2176)) by {
            reveal_with_fuel(laplace::tail_start, 24);
        }
    }
    if i == 11 {
        assert(laplace::layout_fits(14976, 2176)) by {
            reveal_with_fuel(laplace::tail_start, 24);
        }
    }
    if i == 12 {
        assert(laplace::layout_fits(18304, 1088)) by {
            reveal_with_fuel(laplace::tail_start, 24);
        }
    }
    if i == 13 {
        assert(laplace::layout_fits(18560, 1152)) by {
            reveal_with_fuel(laplace::tail_start, 24);
        }
    }
    if i == 14 {
        assert(laplace::layout_fits(18688, 1216)) by {
            reveal_with_fuel(laplace::tail_start, 24);
        }
    }
    if i == 15 {
        assert(laplace::layout_fits(20736, 768)) by {
            reveal_with_fuel(laplace::tail_start, 24);
        }
    }
    if i == 16 {
        assert(laplace::layout_fits(21120, 640)) by {
            reveal_with_fuel(laplace::tail_start, 24);
        }
    }
    if i == 17 {
        assert(laplace::layout_fits(22784, 448)) by {
            reveal_with_fuel(laplace::tail_start, 24);
        }
    }
    if i == 18 {
        assert(laplace::layout_fits(24192, 384)) by {
            reveal_with_fuel(laplace::tail_start, 24);
        }
    }
    if i == 19 {
        assert(laplace::layout_fits(24320, 512)) by {
            reveal_with_fuel(laplace::tail_start, 24);
        }
    }
    if i == 20 {
        assert(laplace::layout_fits(22656, 576)) by {
            reveal_with_fuel(laplace::tail_start, 24);
        }
    }
}

#[verifier::rlimit(50)]
proof fn lemma_model_fits_1_intra(i: int)
    requires
        0 <= i < 21,
    ensures
        model_fits(1, true, i),
{
    reveal(E_PROB_MODEL);
    if i == 0 {
        assert(laplace::layout_fits(2944, 11392)) by {
            reveal_with_fuel(laplace::tail_start, 24);
        }
    }
    if i == 1 {
        assert(laplace::layout_fits(6912, 7360)) by {
            reveal_with_fuel(laplace::tail_start, 24);
        }
    }
    if i == 2 {
        assert(laplace::layout_fits(8064, 6528)) by {
            reveal_with_fuel(laplace::tail_start, 24);
        }
    }
    if i == 3 {
        assert(laplace::layout_fits(8448, 6272)) by {
            reveal_with_fuel(laplace::tail_start, 24);
        }
    }
    if i == 4 {
        assert(laplace::layout_fits(8832, 6336)) by {
            reveal_with_fuel(laplace::tail_start, 24);
        }
    }
    if i == 5 {
        assert(laplace::layout_fits(9472, 5696)) by {
            reveal_with_fuel(laplace::tail_start, 24);
        }
    }
    if i == 6 {
        assert(laplace::layout_fits(9088, 5824)) by {
            reveal_with_fuel(laplace::tail_start, 24);
        }
    }
    if i == 7 {
        assert(laplace::layout_fits(9344, 5824)) by {
            reveal_with_fuel(laplace::tail_start, 24);
        }
    }
    if i == 8 {
        assert(laplace::layout_fits(9984, 5696)) by {
            reveal_with_fuel(laplace::tail_start, 24);
        }
    }
    if i == 9 {
        assert(laplace::layout_fits(11008, 5120)) by {
            reveal_with_fuel(laplace::tail_start, 24);
        }
    }
    if i == 10 {
        assert(laplace::layout_fits(11776, 4224)) by {
            reveal_with_fuel(laplace::tail_start, 24);
        }
    }
    if i == 11 {
        assert(laplace::layout_fits(11904, 4096)) by {
            reveal_with_fuel(laplace::tail_start, 24);
        }
    }
    if i == 12 {
        assert(laplace::layout_fits(13056, 3776)) by {
            reveal_with_fuel(laplace::tail_start, 24);
        }
    }
    if i == 13 {
        assert(laplace::layout_fits(13184, 3840)) by {
            reveal_with_fuel(laplace::tail_start, 24);
        }
    }
    if i == 14 {
        assert(laplace::layout_fits(13312, 3840)) by {
            reveal_with_fuel(laplace::tail_start, 24);
        }
    }
    if i == 15 {
        assert(laplace::layout_fits(14976, 3328)) by {
            reveal_with_fuel(laplace::tail_start, 24);
        }
    }
    if i == 16 {
        assert(laplace::layout_fits(15744, 2816)) by {
            reveal_with_fuel(laplace::tail_start, 24);
        }
    }
    if i == 17 {
        assert(laplace::layout_fits(17664, 2240)) by {
            reveal_with_fuel(laplace::tail_start, 24);
        }
    }
    if i == 18 {
        assert(laplace::layout_fits(17024, 1984)) by {
            reveal_with_fuel(laplace::tail_start, 24);
        }
    }
    if i == 19 {
        assert(laplace::layout_fits(12416, 2432)) by {
            reveal_with_fuel(laplace::tail_start, 24);
        }
    }
    if i == 20 {
        assert(laplace::layout_fits(9856, 2880)) by {
            reveal_with_fuel(laplace::tail_start, 24);
        }
    }
}

#[verifier::rlimit(50)]
proof fn lemma_model_fits_2(i: int)
    requires
        0 <= i < 21,
    ensures
        model_fits(2, false, i),
{
    reveal(E_PROB_MODEL);
    if i == 0 {
        assert(laplace::layout_fits(7808, 5760)) by {
            reveal_with_fuel(laplace::tail_start, 24);
        }
    }
    if i == 1 {
        assert(laplace::layout_fits(11904, 3840)) by {
            reveal_with_fuel(laplace::tail_start, 24);
        }
    }
    if i == 2 {
        assert(laplace::layout_fits(13440, 2688)) by {
            reveal_with_fuel(laplace::tail_start, 24);
        }
    }
    if i == 3 {
        assert(laplace::layout_fits(13696, 2624)) by {
            reveal_with_fuel(laplace::tail_start, 24);
        }
    }
    if i == 4 {
        assert(laplace::layout_fits(14080, 2880)) by {
            reveal_with_fuel(laplace::tail_start, 24);
        }
    }
    if i == 5 {
        assert(laplace::layout_fits(14848, 2432)) by {
            reveal_with_fuel(laplace::tail_start, 24);
        }
    }
    if i == 6 {
        assert(laplace::layout_fits(14464, 2432)) by {
            reveal_with_fuel(laplace::tail_start, 24);
        }
    }
    if i == 7 {
        assert(laplace::layout_fits(14336, 2432)) by {
            reveal_with_fuel(laplace::tail_start, 24);
        }
    }
    if i == 8 {
        assert(laplace::layout_fits(15872, 1664)) by {
            reveal_with_fuel(laplace::tail_start, 24);
        }
    }
    if i == 9 {
        assert(laplace::layout_fits(16896, 1728)) by {
            reveal_with_fuel(laplace::tail_start, 24);
        }
    }
    if i == 10 {
        assert(laplace::layout_fits(17408, 1216)) by {
            reveal_with_fuel(laplace::tail_start, 24);
        }
    }
    if i == 11 {
        assert(laplace::layout_fits(17920, 1280)) by {
            reveal_with_fuel(laplace::tail_start, 24);
        }
    }
    if i == 12 {
        assert(laplace::layout_fits(19840, 896)) by {
            reveal_with_fuel(laplace::tail_start, 24);
        }
    }
    if i == 13 {
        assert(laplace::layout_fits(20352, 1024)) by {
            reveal_with_fuel(laplace::tail_start, 24);
        }
    }
    if i == 14 {
        assert(laplace::layout_fits(20224, 1152)) by {
            reveal_with_fuel(laplace::tail_start, 24);
        }
    }
    if i == 15 {
        assert(laplace::layout_fits(21760, 832)) by {
            reveal_with_fuel(laplace::tail_start, 24);
        }
    }
    if i == 16 {
        assert(laplace::layout_fits(22656, 640)) by {
            reveal_with_fuel(laplace::tail_start, 24);
        }
    }
    if i == 17 {
        assert(laplace::layout_fits(23936, 512)) by {
            reveal_with_fuel(laplace::tail_start, 24);
        }
    }
    if i == 18 {
        assert(laplace::layout_fits(24576, 384)) by {
            reveal_with_fuel(laplace::tail_start, 24);
        }
    }
    if i == 19 {
        assert(laplace::layout_fits(22400, 576)) by {
            reveal_with_fuel(laplace::tail_start, 24);
        }
    }
    if i == 20 {
        assert(laplace::layout_fits(20352, 640)) by {
            reveal_with_fuel(laplace::tail_start, 24);
        }
    }
}

#[verifier::rlimit(50)]
proof fn lemma_model_fits_2_intra(i: int)
    requires
        0 <= i < 21,
    ensures
        model_fits(2, true, i),
{
    reveal(E_PROB_MODEL);
    if i == 0 {
        assert(laplace::layout_fits(2688, 11392)) by {
            reveal_with_fuel(laplace::tail_start, 24);
        }
    }
    if i == 1 {
        assert(laplace::layout_fits(7552, 7040)) by {
            reveal_with_fuel(laplace::tail_start, 24);
        }
    }
    if i == 2 {
        assert(laplace::layout_fits(9088, 5504)) by {
            reveal_with_fuel(laplace::tail_start, 24);
        }
    }
    if i == 3 {
        assert(laplace::layout_fits(9600, 5440)) by {
            reveal_with_fuel(laplace::tail_start, 24);
        }
    }
    if i == 4 {
        assert(laplace::layout_fits(10752, 5312)) by {
            reveal_with_fuel(laplace::tail_start, 24);
        }
    }
    if i == 5 {
        assert(laplace::layout_fits(11648, 4224)) by {
            reveal_with_fuel(laplace::tail_start, 24);
        }
    }
    if i == 6 {
        assert(laplace::layout_fits(11264, 4672)) by {
            reveal_with_fuel(laplace::tail_start, 24);
        }
    }
    if i == 7 {
        assert(laplace::layout_fits(11136, 4608)) by {
            reveal_with_fuel(laplace::tail_start, 24);
        }
    }
    if i == 8 {
        assert(laplace::layout_fits(11776, 4800)) by {
            reveal_with_fuel(laplace::tail_start, 24);
        }
    }
    if i == 9 {
        assert(laplace::layout_fits(12544, 4608)) by {
            reveal_with_fuel(laplace::tail_start, 24);
        }
    }
    if i == 10 {
        assert(laplace::layout_fits(13440, 3712)) by {
            reveal_with_fuel(laplace::tail_start, 24);
        }
    }
    if i == 11 {
        assert(laplace::layout_fits(13696, 3456)) by {
            reveal_with_fuel(laplace::tail_start, 24);
        }
    }
    if i == 12 {
        assert(laplace::layout_fits(14720, 3328)) by {
            reveal_with_fuel(laplace::tail_start, 24);
        }
    }
    if i == 13 {
        assert(laplace::layout_fits(14592, 3520)) by {
            reveal_with_fuel(laplace::tail_start, 24);
        }
    }
    if i == 14 {
        assert(laplace::layout_fits(14336, 3584)) by {
            reveal_with_fuel(laplace::tail_start, 24);
        }
    }
    if i == 15 {
        assert(laplace::layout_fits(16512, 3264)) by {
            reveal_with_fuel(laplace::tail_start, 24);
        }
    }
    if i == 16 {
        assert(laplace::layout_fits(16896, 2560)) by {
            reveal_with_fuel(laplace::tail_start, 24);
        }
    }
    if i == 17 {
        assert(laplace::layout_fits(19200, 2112)) by {
            reveal_with_fuel(laplace::tail_start, 24);
        }
    }
    if i == 18 {
        assert(laplace::layout_fits(17920, 1856)) by {
            reveal_with_fuel(laplace::tail_start, 24);
        }
    }
    if i == 19 {
        assert(laplace::layout_fits(12544, 2240)) by {
            reveal_with_fuel(laplace::tail_start, 24);
        }
    }
    if i == 20 {
        assert(laplace::layout_fits(9856, 2688)) by {
            reveal_with_fuel(laplace::tail_start, 24);
        }
    }
}

#[verifier::rlimit(50)]
proof fn lemma_model_fits_3(i: int)
    requires
        0 <= i < 21,
    ensures
        model_fits(3, false, i),
{
    reveal(E_PROB_MODEL);
    if i == 0 {
        assert(laplace::layout_fits(5376, 7744)) by {
            reveal_with_fuel(laplace::tail_start, 24);
        }
    }
    if i == 1 {
        assert(laplace::layout_fits(12288, 4224)) by {
            reveal_with_fuel(laplace::tail_start, 24);
        }
    }
    if i == 2 {
        assert(laplace::layout_fits(13824, 2752)) by {
            reveal_with_fuel(laplace::tail_start, 24);
        }
    }
    if i == 3 {
        assert(laplace::layout_fits(14208, 2560)) by {
            reveal_with_fuel(laplace::tail_start, 24);
        }
    }
    if i == 4 {
        assert(laplace::layout_fits(14976, 2816)) by {
            reveal_with_fuel(laplace::tail_start, 24);
        }
    }
    if i == 5 {
        assert(laplace::layout_fits(15744, 2048)) by {
            reveal_with_fuel(laplace::tail_start, 24);
        }
    }
    if i == 6 {
        assert(laplace::layout_fits(15360, 2304)) by {
            reveal_with_fuel(laplace::tail_start, 24);
        }
    }
    if i == 7 {
        assert(laplace::layout_fits(15232, 2112)) by {
            reveal_with_fuel(laplace::tail_start, 24);
        }
    }
    if i == 8 {
        assert(laplace::layout_fits(16256, 2112)) by {
            reveal_with_fuel(laplace::tail_start, 24);
        }
    }
    if i == 9 {
        assert(laplace::layout_fits(17152, 2176)) by {
            reveal_with_fuel(laplace::tail_start, 24);
        }
    }
    if i == 10 {
        assert(laplace::layout_fits(17792, 1344)) by {
            reveal_with_fuel(laplace::tail_start, 24);
        }
    }
    if i == 11 {
        assert(laplace::layout_fits(18816, 1472)) by {
            reveal_with_fuel(laplace::tail_start, 24);
        }
    }
    if i == 12 {
        assert(laplace::layout_fits(19456, 1280)) by {
            reveal_with_fuel(laplace::tail_start, 24);
        }
    }
    if i == 13 {
        assert(laplace::layout_fits(20224, 1600)) by {
            reveal_with_fuel(laplace::tail_start, 24);
        }
    }
    if i == 14 {
        assert(laplace::layout_fits(19712, 1664)) by {
            reveal_with_fuel(laplace::tail_start, 24);
        }
    }
    if i == 15 {
        assert(laplace::layout_fits(21248, 1344)) by {
            reveal_with_fuel(laplace::tail_start, 24);
        }
    }
    if i == 16 {
        assert(laplace::layout_fits(22144, 1024)) by {
            reveal_with_fuel(laplace::tail_start, 24);
        }
    }
    if i == 17 {
        assert(laplace::layout_fits(23552, 832)) by {
            reveal_with_fuel(laplace::tail_start, 24);
        }
    }
    if i == 18 {
        assert(laplace::layout_fits(23552, 640)) by {
            reveal_with_fuel(laplace::tail_start, 24);
        }
    }
    if i == 19 {
        assert(laplace::layout_fits(19200, 832)) by {
            reveal_with_fuel(laplace::tail_start, 24);
        }
    }
    if i == 20 {
        assert(laplace::layout_fits(17792, 960)) by {
            reveal_with_fuel(laplace::tail_start, 24);
        }
    }
}

#[verifier::rlimit(50)]
proof fn lemma_model_fits_3_intra(i: int)
    requires
        0 <= i < 21,
    ensures
        model_fits(3, true, i),
{
    reveal(E_PROB_MODEL);
    if i == 0 {
        assert(laplace::layout_fits(2816, 11392)) by {
            reveal_with_fuel(laplace::tail_start, 24);
        }
    }
    if i == 1 {
        assert(laplace::layout_fits(8064, 7296)) by {
            reveal_with_fuel(laplace::tail_start, 24);
        }
    }
    if i == 2 {
        assert(laplace::layout_fits(9472, 5248)) by {
            reveal_with_fuel(laplace::tail_start, 24);
        }
    }
    if i == 3 {
        assert(laplace::layout_fits(10752, 5312)) by {
            reveal_with_fuel(laplace::tail_start, 24);
        }
    }
    if i == 4 {
        assert(laplace::layout_fits(11776, 5248)) by {
            reveal_with_fuel(laplace::tail_start, 24);
        }
    }
    if i == 5 {
        assert(laplace::layout_fits(13184, 3968)) by {
            reveal_with_fuel(laplace::tail_start, 24);
        }
    }
    if i == 6 {
        assert(laplace::layout_fits(12288, 4608)) by {
            reveal_with_fuel(laplace::tail_start, 24);
        }
    }
    if i == 7 {
        assert(laplace::layout_fits(12288, 4288)) by {
            reveal_with_fuel(laplace::tail_start, 24);
        }
    }
    if i == 8 {
        assert(laplace::layout_fits(12928, 4672)) by {
            reveal_with_fuel(laplace::tail_start, 24);
        }
    }
    if i == 9 {
        assert(laplace::layout_fits(13696, 4608)) by {
            reveal_with_fuel(laplace::tail_start, 24);
        }
    }
    if i == 10 {
        assert(laplace::layout_fits(14464, 3520)) by {
            reveal_with_fuel(laplace::tail_start, 24);
        }
    }
    if i == 11 {
        assert(laplace::layout_fits(15104, 3328)) by {
            reveal_with_fuel(laplace::tail_start, 24);
        }
    }
    if i == 12 {
        assert(laplace::layout_fits(16000, 3328)) by {
            reveal_with_fuel(laplace::tail_start, 24);
        }
    }
    if i == 13 {
        assert(laplace::layout_fits(15104, 3328)) by {
            reveal_with_fuel(laplace::tail_start, 24);
        }
    }
    if i == 14 {
        assert(laplace::layout_fits(14976, 3520)) by {
            reveal_with_fuel(laplace::tail_start, 24);
        }
    }
    if i == 15 {
        assert(laplace::layout_fits(17280, 3136)) by {
            reveal_with_fuel(laplace::tail_start, 24);
        }
    }
    if i == 16 {
        assert(laplace::layout_fits(17536, 2496)) by {
            reveal_with_fuel(laplace::tail_start, 24);
        }
    }
    if i == 17 {
        assert(laplace::layout_fits(20096, 2048)) by {
            reveal_with_fuel(laplace::tail_start, 24);
        }
    }
    if i == 18 {
        assert(laplace::layout_fits(18560, 1856)) by {
            reveal_with_fuel(laplace::tail_start, 24);
        }
    }
    if i == 19 {
        assert(laplace::layout_fits(12416, 2112)) by {
            reveal_with_fuel(laplace::tail_start, 24);
        }
    }
    if i == 20 {
        assert(laplace::layout_fits(9856, 2560)) by {
            reveal_with_fuel(laplace::tail_start, 24);
        }
    }
}

} // verus!
