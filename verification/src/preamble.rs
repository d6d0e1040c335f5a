//! The chirp preamble: a sinusoid whose frequency sweeps linearly up over
//! the first half of the sequence and back down over the second half. Its
//! sharp autocorrelation peak is what the detector locks onto.

use vstd::prelude::*;
use crate::number::{FP, FP_PI_BITS, fp_add, fp_sub, fp_mul, fp_div, fp_of_int, fp_views};
use crate::detector::PREAMBLE_LENGTH;

verus! {

/// Raw value of the midpoint of the preamble, as the generator computes it.
pub open spec fn preamble_center() -> int {
    fp_div(fp_of_int(PREAMBLE_LENGTH as int), fp_of_int(2))
}

/// Raw value of the instantaneous frequency at a sample index: a linear
/// sweep from the low to the high frequency and back.
pub open spec fn chirp_frequency(i: int, freq_min: int, freq_max: int) -> int {
    let diff = fp_sub(fp_of_int(freq_max), fp_of_int(freq_min));
    if i < PREAMBLE_LENGTH / 2 {
        fp_add(fp_of_int(freq_min), fp_mul(diff, fp_div(fp_of_int(i), preamble_center())))
    } else {
        fp_sub(
            fp_of_int(freq_max),
            fp_mul(diff, fp_div(fp_sub(fp_of_int(i), preamble_center()), preamble_center())),
        )
    }
}

/// Raw value of the accumulated phase after the first `n` samples.
pub open spec fn chirp_integral(n: int, sample_rate: int, freq_min: int, freq_max: int) -> int
    decreases n,
{
    if n <= 0 {
        0
    } else {
        fp_add(
            chirp_integral(n - 1, sample_rate, freq_min, freq_max),
            fp_div(chirp_frequency(n - 1, freq_min, freq_max), fp_of_int(sample_rate)),
        )
    }
}

/// Raw value of preamble sample `i`: the sine of the accumulated phase
/// scaled by two pi.
pub open spec fn preamble_sample(i: int, sample_rate: int, freq_min: int, freq_max: int) -> int {
    crate::number::sin_bits_of(
        fp_mul(
            fp_mul(chirp_integral(i + 1, sample_rate, freq_min, freq_max), fp_of_int(2)),
            FP_PI_BITS as int,
        ),
    )
}

/// Generator of the deterministic chirp preamble.
pub struct PreambleSequence;

impl PreambleSequence {
    /// The preamble samples for a sample rate and a frequency band.
    pub fn new(sample_rate: usize, freq_min: usize, freq_max: usize) -> (r: Vec<FP>)
        requires
            1 <= sample_rate,
        ensures
            r@.len() == PREAMBLE_LENGTH,
            fp_views(r@) == Seq::new(
                PREAMBLE_LENGTH as nat,
                |i: int| preamble_sample(i, sample_rate as int, freq_min as int, freq_max as int),
            ),
    {
        let ghost sr = sample_rate as int;
        let ghost fmin = freq_min as int;
        let ghost fmax = freq_max as int;
        let frequency_diff = FP::from_usize(freq_max).sub(FP::from_usize(freq_min));
        let center = FP::from_usize(PREAMBLE_LENGTH).div(FP::from_usize(2));
        proof {
            assert(center@ == preamble_center());
            assert(fp_of_int(PREAMBLE_LENGTH as int) == 480 * 0x1_0000_0000);
            assert(fp_of_int(2) == 2 * 0x1_0000_0000);
            vstd::arithmetic::div_mod::lemma_fundamental_div_mod_converse(
                480int * 0x1_0000_0000int * 0x1_0000_0000int,
                2int * 0x1_0000_0000int,
                240int * 0x1_0000_0000int,
                0int,
            );
            assert(preamble_center() == 240 * 0x1_0000_0000);
        }
        let center_index = center.to_usize();
        proof {
            assert(center_index == PREAMBLE_LENGTH / 2);
        }
        let rate = FP::from_usize(sample_rate);
        let two = FP::from_usize(2);
        let pi = FP::pi();
        let mut integral = FP::zero();
        let mut r: Vec<FP> = Vec::new();
        let mut i: usize = 0;
        proof {
            assert(rate@ != 0) by {
                assert(sr * 0x1_0000_0000 >= 0x1_0000_0000);
            }
        }
        while i < PREAMBLE_LENGTH
            invariant
                i <= PREAMBLE_LENGTH,
                rate@ != 0,
                center@ == 240 * 0x1_0000_0000,
                sr == sample_rate as int,
                fmin == freq_min as int,
                fmax == freq_max as int,
                1 <= sample_rate,
                frequency_diff@ == fp_sub(fp_of_int(fmax), fp_of_int(fmin)),
                center@ == preamble_center(),
                center_index == PREAMBLE_LENGTH / 2,
                rate@ == fp_of_int(sr),
                two@ == fp_of_int(2),
                pi@ == FP_PI_BITS as int,
                integral@ == chirp_integral(i as int, sr, fmin, fmax),
                r@.len() == i,
                forall|k: int|
                    0 <= k < i ==> fp_views(r@)[k] == preamble_sample(k, sr, fmin, fmax),
            decreases PREAMBLE_LENGTH - i,
        {
            let frequency = if i < center_index {
                let ratio = FP::from_usize(i).div(center);
                FP::from_usize(freq_min).add(frequency_diff.mul(ratio))
            } else {
                let ratio = FP::from_usize(i).sub(center).div(center);
                FP::from_usize(freq_max).sub(frequency_diff.mul(ratio))
            };
            proof {
                assert(frequency@ == chirp_frequency(i as int, fmin, fmax));
            }
            integral = integral.add(frequency.div(rate));
            r.push(integral.mul(two).mul(pi).sin());
            i = i + 1;
        }
        proof {
            assert(fp_views(r@) =~= Seq::new(
                PREAMBLE_LENGTH as nat,
                |k: int| preamble_sample(k, sr, fmin, fmax),
            ));
        }
        r
    }
}

} // verus!
