//! Exponential moving averages on integers.

use vstd::prelude::*;

verus! {

/// The largest value an average or a sample may take.
pub const AVERAGE_LIMIT: u64 = 0x0100_0000_0000_0000;

/// The average after `sample`, weighted `alpha_percent` against the old
/// average, rounded down.
pub open spec fn ema(average: int, sample: int, alpha_percent: int) -> int {
    (sample * alpha_percent + average * (100 - alpha_percent)) / 100
}

/// A quantity that can be smoothed by an exponential moving average.
pub trait MovingAverage: Sized {
    /// The inputs stay within the range the arithmetic can hold.
    spec fn in_range(average: Self, sample: Self, alpha_percent: Self) -> bool;

    /// The smoothed value.
    spec fn spec_ema(average: Self, sample: Self, alpha_percent: Self) -> Self;

    fn exponential_moving_average(&mut self, sample: Self, alpha_percent: Self)
        requires
            Self::in_range(*old(self), sample, alpha_percent),
        ensures
            *final(self) == Self::spec_ema(*old(self), sample, alpha_percent),
    ;
}

impl MovingAverage for u64 {
    open spec fn in_range(average: u64, sample: u64, alpha_percent: u64) -> bool {
        average <= AVERAGE_LIMIT && sample <= AVERAGE_LIMIT && alpha_percent <= 100
    }

    open spec fn spec_ema(average: u64, sample: u64, alpha_percent: u64) -> u64 {
        ema(average as int, sample as int, alpha_percent as int) as u64
    }

    fn exponential_moving_average(&mut self, sample: u64, alpha_percent: u64) {
        let a = *self;
        assert(sample * alpha_percent <= AVERAGE_LIMIT * 100) by (nonlinear_arith)
            requires
                sample <= AVERAGE_LIMIT,
                alpha_percent <= 100,
        ;
        assert(a * (100 - alpha_percent) <= AVERAGE_LIMIT * 100) by (nonlinear_arith)
            requires
                a <= AVERAGE_LIMIT,
                alpha_percent <= 100,
        ;
        *self = (sample * alpha_percent + a * (100 - alpha_percent)) / 100;
    }
}

/// The average stays within the larger of the old average and the sample.
pub proof fn lemma_ema_bounded(average: int, sample: int, alpha_percent: int, bound: int)
    requires
        0 <= average <= bound,
        0 <= sample <= bound,
        0 <= alpha_percent <= 100,
    ensures
        0 <= ema(average, sample, alpha_percent) <= bound,
{
    assert(sample * alpha_percent + average * (100 - alpha_percent) <= bound * 100) by (nonlinear_arith)
        requires
            0 <= average <= bound,
            0 <= sample <= bound,
            0 <= alpha_percent <= 100,
    ;
    assert(0 <= sample * alpha_percent + average * (100 - alpha_percent)) by (nonlinear_arith)
        requires
            0 <= average,
            0 <= sample,
            0 <= alpha_percent <= 100,
    ;
}

} // verus!
