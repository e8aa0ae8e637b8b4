//! From a count of days to a state: the decay curve of a habit, the days that
//! are left before it decays further, and the state of its cadence.

use vstd::prelude::*;
use crate::state::HabitState;
use crate::thresholds::{ThresholdSet, ThresholdSetView};

verus! {

impl ThresholdSetView {
    /// The state of a habit that was last done `elapsed` days ago.
    ///
    /// The three thresholds less `elapsed` are tried in a fixed order and the
    /// first rule that applies decides: good above 1 is `VeryGood`, good at 1
    /// is `Good`, good at 0 is `OK`, ok above 0 is `OK`, ok at 0 is
    /// `Sufficient`, sufficient above 0 is `Sufficient`, and all else is `Late`.
    pub open spec fn classify(self, elapsed: int) -> HabitState {
        let good_left = self.good - elapsed;
        let ok_left = self.ok - elapsed;
        let sufficient_left = self.sufficient - elapsed;
        if good_left > 1 {
            HabitState::VeryGood
        } else if good_left == 1 {
            HabitState::Good
        } else if good_left == 0 {
            HabitState::OK
        } else if ok_left > 0 {
            HabitState::OK
        } else if ok_left == 0 {
            HabitState::Sufficient
        } else if sufficient_left > 0 {
            HabitState::Sufficient
        } else {
            HabitState::Late
        }
    }

    /// The days that are left before a habit last done `elapsed` days ago
    /// decays to the next band: the threshold of the band it was in a day
    /// earlier, less `elapsed`. The count is signed: once a habit has been late
    /// for a day it is negative.
    pub open spec fn days_left(self, elapsed: int) -> int {
        match self.classify(elapsed - 1) {
            HabitState::VeryGood | HabitState::Good => self.good - elapsed,
            HabitState::OK => self.ok - elapsed,
            HabitState::Sufficient | HabitState::Late => self.sufficient - elapsed,
            HabitState::Unknown => 0,
        }
    }

    /// The state of a cadence of `gaps` gaps that add up to `total` days.
    ///
    /// With no gap there is no cadence to judge. Otherwise the mean gap,
    /// `total / gaps`, is held against the thresholds in rising order and the
    /// first one that it does not exceed decides; a mean gap above all three is
    /// `Late`. The mean is taken exactly: it is at most a threshold when
    /// `total` is at most that threshold times `gaps`.
    pub open spec fn cadence(self, total: int, gaps: int) -> HabitState {
        if gaps <= 0 {
            HabitState::Unknown
        } else if total <= self.good * gaps {
            HabitState::Good
        } else if total <= self.ok * gaps {
            HabitState::OK
        } else if total <= self.sufficient * gaps {
            HabitState::Sufficient
        } else {
            HabitState::Late
        }
    }

    /// Classification never answers `Unknown`.
    pub proof fn lemma_classify_is_known(self, elapsed: int)
        ensures
            self.classify(elapsed) != HabitState::Unknown,
    {
    }

    /// With thresholds in rising order the rules of `classify` cut the days
    /// into five bands: `VeryGood` before the day that precedes the good
    /// threshold, `Good` on that day, `OK` from the good threshold on,
    /// `Sufficient` from the ok threshold on, `Late` from the sufficient
    /// threshold on.
    pub proof fn lemma_classify_bands(self, elapsed: int)
        requires
            self.valid(),
        ensures
            self.classify(elapsed) == HabitState::VeryGood <==> elapsed < self.good - 1,
            self.classify(elapsed) == HabitState::Good <==> elapsed == self.good - 1,
            self.classify(elapsed) == HabitState::OK <==> self.good <= elapsed < self.ok,
            self.classify(elapsed) == HabitState::Sufficient <==> self.ok <= elapsed
                < self.sufficient,
            self.classify(elapsed) == HabitState::Late <==> self.sufficient <= elapsed,
    {
    }

    /// A habit never gets healthier by waiting: as the days since it was done
    /// grow, the rank of its state does not fall.
    pub proof fn lemma_classify_monotonic(self, earlier: int, later: int)
        requires
            earlier <= later,
        ensures
            self.classify(earlier).rank() <= self.classify(later).rank(),
    {
    }

    /// Up to the day on which a habit becomes late, `days_left` counts the days
    /// to the next day on which the habit enters a later band: it is not
    /// negative, and on the day it points at the state ranks above the state
    /// of the day before. After that day `days_left` is negative.
    pub proof fn lemma_days_left_points_at_decay(self, elapsed: int)
        requires
            self.valid(),
        ensures
            elapsed <= self.sufficient ==> self.days_left(elapsed) >= 0 && self.classify(
                elapsed + self.days_left(elapsed) - 1,
            ).rank() < self.classify(elapsed + self.days_left(elapsed)).rank(),
            elapsed > self.sufficient ==> self.days_left(elapsed) < 0,
    {
    }

    /// A cadence never gets healthier by slowing down: over the same number of
    /// gaps, a larger total does not lower the rank of the state.
    pub proof fn lemma_cadence_monotonic(self, total: int, larger: int, gaps: int)
        requires
            total <= larger,
        ensures
            self.cadence(total, gaps).rank() <= self.cadence(larger, gaps).rank(),
    {
    }
}

/// A threshold of 32 bits times a count of 64 bits fits in 128 bits.
proof fn lemma_product_fits(threshold: int, count: int)
    requires
        i32::MIN <= threshold <= i32::MAX,
        0 <= count <= u64::MAX,
    ensures
        i128::MIN <= threshold * count <= i128::MAX,
{
    assert(-0x8000_0000 * 0x1_0000_0000_0000_0000 <= threshold * count <= 0x8000_0000
        * 0x1_0000_0000_0000_0000) by (nonlinear_arith)
        requires
            -0x8000_0000 <= threshold <= 0x8000_0000,
            0 <= count <= 0x1_0000_0000_0000_0000,
    ;
}

impl ThresholdSet {
    /// The state of a habit that was last done `elapsed` days ago. It is never
    /// `Unknown`.
    pub fn classify(&self, elapsed: i64) -> (state: HabitState)
        ensures
            state == self@.classify(elapsed as int),
            state != HabitState::Unknown,
    {
        let good_left: i128 = self.good() as i128 - elapsed as i128;
        let ok_left: i128 = self.ok() as i128 - elapsed as i128;
        let sufficient_left: i128 = self.sufficient() as i128 - elapsed as i128;
        if good_left > 1 {
            HabitState::VeryGood
        } else if good_left == 1 {
            HabitState::Good
        } else if good_left == 0 {
            HabitState::OK
        } else if ok_left > 0 {
            HabitState::OK
        } else if ok_left == 0 {
            HabitState::Sufficient
        } else if sufficient_left > 0 {
            HabitState::Sufficient
        } else {
            HabitState::Late
        }
    }

    /// The days that are left before a habit last done `elapsed` days ago
    /// decays to the next band. The answer is a 64-bit count, so `elapsed` has
    /// to leave room for a threshold of 32 bits.
    pub fn days_left(&self, elapsed: i64) -> (left: i64)
        requires
            i64::MIN + 0x8000_0000 <= elapsed <= i64::MAX - 0x8000_0000,
        ensures
            left == self@.days_left(elapsed as int),
    {
        match self.classify(elapsed - 1) {
            HabitState::VeryGood | HabitState::Good => self.good() as i64 - elapsed,
            HabitState::OK => self.ok() as i64 - elapsed,
            HabitState::Sufficient | HabitState::Late => self.sufficient() as i64 - elapsed,
            HabitState::Unknown => 0,
        }
    }

    /// The state of a cadence of `gaps` gaps that add up to `total` days.
    pub fn cadence(&self, total: i64, gaps: usize) -> (state: HabitState)
        ensures
            state == self@.cadence(total as int, gaps as int),
    {
        if gaps == 0 {
            return HabitState::Unknown;
        }
        let good = self.good();
        let ok = self.ok();
        let sufficient = self.sufficient();
        let count: i128 = gaps as i128;
        let sum: i128 = total as i128;
        proof {
            lemma_product_fits(good as int, gaps as int);
            lemma_product_fits(ok as int, gaps as int);
            lemma_product_fits(sufficient as int, gaps as int);
        }
        if sum <= good as i128 * count {
            HabitState::Good
        } else if sum <= ok as i128 * count {
            HabitState::OK
        } else if sum <= sufficient as i128 * count {
            HabitState::Sufficient
        } else {
            HabitState::Late
        }
    }
}

} // verus!
