//! The three thresholds of a habit.

use vstd::prelude::*;
use crate::error::HabitError;

verus! {

/// What a `ThresholdSet` stands for: three counts of days.
pub struct ThresholdSetView {
    /// The count of days at which a habit stops being good.
    pub good: int,
    /// The count of days at which a habit stops being ok.
    pub ok: int,
    /// The count of days at which a habit becomes late.
    pub sufficient: int,
}

impl ThresholdSetView {
    /// The thresholds are in strictly rising order.
    pub open spec fn valid(self) -> bool {
        self.good < self.ok < self.sufficient
    }
}

/// Three thresholds in days, `good < ok < sufficient`, that mark where the
/// state of a habit decays. A set cannot be changed once it is made.
#[derive(Clone, Copy, Debug, PartialEq, Eq)]
pub struct ThresholdSet {
    good: i32,
    ok: i32,
    sufficient: i32,
}

impl View for ThresholdSet {
    type V = ThresholdSetView;

    closed spec fn view(&self) -> ThresholdSetView {
        ThresholdSetView {
            good: self.good as int,
            ok: self.ok as int,
            sufficient: self.sufficient as int,
        }
    }
}

impl ThresholdSet {
    /// Every threshold set that exists is in rising order.
    #[verifier::type_invariant]
    pub open spec fn inv(&self) -> bool {
        self@.valid()
    }

    /// The set with the given thresholds, provided that they rise strictly;
    /// any other order is refused.
    pub fn new(good: i32, ok: i32, sufficient: i32) -> (made: Result<ThresholdSet, HabitError>)
        ensures
            made is Ok <==> good < ok < sufficient,
            made is Ok ==> made->Ok_0@.valid() && made->Ok_0@ == (ThresholdSetView {
                good: good as int,
                ok: ok as int,
                sufficient: sufficient as int,
            }),
            made is Err ==> made->Err_0 == HabitError::InvalidThresholds,
    {
        if good < ok && ok < sufficient {
            Ok(ThresholdSet { good, ok, sufficient })
        } else {
            Err(HabitError::InvalidThresholds)
        }
    }

    /// The first threshold: the count of days at which a habit stops being
    /// good.
    pub fn good(&self) -> (days: i32)
        ensures
            days == self@.good,
            self@.valid(),
    {
        proof {
            use_type_invariant(self);
        }
        self.good
    }

    /// The second threshold: the count of days at which a habit stops being
    /// ok.
    pub fn ok(&self) -> (days: i32)
        ensures
            days == self@.ok,
            self@.valid(),
    {
        proof {
            use_type_invariant(self);
        }
        self.ok
    }

    /// The third threshold: the count of days at which a habit becomes late.
    pub fn sufficient(&self) -> (days: i32)
        ensures
            days == self@.sufficient,
            self@.valid(),
    {
        proof {
            use_type_invariant(self);
        }
        self.sufficient
    }
}

} // verus!
