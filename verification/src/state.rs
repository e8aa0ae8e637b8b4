//! The states a habit can be in, from healthiest to most decayed.

use vstd::prelude::*;

verus! {

/// How fresh a habit is. The variants are listed from healthiest to most
/// decayed; `Unknown` stands apart and says that there is too little history
/// to judge the cadence of a habit.
#[derive(Clone, Copy, Debug, PartialEq, Eq, Structural)]
pub enum HabitState {
    /// The healthiest state.
    VeryGood,
    /// Healthy.
    Good,
    /// Acceptable.
    OK,
    /// Barely acceptable.
    Sufficient,
    /// Overdue.
    Late,
    /// Too little history to tell.
    Unknown,
}

impl HabitState {
    /// The place of a state on the scale: 1 for `VeryGood` up to 5 for `Late`,
    /// and 6 for `Unknown`. A larger rank is a less healthy state.
    pub open spec fn rank(self) -> int {
        match self {
            HabitState::VeryGood => 1,
            HabitState::Good => 2,
            HabitState::OK => 3,
            HabitState::Sufficient => 4,
            HabitState::Late => 5,
            HabitState::Unknown => 6,
        }
    }

    /// The rank of this state as a number.
    pub fn index(&self) -> (n: u8)
        ensures
            n == self.rank(),
    {
        match self {
            HabitState::VeryGood => 1,
            HabitState::Good => 2,
            HabitState::OK => 3,
            HabitState::Sufficient => 4,
            HabitState::Late => 5,
            HabitState::Unknown => 6,
        }
    }

    /// The state of the given rank, if there is one.
    pub fn from_index(n: i64) -> (state: Option<HabitState>)
        ensures
            1 <= n <= 6 ==> state is Some && state->0.rank() == n,
            !(1 <= n <= 6) ==> state is None,
    {
        if n == 1 {
            Some(HabitState::VeryGood)
        } else if n == 2 {
            Some(HabitState::Good)
        } else if n == 3 {
            Some(HabitState::OK)
        } else if n == 4 {
            Some(HabitState::Sufficient)
        } else if n == 5 {
            Some(HabitState::Late)
        } else if n == 6 {
            Some(HabitState::Unknown)
        } else {
            None
        }
    }

    /// Two states of the same rank are the same state, so a rank names at most
    /// one state and `from_index` undoes `index`.
    pub proof fn lemma_rank_names_one_state(a: HabitState, b: HabitState)
        requires
            a.rank() == b.rank(),
        ensures
            a == b,
    {
    }
}

} // verus!
