//! The ways in which an operation of this library can fail.

use vstd::prelude::*;

verus! {

/// Why an operation refused to do its work.
#[derive(Clone, Copy, Debug, PartialEq, Eq, Structural)]
pub enum HabitError {
    /// The three thresholds are not in the order `good < ok < sufficient`.
    InvalidThresholds,
    /// The collection already holds a habit of that name.
    DuplicateName,
    /// The collection holds no habit of that name.
    NotFound,
    /// The habit was never done, so nothing can be said of its state.
    NoHistory,
    /// The reference day lies before the day on which the habit was last done.
    UnsupportedPastDate,
    /// What was stored is no history, no habit or no collection of habits.
    StorageCorrupt,
}

} // verus!
