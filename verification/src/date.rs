//! Calendar days as day numbers.

use vstd::prelude::*;

verus! {

/// A calendar day, held as its day number in the proleptic Gregorian calendar:
/// 1 January of the year 1 is day 1, and each later day counts one more.
///
/// Every `i32` is a day number; only differences and order of day numbers
/// matter to this library.
#[derive(Clone, Copy, Debug, PartialEq, Eq, Structural)]
pub struct Date {
    day: i32,
}

impl View for Date {
    type V = int;

    closed spec fn view(&self) -> int {
        self.day as int
    }
}

impl Date {
    /// The day with the given day number.
    pub fn new(day: i32) -> (date: Date)
        ensures
            date@ == day,
    {
        Date { day }
    }

    /// This day's day number.
    pub fn day_number(&self) -> (day: i32)
        ensures
            day == self@,
    {
        self.day
    }

    /// A day number fits in 32 bits.
    pub proof fn lemma_day_number_fits(self)
        ensures
            i32::MIN <= self@ <= i32::MAX,
    {
    }

    /// The number of whole days from `earlier` to this day; negative when
    /// `earlier` is the later of the two.
    pub fn days_since(&self, earlier: &Date) -> (days: i64)
        ensures
            days == self@ - earlier@,
            -0x1_0000_0000 < days < 0x1_0000_0000,
    {
        let later: i64 = self.day as i64;
        let before: i64 = earlier.day as i64;
        later - before
    }
}

} // verus!
