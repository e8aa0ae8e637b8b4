//! One habit: its name, the days on which it was done, the days on which it
//! was skipped, and its thresholds.

use vstd::prelude::*;
use crate::date::Date;
use crate::error::HabitError;
use crate::history::{
    ascending, days_of, lemma_with_and_without_commute, lemma_with_day, lemma_with_days_commute,
    lemma_without_day, lemma_without_days_commute, with_day, without_day, History,
};
use crate::state::HabitState;
use crate::thresholds::{ThresholdSet, ThresholdSetView};

verus! {

/// The latest `count` of the days, or all of them where there are fewer.
pub open spec fn latest(days: Seq<int>, count: int) -> Seq<int> {
    if count <= 0 {
        Seq::empty()
    } else if count >= days.len() {
        days
    } else {
        days.subrange(days.len() - count, days.len() as int)
    }
}

/// The sum of the gaps between each day and the next one.
pub open spec fn gap_total(days: Seq<int>) -> int
    decreases days.len(),
{
    if days.len() < 2 {
        0
    } else {
        gap_total(days.drop_last()) + (days.last() - days[days.len() - 2])
    }
}

/// The gaps between neighbouring days add up to the gap between the first day
/// and the last.
pub proof fn lemma_gap_total_telescopes(days: Seq<int>)
    requires
        days.len() > 0,
    ensures
        gap_total(days) == days.last() - days.first(),
    decreases days.len(),
{
    if days.len() >= 2 {
        lemma_gap_total_telescopes(days.drop_last());
    }
}

/// A count of days, or the reason why there is none, with the count as a plain
/// integer.
pub open spec fn as_count(result: Result<i64, HabitError>) -> Result<int, HabitError> {
    match result {
        Ok(days) => Ok(days as int),
        Err(error) => Err(error),
    }
}

/// What a `HabitRecord` stands for.
pub struct HabitRecordView {
    /// The name by which the habit is known.
    pub name: Seq<char>,
    /// The day numbers of the days on which the habit was done.
    pub done: Seq<int>,
    /// The day numbers of the days on which the habit was skipped.
    pub skipped: Seq<int>,
    /// The thresholds of the habit.
    pub thresholds: ThresholdSetView,
}

impl HabitRecordView {
    /// The habit has a name, both histories rise strictly, no day is in both
    /// of them, and the thresholds are in order.
    pub open spec fn valid(self) -> bool {
        &&& self.name.len() > 0
        &&& ascending(self.done)
        &&& ascending(self.skipped)
        &&& forall|day: int| !(self.done.contains(day) && self.skipped.contains(day))
        &&& self.thresholds.valid()
    }

    /// A habit that was never done and never skipped.
    pub open spec fn fresh(name: Seq<char>, thresholds: ThresholdSetView) -> HabitRecordView {
        HabitRecordView { name, done: Seq::empty(), skipped: Seq::empty(), thresholds }
    }

    /// The habit after it was marked as done on `day`: the day is among the
    /// days done and not among the days skipped.
    pub open spec fn mark_done(self, day: int) -> HabitRecordView {
        HabitRecordView {
            done: with_day(self.done, day),
            skipped: without_day(self.skipped, day),
            ..self
        }
    }

    /// The habit after it was marked as skipped on `day`: the day is among the
    /// days skipped and not among the days done.
    pub open spec fn mark_skipped(self, day: int) -> HabitRecordView {
        HabitRecordView {
            done: without_day(self.done, day),
            skipped: with_day(self.skipped, day),
            ..self
        }
    }

    /// The days from the day on which the habit was last done to `today`.
    /// A habit that was never done has no such count, and none is given for a
    /// `today` that lies before the last day done.
    pub open spec fn days_since_done(self, today: int) -> Result<int, HabitError> {
        if self.done.len() == 0 {
            Err(HabitError::NoHistory)
        } else if today < self.done.last() {
            Err(HabitError::UnsupportedPastDate)
        } else {
            Ok(today - self.done.last())
        }
    }

    /// The state of the habit on `today`.
    pub open spec fn classify(self, today: int) -> Result<HabitState, HabitError> {
        match self.days_since_done(today) {
            Ok(elapsed) => Ok(self.thresholds.classify(elapsed)),
            Err(error) => Err(error),
        }
    }

    /// The days that are left on `today` before the habit decays to the next
    /// band.
    pub open spec fn days_left(self, today: int) -> Result<int, HabitError> {
        match self.days_since_done(today) {
            Ok(elapsed) => Ok(self.thresholds.days_left(elapsed)),
            Err(error) => Err(error),
        }
    }

    /// The state of the cadence of the habit over its latest `window_size`
    /// gaps: the gaps between the latest `window_size + 1` days done. Fewer
    /// than two such days leave no gap to judge, which is `Unknown`.
    pub open spec fn average_state(self, window_size: int) -> HabitState {
        let window = latest(self.done, window_size + 1);
        self.thresholds.cadence(gap_total(window), window.len() - 1)
    }

    /// Marking a day as done keeps a habit valid.
    pub proof fn lemma_mark_done_keeps_valid(self, day: int)
        requires
            self.valid(),
        ensures
            self.mark_done(day).valid(),
            self.mark_done(day).done.contains(day),
            !self.mark_done(day).skipped.contains(day),
    {
        lemma_with_day(self.done, day);
        lemma_without_day(self.skipped, day);
        let after = self.mark_done(day);
        assert forall|other: int|
            !(after.done.contains(other) && after.skipped.contains(other)) by {
            if after.done.contains(other) && after.skipped.contains(other) {
                assert(self.skipped.contains(other));
                assert(self.done.contains(other));
            }
        }
    }

    /// Marking a day as skipped keeps a habit valid.
    pub proof fn lemma_mark_skipped_keeps_valid(self, day: int)
        requires
            self.valid(),
        ensures
            self.mark_skipped(day).valid(),
            self.mark_skipped(day).skipped.contains(day),
            !self.mark_skipped(day).done.contains(day),
    {
        lemma_with_day(self.skipped, day);
        lemma_without_day(self.done, day);
        let after = self.mark_skipped(day);
        assert forall|other: int|
            !(after.done.contains(other) && after.skipped.contains(other)) by {
            if after.done.contains(other) && after.skipped.contains(other) {
                assert(self.done.contains(other));
                assert(self.skipped.contains(other));
            }
        }
    }

    /// A day that is marked as done and as skipped, in either order, ends up
    /// in exactly one of the two histories: the one of the mark that came
    /// last.
    pub proof fn lemma_last_mark_wins(self, day: int)
        requires
            self.valid(),
        ensures
            self.mark_done(day).mark_skipped(day).skipped.contains(day),
            !self.mark_done(day).mark_skipped(day).done.contains(day),
            self.mark_skipped(day).mark_done(day).done.contains(day),
            !self.mark_skipped(day).mark_done(day).skipped.contains(day),
    {
        self.lemma_mark_done_keeps_valid(day);
        self.lemma_mark_skipped_keeps_valid(day);
        self.mark_done(day).lemma_mark_skipped_keeps_valid(day);
        self.mark_skipped(day).lemma_mark_done_keeps_valid(day);
    }

    /// Marking a day that is already marked in the same way changes nothing.
    pub proof fn lemma_mark_twice_is_mark_once(self, day: int)
        requires
            self.valid(),
        ensures
            self.mark_done(day).mark_done(day) == self.mark_done(day),
            self.mark_skipped(day).mark_skipped(day) == self.mark_skipped(day),
    {
        self.lemma_mark_done_keeps_valid(day);
        self.lemma_mark_skipped_keeps_valid(day);
    }

    /// Marks on two different days can be made in either order.
    pub proof fn lemma_marks_on_two_days_commute(self, first: int, second: int)
        requires
            self.valid(),
            first != second,
        ensures
            self.mark_done(first).mark_done(second) == self.mark_done(second).mark_done(first),
            self.mark_skipped(first).mark_skipped(second) == self.mark_skipped(
                second,
            ).mark_skipped(first),
            self.mark_done(first).mark_skipped(second) == self.mark_skipped(second).mark_done(
                first,
            ),
    {
        lemma_with_days_commute(self.done, first, second);
        lemma_with_days_commute(self.skipped, first, second);
        lemma_without_days_commute(self.done, first, second);
        lemma_without_days_commute(self.skipped, first, second);
        lemma_with_and_without_commute(self.done, first, second);
        lemma_with_and_without_commute(self.skipped, second, first);
    }

    /// Between the day on which a habit was last done and any later day, the
    /// habit has a state on both days, and the state of the later day does not
    /// rank below that of the earlier day.
    pub proof fn lemma_classify_decays(self, earlier: int, later: int)
        requires
            self.valid(),
            self.done.len() > 0,
            self.done.last() <= earlier <= later,
        ensures
            self.classify(earlier) is Ok,
            self.classify(later) is Ok,
            self.classify(earlier)->Ok_0.rank() <= self.classify(later)->Ok_0.rank(),
    {
        self.thresholds.lemma_classify_monotonic(
            earlier - self.done.last(),
            later - self.done.last(),
        );
    }

    /// The day from which the days since the habit was done are counted is
    /// the latest of the days done.
    pub proof fn lemma_counts_from_latest(self)
        requires
            self.valid(),
            self.done.len() > 0,
        ensures
            self.done.contains(self.done.last()),
            forall|day: int| self.done.contains(day) ==> day <= self.done.last(),
    {
    }
}

/// A habit: its name, its history and its thresholds.
#[derive(Debug)]
pub struct HabitRecord {
    name: String,
    done: History,
    skipped: History,
    thresholds: ThresholdSet,
}

impl View for HabitRecord {
    type V = HabitRecordView;

    closed spec fn view(&self) -> HabitRecordView {
        HabitRecordView {
            name: self.name@,
            done: self.done@,
            skipped: self.skipped@,
            thresholds: self.thresholds@,
        }
    }
}

impl HabitRecord {
    /// Every habit that exists is valid.
    #[verifier::type_invariant]
    pub open spec fn inv(&self) -> bool {
        self@.valid()
    }

    /// A habit of the given name and thresholds that was never done and never
    /// skipped. A habit's name is not empty.
    pub fn new(name: &str, thresholds: ThresholdSet) -> (record: HabitRecord)
        requires
            name@.len() > 0,
        ensures
            record@ == HabitRecordView::fresh(name@, thresholds@),
            record@.valid(),
    {
        proof {
            use_type_invariant(&thresholds);
        }
        HabitRecord {
            name: name.to_owned(),
            done: History::new(),
            skipped: History::new(),
            thresholds,
        }
    }

    /// The habit of the given name and thresholds with the given days done
    /// and days skipped, as it was stored. What does not make a valid habit is
    /// refused: an empty name, days that do not rise strictly, or a day that
    /// is both done and skipped.
    pub fn restore(
        name: &str,
        thresholds: ThresholdSet,
        done: Vec<Date>,
        skipped: Vec<Date>,
    ) -> (restored: Result<HabitRecord, HabitError>)
        ensures
            ({
                let stored = HabitRecordView {
                    name: name@,
                    done: days_of(done@),
                    skipped: days_of(skipped@),
                    thresholds: thresholds@,
                };
                &&& restored is Ok <==> stored.valid()
                &&& restored is Ok ==> restored->Ok_0@ == stored
                &&& restored is Err ==> restored->Err_0 == HabitError::StorageCorrupt
            }),
    {
        proof {
            use_type_invariant(&thresholds);
        }
        if name.is_empty() {
            return Err(HabitError::StorageCorrupt);
        }
        let done = match History::from_dates(done) {
            Ok(done) => done,
            Err(error) => {
                return Err(error);
            },
        };
        let skipped = match History::from_dates(skipped) {
            Ok(skipped) => skipped,
            Err(error) => {
                return Err(error);
            },
        };
        if done.shares_a_day_with(&skipped) {
            return Err(HabitError::StorageCorrupt);
        }
        Ok(HabitRecord { name: name.to_owned(), done, skipped, thresholds })
    }

    /// The name of the habit.
    pub fn name(&self) -> (name: &str)
        ensures
            name@ == self@.name,
    {
        self.name.as_str()
    }

    /// The days on which the habit was done.
    pub fn done(&self) -> (done: &History)
        ensures
            done@ == self@.done,
    {
        &self.done
    }

    /// The days on which the habit was skipped.
    pub fn skipped(&self) -> (skipped: &History)
        ensures
            skipped@ == self@.skipped,
    {
        &self.skipped
    }

    /// Whether the habit goes by the given name.
    pub fn is_named(&self, name: &String) -> (same: bool)
        ensures
            same <==> self@.name == name@,
    {
        self.name == *name
    }

    /// Whether the two habits go by the same name.
    pub fn shares_name_with(&self, other: &HabitRecord) -> (same: bool)
        ensures
            same <==> self@.name == other@.name,
    {
        self.name == other.name
    }

    /// The thresholds of the habit.
    pub fn thresholds(&self) -> (thresholds: ThresholdSet)
        ensures
            thresholds@ == self@.thresholds,
    {
        self.thresholds
    }

    /// Marks the habit as done on `date`, and no longer as skipped on it.
    pub fn mark_done(&mut self, date: Date)
        ensures
            final(self)@ == old(self)@.mark_done(date@),
            final(self)@.valid(),
    {
        proof {
            use_type_invariant(&*self);
            self@.lemma_mark_done_keeps_valid(date@);
            lemma_without_day(self@.skipped, date@);
        }
        // The day leaves the days skipped before it joins the days done, so
        // that it is never in both.
        let mut skipped = History::new();
        core::mem::swap(&mut self.skipped, &mut skipped);
        skipped.remove(date);
        self.skipped = skipped;
        let mut done = History::new();
        core::mem::swap(&mut self.done, &mut done);
        done.insert(date);
        self.done = done;
    }

    /// Marks the habit as skipped on `date`, and no longer as done on it.
    pub fn mark_skipped(&mut self, date: Date)
        ensures
            final(self)@ == old(self)@.mark_skipped(date@),
            final(self)@.valid(),
    {
        proof {
            use_type_invariant(&*self);
            self@.lemma_mark_skipped_keeps_valid(date@);
            lemma_without_day(self@.done, date@);
        }
        // The day leaves the days done before it joins the days skipped, so
        // that it is never in both.
        let mut done = History::new();
        core::mem::swap(&mut self.done, &mut done);
        done.remove(date);
        self.done = done;
        let mut skipped = History::new();
        core::mem::swap(&mut self.skipped, &mut skipped);
        skipped.insert(date);
        self.skipped = skipped;
    }

    /// The days from the day on which the habit was last done to `today`.
    pub fn days_since_done(&self, today: &Date) -> (elapsed: Result<i64, HabitError>)
        ensures
            as_count(elapsed) == self@.days_since_done(today@),
            elapsed matches Ok(days) ==> 0 <= days < 0x1_0000_0000,
    {
        match self.done.last() {
            None => Err(HabitError::NoHistory),
            Some(latest) => {
                if today.day_number() < latest.day_number() {
                    Err(HabitError::UnsupportedPastDate)
                } else {
                    Ok(today.days_since(&latest))
                }
            },
        }
    }

    /// The state of the habit on `today`.
    pub fn classify(&self, today: &Date) -> (state: Result<HabitState, HabitError>)
        ensures
            state == self@.classify(today@),
    {
        match self.days_since_done(today) {
            Ok(elapsed) => Ok(self.thresholds.classify(elapsed)),
            Err(error) => Err(error),
        }
    }

    /// The days that are left on `today` before the habit decays to the next
    /// band.
    pub fn days_left(&self, today: &Date) -> (left: Result<i64, HabitError>)
        ensures
            as_count(left) == self@.days_left(today@),
    {
        match self.days_since_done(today) {
            Ok(elapsed) => Ok(self.thresholds.days_left(elapsed)),
            Err(error) => Err(error),
        }
    }

    /// The state of the cadence of the habit over its latest `window_size`
    /// gaps.
    pub fn average_state(&self, window_size: usize) -> (state: HabitState)
        ensures
            state == self@.average_state(window_size as int),
    {
        let count = self.done.len();
        if count == 0 {
            return HabitState::Unknown;
        }
        let gaps = if window_size < count - 1 {
            window_size
        } else {
            count - 1
        };
        let ghost days = self@.done;
        let ghost window = latest(days, window_size as int + 1);
        proof {
            assert(window =~= days.subrange(count - 1 - gaps, count as int));
            self.done.lemma_days_fit();
        }
        let mut total: i64 = 0;
        let mut taken: usize = 0;
        while taken < gaps
            invariant
                days == self.done@,
                count == days.len(),
                gaps < count,
                taken <= gaps,
                forall|i: int| 0 <= i < count ==> i32::MIN <= #[trigger] days[i] <= i32::MAX,
                total == days[count - 1] - days[count - 1 - taken],
            decreases gaps - taken,
        {
            let later = self.done.day_at(count - 1 - taken);
            let before = self.done.day_at(count - 2 - taken);
            total = total + later.days_since(&before);
            taken = taken + 1;
        }
        proof {
            lemma_gap_total_telescopes(window);
            assert(total == gap_total(window));
        }
        self.thresholds.cadence(total, gaps)
    }
}

} // verus!
