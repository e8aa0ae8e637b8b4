//! A history: the days on which something happened, each once, in rising
//! order.

use vstd::prelude::*;
use crate::date::Date;
use crate::error::HabitError;

verus! {

/// The day numbers of a sequence of dates, in the same order.
pub open spec fn days_of(dates: Seq<Date>) -> Seq<int> {
    dates.map_values(|date: Date| date@)
}

/// The days rise strictly, so none occurs twice.
pub open spec fn ascending(days: Seq<int>) -> bool {
    forall|i: int, j: int| 0 <= i < j < days.len() ==> days[i] < days[j]
}

/// How many of the days come before `day`.
pub open spec fn rank_of(days: Seq<int>, day: int) -> int
    decreases days.len(),
{
    if days.len() == 0 {
        0
    } else {
        rank_of(days.drop_last(), day) + if days.last() < day {
            1int
        } else {
            0int
        }
    }
}

/// The days with `day` among them: put in at its place if it was missing,
/// else the days as they were.
pub open spec fn with_day(days: Seq<int>, day: int) -> Seq<int> {
    if days.contains(day) {
        days
    } else {
        days.insert(rank_of(days, day), day)
    }
}

/// The days without `day`: taken out of its place if it was there, else the
/// days as they were.
pub open spec fn without_day(days: Seq<int>, day: int) -> Seq<int> {
    if days.contains(day) {
        days.remove(rank_of(days, day))
    } else {
        days
    }
}

/// In rising days, the days before `day` are exactly the first `rank_of` ones.
pub proof fn lemma_rank_splits(days: Seq<int>, day: int)
    requires
        ascending(days),
    ensures
        0 <= rank_of(days, day) <= days.len(),
        forall|i: int| 0 <= i < days.len() ==> (days[i] < day <==> i < rank_of(days, day)),
    decreases days.len(),
{
    if days.len() > 0 {
        let front = days.drop_last();
        lemma_rank_splits(front, day);
        assert forall|i: int| 0 <= i < days.len() implies (days[i] < day <==> i < rank_of(
            days,
            day,
        )) by {
            if i < front.len() {
                assert(front[i] == days[i]);
            }
        }
    }
}

/// A place that parts rising days into those before `day` and the rest is the
/// rank of `day`.
pub proof fn lemma_rank_is_the_split(days: Seq<int>, day: int, place: int)
    requires
        ascending(days),
        0 <= place <= days.len(),
        forall|i: int| 0 <= i < place ==> days[i] < day,
        forall|i: int| place <= i < days.len() ==> days[i] >= day,
    ensures
        rank_of(days, day) == place,
{
    lemma_rank_splits(days, day);
    let rank = rank_of(days, day);
    if rank < place {
        assert(days[rank] < day);
    } else if rank > place {
        assert(days[place] >= day);
    }
}

/// In rising days, `day` is present exactly when it stands at its rank.
pub proof fn lemma_present_at_rank(days: Seq<int>, day: int)
    requires
        ascending(days),
    ensures
        0 <= rank_of(days, day) <= days.len(),
        days.contains(day) <==> rank_of(days, day) < days.len() && days[rank_of(days, day)]
            == day,
{
    lemma_rank_splits(days, day);
}

/// Putting a day into rising days keeps them rising and adds that day and no
/// other.
pub proof fn lemma_with_day(days: Seq<int>, day: int)
    requires
        ascending(days),
    ensures
        ascending(with_day(days, day)),
        forall|other: int|
            #![trigger with_day(days, day).contains(other)]
            #![trigger days.contains(other)]
            with_day(days, day).contains(other) <==> (days.contains(other) || other == day),
        with_day(days, day).len() == days.len() + if days.contains(day) {
            0int
        } else {
            1int
        },
{
    let after = with_day(days, day);
    if !days.contains(day) {
        lemma_rank_splits(days, day);
        let rank = rank_of(days, day);
        days.insert_ensures(rank, day);
        assert(ascending(after));
        assert forall|other: int| days.contains(other) || other == day implies after.contains(
            other,
        ) by {
            if other == day {
                assert(after[rank] == other);
            } else {
                let at = choose|i: int| 0 <= i < days.len() && days[i] == other;
                if at < rank {
                    assert(after[at] == other);
                } else {
                    assert(after[at + 1] == other);
                }
            }
        }
    }
}

/// Taking a day out of rising days keeps them rising and removes that day and
/// no other.
pub proof fn lemma_without_day(days: Seq<int>, day: int)
    requires
        ascending(days),
    ensures
        ascending(without_day(days, day)),
        forall|other: int|
            #![trigger without_day(days, day).contains(other)]
            #![trigger days.contains(other)]
            without_day(days, day).contains(other) <==> (days.contains(other) && other != day),
        without_day(days, day).len() == days.len() - if days.contains(day) {
            1int
        } else {
            0int
        },
{
    let after = without_day(days, day);
    if days.contains(day) {
        lemma_present_at_rank(days, day);
        let rank = rank_of(days, day);
        days.remove_ensures(rank);
        assert(ascending(after));
        assert forall|other: int| days.contains(other) && other != day implies after.contains(
            other,
        ) by {
            let at = choose|i: int| 0 <= i < days.len() && days[i] == other;
            if at < rank {
                assert(after[at] == other);
            } else {
                assert(after[at - 1] == other);
            }
        }
    }
}

/// Rising days are known by what they hold: two histories with the same days
/// are the same sequence.
pub proof fn lemma_ascending_is_determined(left: Seq<int>, right: Seq<int>)
    requires
        ascending(left),
        ascending(right),
        forall|day: int| left.contains(day) <==> right.contains(day),
    ensures
        left == right,
    decreases left.len(),
{
    if left.len() == 0 {
        if right.len() > 0 {
            assert(right.contains(right[0]));
        }
        assert(left =~= right);
    } else {
        // Each side holds the last day of the other, so the two last days are
        // one day, and the days before it are the same on both sides.
        assert(left.contains(left.last()));
        assert(right.contains(right.last()));
        assert(left.last() == right.last());
        let left_front = left.drop_last();
        let right_front = right.drop_last();
        assert forall|day: int| left_front.contains(day) implies right_front.contains(day) by {
            let at = choose|i: int| 0 <= i < left_front.len() && left_front[i] == day;
            assert(left[at] == day);
            assert(left.contains(day));
            let there = choose|i: int| 0 <= i < right.len() && right[i] == day;
            assert(right_front[there] == day);
        }
        assert forall|day: int| right_front.contains(day) implies left_front.contains(day) by {
            let at = choose|i: int| 0 <= i < right_front.len() && right_front[i] == day;
            assert(right[at] == day);
            assert(right.contains(day));
            let there = choose|i: int| 0 <= i < left.len() && left[i] == day;
            assert(left_front[there] == day);
        }
        lemma_ascending_is_determined(left_front, right_front);
        assert(left =~= left_front.push(left.last()));
        assert(right =~= right_front.push(right.last()));
    }
}

/// Days that are put into rising days end up the same in either order.
pub proof fn lemma_with_days_commute(days: Seq<int>, first: int, second: int)
    requires
        ascending(days),
    ensures
        with_day(with_day(days, first), second) == with_day(with_day(days, second), first),
{
    lemma_with_day(days, first);
    lemma_with_day(days, second);
    lemma_with_day(with_day(days, first), second);
    lemma_with_day(with_day(days, second), first);
    let one_way = with_day(with_day(days, first), second);
    let other_way = with_day(with_day(days, second), first);
    assert forall|day: int| one_way.contains(day) <==> other_way.contains(day) by {
        let in_first = with_day(days, first).contains(day);
        let in_second = with_day(days, second).contains(day);
        assert(one_way.contains(day) <==> in_first || day == second);
        assert(other_way.contains(day) <==> in_second || day == first);
    }
    lemma_ascending_is_determined(
        with_day(with_day(days, first), second),
        with_day(with_day(days, second), first),
    );
}

/// Days that are taken out of rising days leave the same in either order.
pub proof fn lemma_without_days_commute(days: Seq<int>, first: int, second: int)
    requires
        ascending(days),
    ensures
        without_day(without_day(days, first), second) == without_day(
            without_day(days, second),
            first,
        ),
{
    lemma_without_day(days, first);
    lemma_without_day(days, second);
    lemma_without_day(without_day(days, first), second);
    lemma_without_day(without_day(days, second), first);
    let one_way = without_day(without_day(days, first), second);
    let other_way = without_day(without_day(days, second), first);
    assert forall|day: int| one_way.contains(day) <==> other_way.contains(day) by {
        let in_first = without_day(days, first).contains(day);
        let in_second = without_day(days, second).contains(day);
        assert(one_way.contains(day) <==> in_first && day != second);
        assert(other_way.contains(day) <==> in_second && day != first);
    }
    lemma_ascending_is_determined(
        without_day(without_day(days, first), second),
        without_day(without_day(days, second), first),
    );
}

/// Putting one day in and taking another day out can be done in either order.
pub proof fn lemma_with_and_without_commute(days: Seq<int>, put: int, taken: int)
    requires
        ascending(days),
        put != taken,
    ensures
        without_day(with_day(days, put), taken) == with_day(without_day(days, taken), put),
{
    lemma_with_day(days, put);
    lemma_without_day(days, taken);
    lemma_without_day(with_day(days, put), taken);
    lemma_with_day(without_day(days, taken), put);
    let one_way = without_day(with_day(days, put), taken);
    let other_way = with_day(without_day(days, taken), put);
    assert forall|day: int| one_way.contains(day) <==> other_way.contains(day) by {
        let in_put = with_day(days, put).contains(day);
        let in_taken = without_day(days, taken).contains(day);
        assert(one_way.contains(day) <==> in_put && day != taken);
        assert(other_way.contains(day) <==> in_taken || day == put);
    }
    lemma_ascending_is_determined(
        without_day(with_day(days, put), taken),
        with_day(without_day(days, taken), put),
    );
}

/// The days on which something happened: each day once, in rising order.
#[derive(Debug)]
pub struct History {
    dates: Vec<Date>,
}

impl View for History {
    type V = Seq<int>;

    closed spec fn view(&self) -> Seq<int> {
        days_of(self.dates@)
    }
}

impl History {
    /// Every history that exists holds rising days.
    #[verifier::type_invariant]
    pub open spec fn inv(&self) -> bool {
        ascending(self@)
    }

    /// The history in which nothing has happened yet.
    pub fn new() -> (history: History)
        ensures
            history@ == Seq::<int>::empty(),
            ascending(history@),
    {
        History { dates: Vec::new() }
    }

    /// The history that holds the given days, which have to rise strictly:
    /// days that are out of order, or that hold a day twice, are refused.
    pub fn from_dates(dates: Vec<Date>) -> (restored: Result<History, HabitError>)
        ensures
            restored is Ok <==> ascending(days_of(dates@)),
            restored is Ok ==> restored->Ok_0@ == days_of(dates@),
            restored is Err ==> restored->Err_0 == HabitError::StorageCorrupt,
    {
        let ghost days = days_of(dates@);
        let mut at: usize = 1;
        while at < dates.len()
            invariant
                days == days_of(dates@),
                1 <= at,
                forall|i: int, j: int| 0 <= i < j < at && j < days.len() ==> days[i] < days[j],
            decreases dates.len() - at,
        {
            if dates[at - 1].day_number() >= dates[at].day_number() {
                assert(!(days[at - 1] < days[at as int]));
                return Err(HabitError::StorageCorrupt);
            }
            assert forall|i: int, j: int| 0 <= i < j < at + 1 && j < days.len() implies days[i]
                < days[j] by {
                if j == at && i < at - 1 {
                    assert(days[i] < days[at - 1]);
                }
            }
            at = at + 1;
        }
        Ok(History { dates })
    }

    /// Every day of a history has a day number that fits in 32 bits.
    pub proof fn lemma_days_fit(&self)
        ensures
            forall|i: int| 0 <= i < self@.len() ==> i32::MIN <= #[trigger] self@[i] <= i32::MAX,
    {
        assert forall|i: int| 0 <= i < self@.len() implies i32::MIN <= #[trigger] self@[i]
            <= i32::MAX by {
            self.dates@[i].lemma_day_number_fits();
        }
    }

    /// The number of days in the history.
    pub fn len(&self) -> (count: usize)
        ensures
            count == self@.len(),
    {
        self.dates.len()
    }

    /// Whether the history holds no day.
    pub fn is_empty(&self) -> (empty: bool)
        ensures
            empty <==> self@.len() == 0,
    {
        self.dates.len() == 0
    }

    /// The day at the given place, counted from the earliest, if the history
    /// has that many days.
    pub fn get(&self, place: usize) -> (date: Option<Date>)
        ensures
            place < self@.len() ==> date is Some && date->0@ == self@[place as int],
            place >= self@.len() ==> date is None,
    {
        if place < self.dates.len() {
            Some(self.dates[place])
        } else {
            None
        }
    }

    /// The day at the given place, counted from the earliest.
    pub(crate) fn day_at(&self, place: usize) -> (date: Date)
        requires
            place < self@.len(),
        ensures
            date@ == self@[place as int],
    {
        self.dates[place]
    }

    /// The latest day of the history, if it holds any. No day of the history
    /// is later.
    pub fn last(&self) -> (latest: Option<Date>)
        ensures
            self@.len() == 0 ==> latest is None,
            self@.len() > 0 ==> latest is Some && latest->0@ == self@.last(),
            forall|i: int| 0 <= i < self@.len() ==> self@[i] <= self@.last(),
    {
        proof {
            use_type_invariant(self);
        }
        let count = self.dates.len();
        if count == 0 {
            None
        } else {
            Some(self.dates[count - 1])
        }
    }

    /// The number of days in the history that come before `date`.
    pub fn rank(&self, date: &Date) -> (rank: usize)
        ensures
            rank == rank_of(self@, date@),
            rank <= self@.len(),
    {
        proof {
            use_type_invariant(self);
        }
        let ghost days = self@;
        let wanted = date.day_number();
        let mut low: usize = 0;
        let mut high: usize = self.dates.len();
        while low < high
            invariant
                days == days_of(self.dates@),
                ascending(days),
                wanted == date@,
                low <= high <= days.len(),
                forall|i: int| 0 <= i < low ==> days[i] < wanted,
                forall|i: int| high <= i < days.len() ==> days[i] >= wanted,
            decreases high - low,
        {
            let middle = low + (high - low) / 2;
            if self.dates[middle].day_number() < wanted {
                assert(days[middle as int] < wanted);
                low = middle + 1;
            } else {
                assert(days[middle as int] >= wanted);
                high = middle;
            }
        }
        proof {
            lemma_rank_is_the_split(days, wanted as int, low as int);
        }
        low
    }

    /// Whether the history holds `date`.
    pub fn contains(&self, date: &Date) -> (present: bool)
        ensures
            present <==> self@.contains(date@),
    {
        proof {
            use_type_invariant(self);
            lemma_present_at_rank(self@, date@);
        }
        let rank = self.rank(date);
        rank < self.dates.len() && self.dates[rank].day_number() == date.day_number()
    }

    /// Whether some day is in this history and in `other`.
    pub fn shares_a_day_with(&self, other: &History) -> (shared: bool)
        ensures
            shared <==> exists|day: int| self@.contains(day) && other@.contains(day),
    {
        let mut at: usize = 0;
        while at < self.dates.len()
            invariant
                at <= self@.len(),
                self@.len() == self.dates.len(),
                forall|i: int| 0 <= i < at ==> !other@.contains(#[trigger] self@[i]),
            decreases self.dates.len() - at,
        {
            let date = self.dates[at];
            if other.contains(&date) {
                assert(self@[at as int] == date@);
                return true;
            }
            at = at + 1;
        }
        assert forall|day: int| self@.contains(day) implies !other@.contains(day) by {
            let place = choose|i: int| 0 <= i < self@.len() && self@[i] == day;
            assert(!other@.contains(self@[place]));
        }
        false
    }

    /// Puts `date` into the history at its place; a day that is already there
    /// is not put in again.
    pub fn insert(&mut self, date: Date)
        ensures
            final(self)@ == with_day(old(self)@, date@),
            ascending(final(self)@),
            final(self)@.contains(date@),
    {
        proof {
            use_type_invariant(&*self);
            lemma_present_at_rank(self@, date@);
            lemma_with_day(self@, date@);
        }
        let rank = self.rank(&date);
        if !(rank < self.dates.len() && self.dates[rank].day_number() == date.day_number()) {
            let mut dates: Vec<Date> = Vec::new();
            core::mem::swap(&mut self.dates, &mut dates);
            assert(days_of(dates@.insert(rank as int, date)) =~= days_of(dates@).insert(
                rank as int,
                date@,
            ));
            dates.insert(rank, date);
            self.dates = dates;
        }
    }

    /// Takes `date` out of the history; a day that is not there leaves the
    /// history as it was.
    pub fn remove(&mut self, date: Date)
        ensures
            final(self)@ == without_day(old(self)@, date@),
            ascending(final(self)@),
            !final(self)@.contains(date@),
    {
        proof {
            use_type_invariant(&*self);
            lemma_present_at_rank(self@, date@);
            lemma_without_day(self@, date@);
        }
        let rank = self.rank(&date);
        if rank < self.dates.len() && self.dates[rank].day_number() == date.day_number() {
            let mut dates: Vec<Date> = Vec::new();
            core::mem::swap(&mut self.dates, &mut dates);
            assert(days_of(dates@.remove(rank as int)) =~= days_of(dates@).remove(rank as int));
            dates.remove(rank);
            self.dates = dates;
        }
    }
}

} // verus!
