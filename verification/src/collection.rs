//! The habits that are tracked, each under a name of its own.

use vstd::prelude::*;
use crate::date::Date;
use crate::error::HabitError;
use crate::record::{HabitRecord, HabitRecordView};
use crate::thresholds::ThresholdSet;

verus! {

/// What each of the habits stands for, in the same order.
pub open spec fn views_of(habits: Seq<HabitRecord>) -> Seq<HabitRecordView> {
    habits.map_values(|habit: HabitRecord| habit@)
}

/// One of the habits goes by `name`.
pub open spec fn holds_name(habits: Seq<HabitRecordView>, name: Seq<char>) -> bool {
    exists|i: int| 0 <= i < habits.len() && #[trigger] habits[i].name == name
}

/// The place of the habit that goes by `name`, where there is one.
pub open spec fn place_of(habits: Seq<HabitRecordView>, name: Seq<char>) -> int {
    choose|i: int| 0 <= i < habits.len() && #[trigger] habits[i].name == name
}

/// No two of the habits go by the same name.
pub open spec fn distinct_names(habits: Seq<HabitRecordView>) -> bool {
    forall|i: int, j: int|
        0 <= i < j < habits.len() ==> #[trigger] habits[i].name != #[trigger] habits[j].name
}

/// Each habit is valid and has a name of its own.
pub open spec fn valid_habits(habits: Seq<HabitRecordView>) -> bool {
    &&& forall|i: int| 0 <= i < habits.len() ==> #[trigger] habits[i].valid()
    &&& distinct_names(habits)
}

/// The habits after the one that goes by `name` was marked as done on `day`.
pub open spec fn marked_done(
    habits: Seq<HabitRecordView>,
    name: Seq<char>,
    day: int,
) -> Seq<HabitRecordView> {
    let place = place_of(habits, name);
    habits.update(place, habits[place].mark_done(day))
}

/// The habits after the one that goes by `name` was marked as skipped on
/// `day`.
pub open spec fn marked_skipped(
    habits: Seq<HabitRecordView>,
    name: Seq<char>,
    day: int,
) -> Seq<HabitRecordView> {
    let place = place_of(habits, name);
    habits.update(place, habits[place].mark_skipped(day))
}

/// Among habits with names of their own, the place of a name is the one place
/// at which a habit goes by it.
pub proof fn lemma_place_of_name(habits: Seq<HabitRecordView>, name: Seq<char>, place: int)
    requires
        distinct_names(habits),
        0 <= place < habits.len(),
        habits[place].name == name,
    ensures
        holds_name(habits, name),
        place_of(habits, name) == place,
{
    // Some habit goes by the name, so the place that is chosen holds one; with
    // names of their own that habit can only be the one at `place`.
    let chosen = place_of(habits, name);
    assert(habits[chosen].name == habits[place].name);
}

/// The habits that are tracked, in the order in which they were added.
#[derive(Debug)]
pub struct HabitCollection {
    habits: Vec<HabitRecord>,
}

impl View for HabitCollection {
    type V = Seq<HabitRecordView>;

    closed spec fn view(&self) -> Seq<HabitRecordView> {
        views_of(self.habits@)
    }
}

impl HabitCollection {
    /// Every collection that exists holds valid habits with names of their
    /// own.
    #[verifier::type_invariant]
    pub open spec fn inv(&self) -> bool {
        valid_habits(self@)
    }

    /// The collection that tracks no habit.
    pub fn new() -> (collection: HabitCollection)
        ensures
            collection@ == Seq::<HabitRecordView>::empty(),
            valid_habits(collection@),
    {
        HabitCollection { habits: Vec::new() }
    }

    /// The collection of the given habits, in their order, as it was stored.
    /// Habits of which two go by the same name are refused.
    pub fn restore(habits: Vec<HabitRecord>) -> (restored: Result<HabitCollection, HabitError>)
        ensures
            restored is Ok <==> distinct_names(views_of(habits@)),
            restored is Ok ==> restored->Ok_0@ == views_of(habits@) && valid_habits(
                restored->Ok_0@,
            ),
            restored is Err ==> restored->Err_0 == HabitError::StorageCorrupt,
    {
        let ghost stored = views_of(habits@);
        let mut later: usize = 0;
        while later < habits.len()
            invariant
                stored == views_of(habits@),
                later <= habits.len(),
                forall|i: int, j: int|
                    0 <= i < j < later ==> #[trigger] stored[i].name != #[trigger] stored[j].name,
                forall|i: int| 0 <= i < later ==> #[trigger] stored[i].valid(),
            decreases habits.len() - later,
        {
            let habit = &habits[later];
            proof {
                use_type_invariant(habit);
            }
            let mut earlier: usize = 0;
            while earlier < later
                invariant
                    stored == views_of(habits@),
                    earlier <= later < habits.len(),
                    habit@ == stored[later as int],
                    forall|i: int| 0 <= i < earlier ==> (#[trigger] stored[i]).name
                        != stored[later as int].name,
                decreases later - earlier,
            {
                if habits[earlier].shares_name_with(habit) {
                    assert(stored[earlier as int].name == stored[later as int].name);
                    return Err(HabitError::StorageCorrupt);
                }
                earlier = earlier + 1;
            }
            later = later + 1;
        }
        Ok(HabitCollection { habits })
    }

    /// The number of habits.
    pub fn len(&self) -> (count: usize)
        ensures
            count == self@.len(),
    {
        self.habits.len()
    }

    /// The habit at the given place, counted from the one added first, if
    /// there are that many habits.
    pub fn get(&self, place: usize) -> (habit: Option<&HabitRecord>)
        ensures
            place < self@.len() ==> habit is Some && habit->0@ == self@[place as int],
            place >= self@.len() ==> habit is None,
    {
        if place < self.habits.len() {
            Some(&self.habits[place])
        } else {
            None
        }
    }

    /// The place of the habit that goes by `name`, if there is one.
    pub fn index_of(&self, name: &str) -> (place: Option<usize>)
        ensures
            match place {
                Some(at) => at < self@.len() && self@[at as int].name == name@ && at == place_of(
                    self@,
                    name@,
                ),
                None => !holds_name(self@, name@),
            },
    {
        proof {
            use_type_invariant(self);
        }
        let wanted = name.to_owned();
        let mut at: usize = 0;
        while at < self.habits.len()
            invariant
                wanted@ == name@,
                at <= self.habits.len(),
                distinct_names(views_of(self.habits@)),
                forall|i: int| 0 <= i < at ==> (#[trigger] views_of(self.habits@)[i]).name != name@,
            decreases self.habits.len() - at,
        {
            if self.habits[at].is_named(&wanted) {
                proof {
                    lemma_place_of_name(self@, name@, at as int);
                }
                return Some(at);
            }
            at = at + 1;
        }
        None
    }

    /// Starts to track a habit of the given name and thresholds, which was
    /// never done and never skipped. A name that is taken is refused and
    /// leaves the collection as it was. A habit's name is not empty.
    pub fn add(&mut self, name: &str, thresholds: ThresholdSet) -> (added: Result<(), HabitError>)
        requires
            name@.len() > 0,
        ensures
            added is Ok <==> !holds_name(old(self)@, name@),
            added is Ok ==> final(self)@ == old(self)@.push(
                HabitRecordView::fresh(name@, thresholds@),
            ),
            added is Err ==> added->Err_0 == HabitError::DuplicateName && final(self)@ == old(
                self,
            )@,
            valid_habits(final(self)@),
    {
        proof {
            use_type_invariant(&*self);
            use_type_invariant(&thresholds);
        }
        match self.index_of(name) {
            Some(_) => Err(HabitError::DuplicateName),
            None => {
                let habit = HabitRecord::new(name, thresholds);
                let mut habits: Vec<HabitRecord> = Vec::new();
                core::mem::swap(&mut self.habits, &mut habits);
                assert(views_of(habits@.push(habit)) =~= views_of(habits@).push(habit@));
                habits.push(habit);
                self.habits = habits;
                Ok(())
            },
        }
    }

    /// Stops tracking the habit that goes by `name`. Where there is none, the
    /// collection stays as it was.
    pub fn remove(&mut self, name: &str) -> (removed: Result<(), HabitError>)
        ensures
            removed is Ok <==> holds_name(old(self)@, name@),
            removed is Ok ==> final(self)@ == old(self)@.remove(place_of(old(self)@, name@)),
            removed is Err ==> removed->Err_0 == HabitError::NotFound && final(self)@ == old(
                self,
            )@,
            valid_habits(final(self)@),
    {
        proof {
            use_type_invariant(&*self);
        }
        match self.index_of(name) {
            None => Err(HabitError::NotFound),
            Some(at) => {
                let mut habits: Vec<HabitRecord> = Vec::new();
                core::mem::swap(&mut self.habits, &mut habits);
                assert(views_of(habits@.remove(at as int)) =~= views_of(habits@).remove(
                    at as int,
                ));
                habits.remove(at);
                self.habits = habits;
                Ok(())
            },
        }
    }

    /// Marks the habit that goes by `name` as done on `date`. Where there is
    /// no such habit, the collection stays as it was.
    pub fn mark_done(&mut self, name: &str, date: Date) -> (marked: Result<(), HabitError>)
        ensures
            marked is Ok <==> holds_name(old(self)@, name@),
            marked is Ok ==> final(self)@ == marked_done(old(self)@, name@, date@),
            marked is Err ==> marked->Err_0 == HabitError::NotFound && final(self)@ == old(
                self,
            )@,
            valid_habits(final(self)@),
    {
        proof {
            use_type_invariant(&*self);
        }
        match self.index_of(name) {
            None => Err(HabitError::NotFound),
            Some(at) => {
                let mut habits: Vec<HabitRecord> = Vec::new();
                core::mem::swap(&mut self.habits, &mut habits);
                let ghost before = habits@;
                proof {
                    views_of(before)[at as int].lemma_mark_done_keeps_valid(date@);
                }
                habits[at].mark_done(date);
                assert(views_of(habits@) =~= views_of(before).update(
                    at as int,
                    views_of(before)[at as int].mark_done(date@),
                ));
                self.habits = habits;
                Ok(())
            },
        }
    }

    /// Marks the habit that goes by `name` as skipped on `date`. Where there
    /// is no such habit, the collection stays as it was.
    pub fn mark_skip(&mut self, name: &str, date: Date) -> (marked: Result<(), HabitError>)
        ensures
            marked is Ok <==> holds_name(old(self)@, name@),
            marked is Ok ==> final(self)@ == marked_skipped(old(self)@, name@, date@),
            marked is Err ==> marked->Err_0 == HabitError::NotFound && final(self)@ == old(
                self,
            )@,
            valid_habits(final(self)@),
    {
        proof {
            use_type_invariant(&*self);
        }
        match self.index_of(name) {
            None => Err(HabitError::NotFound),
            Some(at) => {
                let mut habits: Vec<HabitRecord> = Vec::new();
                core::mem::swap(&mut self.habits, &mut habits);
                let ghost before = habits@;
                proof {
                    views_of(before)[at as int].lemma_mark_skipped_keeps_valid(date@);
                }
                habits[at].mark_skipped(date);
                assert(views_of(habits@) =~= views_of(before).update(
                    at as int,
                    views_of(before)[at as int].mark_skipped(date@),
                ));
                self.habits = habits;
                Ok(())
            },
        }
    }
}

} // verus!
