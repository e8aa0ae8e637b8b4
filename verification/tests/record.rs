use yabit::{Date, HabitError, HabitRecord, HabitState, History, ThresholdSet};

fn days(history: &History) -> Vec<i32> {
    (0..history.len()).filter_map(|place| history.get(place)).map(|date| date.day_number()).collect()
}

fn habit(good: i32, ok: i32, sufficient: i32) -> HabitRecord {
    HabitRecord::new("run", ThresholdSet::new(good, ok, sufficient).unwrap())
}

fn habit_done(good: i32, ok: i32, sufficient: i32, done: &[i32]) -> HabitRecord {
    let mut record = habit(good, ok, sufficient);
    for day in done {
        record.mark_done(Date::new(*day));
    }
    record
}

#[test]
fn new_habit_has_empty_histories() {
    let record = habit(1, 2, 3);
    assert_eq!(record.name(), "run");
    assert!(record.is_named(&"run".to_string()));
    assert!(!record.is_named(&"walk".to_string()));
    assert!(record.done().is_empty());
    assert!(record.skipped().is_empty());
    assert_eq!(record.thresholds(), ThresholdSet::new(1, 2, 3).unwrap());
}

#[test]
fn mark_done_puts_the_day_among_the_days_done() {
    let mut record = habit(1, 2, 3);
    record.mark_done(Date::new(50));
    record.mark_done(Date::new(40));
    record.mark_done(Date::new(60));
    assert_eq!(days(record.done()), vec![40, 50, 60]);
    assert_eq!(days(record.skipped()), Vec::<i32>::new());
    assert_eq!(record.name(), "run");
    assert_eq!(record.thresholds(), ThresholdSet::new(1, 2, 3).unwrap());
}

#[test]
fn mark_skipped_puts_the_day_among_the_days_skipped() {
    let mut record = habit(1, 2, 3);
    record.mark_skipped(Date::new(50));
    record.mark_skipped(Date::new(40));
    assert_eq!(days(record.skipped()), vec![40, 50]);
    assert_eq!(days(record.done()), Vec::<i32>::new());
}

#[test]
fn mark_done_then_skipped_leaves_the_day_skipped_only() {
    let mut record = habit_done(1, 2, 3, &[10, 20, 30]);
    record.mark_done(Date::new(25));
    record.mark_skipped(Date::new(25));
    assert_eq!(days(record.done()), vec![10, 20, 30]);
    assert_eq!(days(record.skipped()), vec![25]);
    assert!(!record.done().contains(&Date::new(25)));
    assert!(record.skipped().contains(&Date::new(25)));
}

#[test]
fn mark_skipped_then_done_leaves_the_day_done_only() {
    let mut record = habit_done(1, 2, 3, &[10, 20, 30]);
    record.mark_skipped(Date::new(25));
    record.mark_done(Date::new(25));
    assert_eq!(days(record.done()), vec![10, 20, 25, 30]);
    assert_eq!(days(record.skipped()), Vec::<i32>::new());
    assert!(record.done().contains(&Date::new(25)));
    assert!(!record.skipped().contains(&Date::new(25)));
}

#[test]
fn marks_on_other_days_are_kept() {
    let mut record = habit(1, 2, 3);
    record.mark_skipped(Date::new(1));
    record.mark_done(Date::new(2));
    record.mark_skipped(Date::new(3));
    record.mark_done(Date::new(3));
    record.mark_skipped(Date::new(2));
    assert_eq!(days(record.done()), vec![3]);
    assert_eq!(days(record.skipped()), vec![1, 2]);
}

#[test]
fn mark_done_twice_is_mark_done_once() {
    let mut once = habit_done(1, 2, 3, &[10, 30]);
    once.mark_skipped(Date::new(20));
    once.mark_skipped(Date::new(40));
    once.mark_done(Date::new(20));
    let done_once = days(once.done());
    let skipped_once = days(once.skipped());
    once.mark_done(Date::new(20));
    assert_eq!(days(once.done()), done_once);
    assert_eq!(days(once.skipped()), skipped_once);
    assert_eq!(done_once, vec![10, 20, 30]);
    assert_eq!(skipped_once, vec![40]);
}

#[test]
fn mark_skipped_twice_is_mark_skipped_once() {
    let mut record = habit_done(1, 2, 3, &[10, 20]);
    record.mark_skipped(Date::new(20));
    record.mark_skipped(Date::new(20));
    assert_eq!(days(record.done()), vec![10]);
    assert_eq!(days(record.skipped()), vec![20]);
}

#[test]
fn days_since_done_without_history_fails() {
    let record = habit(1, 2, 3);
    assert_eq!(record.days_since_done(&Date::new(100)), Err(HabitError::NoHistory));
    assert_eq!(record.classify(&Date::new(100)), Err(HabitError::NoHistory));
    assert_eq!(record.days_left(&Date::new(100)), Err(HabitError::NoHistory));
}

#[test]
fn skipped_days_are_no_history() {
    let mut record = habit(1, 2, 3);
    record.mark_skipped(Date::new(90));
    assert_eq!(record.days_since_done(&Date::new(100)), Err(HabitError::NoHistory));
    record.mark_done(Date::new(90));
    record.mark_skipped(Date::new(90));
    assert_eq!(record.days_since_done(&Date::new(100)), Err(HabitError::NoHistory));
}

#[test]
fn days_since_done_counts_from_the_latest_day() {
    let record = habit_done(1, 2, 3, &[70, 95, 80]);
    assert_eq!(record.days_since_done(&Date::new(95)), Ok(0));
    assert_eq!(record.days_since_done(&Date::new(96)), Ok(1));
    assert_eq!(record.days_since_done(&Date::new(195)), Ok(100));
}

#[test]
fn days_since_done_spans_the_whole_range_of_days() {
    let record = habit_done(1, 2, 3, &[i32::MIN]);
    assert_eq!(record.days_since_done(&Date::new(i32::MAX)), Ok(4_294_967_295));
    assert_eq!(record.classify(&Date::new(i32::MAX)), Ok(HabitState::Late));
    assert_eq!(record.days_left(&Date::new(i32::MAX)), Ok(3 - 4_294_967_295));
}

#[test]
fn a_day_before_the_latest_day_done_is_refused() {
    let record = habit_done(1, 2, 3, &[70, 95, 80]);
    assert_eq!(record.days_since_done(&Date::new(94)), Err(HabitError::UnsupportedPastDate));
    assert_eq!(record.classify(&Date::new(94)), Err(HabitError::UnsupportedPastDate));
    assert_eq!(record.days_left(&Date::new(94)), Err(HabitError::UnsupportedPastDate));
    assert_eq!(record.classify(&Date::new(80)), Err(HabitError::UnsupportedPastDate));
    assert_eq!(record.classify(&Date::new(i32::MIN)), Err(HabitError::UnsupportedPastDate));
}

#[test]
fn classify_with_thresholds_three_five_seven() {
    let today = 738_000;
    let record = habit_done(3, 5, 7, &[today]);
    let expected = [
        HabitState::VeryGood,
        HabitState::VeryGood,
        HabitState::Good,
        HabitState::OK,
        HabitState::OK,
        HabitState::Sufficient,
        HabitState::Sufficient,
        HabitState::Late,
    ];
    for (later, state) in expected.iter().enumerate() {
        assert_eq!(record.classify(&Date::new(today + later as i32)), Ok(*state));
    }
}

#[test]
fn classify_with_thresholds_one_two_three() {
    let today = 738_000;
    let record = habit_done(1, 2, 3, &[today]);
    assert_eq!(record.classify(&Date::new(today)), Ok(HabitState::Good));
    assert_eq!(record.classify(&Date::new(today + 1)), Ok(HabitState::OK));
    assert_eq!(record.classify(&Date::new(today + 2)), Ok(HabitState::Sufficient));
    assert_eq!(record.classify(&Date::new(today + 3)), Ok(HabitState::Late));
}

#[test]
fn classify_counts_from_the_latest_day_done() {
    let mut record = habit_done(3, 5, 7, &[100]);
    assert_eq!(record.classify(&Date::new(107)), Ok(HabitState::Late));
    record.mark_done(Date::new(106));
    assert_eq!(record.classify(&Date::new(107)), Ok(HabitState::VeryGood));
    record.mark_skipped(Date::new(106));
    assert_eq!(record.classify(&Date::new(107)), Ok(HabitState::Late));
}

#[test]
fn classify_decays_as_the_days_pass() {
    let record = habit_done(4, 9, 15, &[1_000]);
    let mut last = 0;
    for today in 1_000..1_030 {
        let rank = record.classify(&Date::new(today)).unwrap().index();
        assert!(last <= rank);
        last = rank;
    }
    assert_eq!(last, 5);
}

#[test]
fn days_left_on_the_day_done_and_after() {
    let record = habit_done(2, 4, 5, &[500]);
    let expected = [2, 1, 0, 1, 0, 0, -1, -2];
    for (later, left) in expected.iter().enumerate() {
        assert_eq!(record.days_left(&Date::new(500 + later as i32)), Ok(*left));
    }
}

#[test]
fn average_state_needs_two_days_done() {
    let mut record = habit(2, 3, 4);
    assert_eq!(record.average_state(5), HabitState::Unknown);
    record.mark_done(Date::new(99));
    assert_eq!(record.average_state(5), HabitState::Unknown);
    record.mark_skipped(Date::new(90));
    assert_eq!(record.average_state(5), HabitState::Unknown);
    record.mark_done(Date::new(97));
    assert_eq!(record.average_state(5), HabitState::Good);
}

#[test]
fn average_state_with_an_empty_window_is_unknown() {
    let record = habit_done(2, 3, 4, &[70, 99, 97, 94, 90, 85]);
    assert_eq!(record.average_state(0), HabitState::Unknown);
}

#[test]
fn average_state_decays_as_the_gaps_widen() {
    let reference = 738_000;
    let mut record = habit(2, 3, 4);
    let steps = [
        (1, HabitState::Unknown),
        (3, HabitState::Good),
        (6, HabitState::OK),
        (10, HabitState::OK),
        (15, HabitState::Sufficient),
        (30, HabitState::Late),
    ];
    let mut last = 0;
    for (back, state) in steps {
        record.mark_done(Date::new(reference - back));
        assert_eq!(record.average_state(5), state);
        if state != HabitState::Unknown {
            assert!(last <= state.index());
            last = state.index();
        }
    }
}

#[test]
fn average_state_looks_at_the_latest_gaps_only() {
    let record = habit_done(2, 3, 4, &[70, 85, 90, 94, 97, 99]);
    assert_eq!(record.average_state(1), HabitState::Good);
    assert_eq!(record.average_state(2), HabitState::OK);
    assert_eq!(record.average_state(3), HabitState::OK);
    assert_eq!(record.average_state(4), HabitState::Sufficient);
    assert_eq!(record.average_state(5), HabitState::Late);
    assert_eq!(record.average_state(6), HabitState::Late);
    assert_eq!(record.average_state(usize::MAX), HabitState::Late);
}

#[test]
fn average_state_over_the_whole_range_of_days() {
    let record = habit_done(1, 2, 3, &[i32::MIN, 0, i32::MAX]);
    assert_eq!(record.average_state(2), HabitState::Late);
    let widest = (i32::MAX - 2, i32::MAX - 1, i32::MAX);
    let record = habit_done(widest.0, widest.1, widest.2, &[0, i32::MAX - 2]);
    assert_eq!(record.average_state(1), HabitState::Good);
    let record = habit_done(widest.0, widest.1, widest.2, &[0, i32::MAX - 1]);
    assert_eq!(record.average_state(1), HabitState::OK);
    let record = habit_done(widest.0, widest.1, widest.2, &[0, i32::MAX]);
    assert_eq!(record.average_state(1), HabitState::Sufficient);
    let record = habit_done(widest.0, widest.1, widest.2, &[-1, i32::MAX]);
    assert_eq!(record.average_state(1), HabitState::Late);
    let record = habit_done(widest.0, widest.1, widest.2, &[i32::MIN, -1, i32::MAX]);
    assert_eq!(record.average_state(2), HabitState::Late);
}

fn dates(numbers: &[i32]) -> Vec<Date> {
    numbers.iter().map(|number| Date::new(*number)).collect()
}

fn restored(name: &str, done: &[i32], skipped: &[i32]) -> Result<HabitRecord, HabitError> {
    HabitRecord::restore(name, ThresholdSet::new(3, 5, 7).unwrap(), dates(done), dates(skipped))
}

#[test]
fn restore_rebuilds_a_stored_habit() {
    let record = restored("run", &[10, 20, 40], &[15, 30]).unwrap();
    assert_eq!(record.name(), "run");
    assert_eq!(days(record.done()), vec![10, 20, 40]);
    assert_eq!(days(record.skipped()), vec![15, 30]);
    assert_eq!(record.thresholds(), ThresholdSet::new(3, 5, 7).unwrap());
    assert_eq!(record.classify(&Date::new(42)), Ok(HabitState::Good));
    let record = restored("run", &[], &[]).unwrap();
    assert!(record.done().is_empty());
    assert!(record.skipped().is_empty());
}

#[test]
fn restore_gives_what_the_marks_built() {
    let mut built = habit(3, 5, 7);
    for day in [40, 10, 20, 15] {
        built.mark_done(Date::new(day));
    }
    for day in [30, 15] {
        built.mark_skipped(Date::new(day));
    }
    let record = restored("run", &days(built.done()), &days(built.skipped())).unwrap();
    assert_eq!(days(record.done()), days(built.done()));
    assert_eq!(days(record.skipped()), days(built.skipped()));
    assert_eq!(days(record.done()), vec![10, 20, 40]);
    assert_eq!(days(record.skipped()), vec![15, 30]);
}

#[test]
fn restore_refuses_an_empty_name() {
    assert_eq!(restored("", &[10], &[15]).err(), Some(HabitError::StorageCorrupt));
}

#[test]
fn restore_refuses_days_that_do_not_rise() {
    assert_eq!(restored("run", &[20, 10], &[]).err(), Some(HabitError::StorageCorrupt));
    assert_eq!(restored("run", &[10, 10], &[]).err(), Some(HabitError::StorageCorrupt));
    assert_eq!(restored("run", &[], &[20, 10]).err(), Some(HabitError::StorageCorrupt));
    assert_eq!(restored("run", &[], &[10, 10]).err(), Some(HabitError::StorageCorrupt));
}

#[test]
fn restore_refuses_a_day_both_done_and_skipped() {
    assert_eq!(restored("run", &[10, 20], &[20]).err(), Some(HabitError::StorageCorrupt));
    assert_eq!(restored("run", &[10], &[5, 10, 15]).err(), Some(HabitError::StorageCorrupt));
}

#[test]
fn habits_share_a_name_or_not() {
    let run = restored("run", &[10], &[]).unwrap();
    let also_run = habit(1, 2, 3);
    let walk = restored("walk", &[10], &[]).unwrap();
    assert!(run.shares_name_with(&also_run));
    assert!(run.shares_name_with(&run));
    assert!(!run.shares_name_with(&walk));
    assert!(!walk.shares_name_with(&run));
}

#[test]
fn marks_on_two_days_can_be_made_in_either_order() {
    let mut one_way = habit_done(1, 2, 3, &[10, 20, 30]);
    let mut other_way = habit_done(1, 2, 3, &[10, 20, 30]);
    one_way.mark_done(Date::new(15));
    one_way.mark_skipped(Date::new(20));
    one_way.mark_done(Date::new(5));
    one_way.mark_skipped(Date::new(40));
    other_way.mark_skipped(Date::new(40));
    other_way.mark_done(Date::new(5));
    other_way.mark_skipped(Date::new(20));
    other_way.mark_done(Date::new(15));
    assert_eq!(days(one_way.done()), days(other_way.done()));
    assert_eq!(days(one_way.skipped()), days(other_way.skipped()));
    assert_eq!(days(one_way.done()), vec![5, 10, 15, 30]);
    assert_eq!(days(one_way.skipped()), vec![20, 40]);
}

#[test]
fn no_day_is_ever_both_done_and_skipped() {
    let mut record = habit(1, 2, 3);
    let mut day: i64 = 3;
    for step in 0..400 {
        day = (day * 31 + 7) % 23;
        if step % 3 == 0 {
            record.mark_skipped(Date::new(day as i32));
        } else {
            record.mark_done(Date::new(day as i32));
        }
        assert!(!record.done().shares_a_day_with(record.skipped()));
        let done = days(record.done());
        let skipped = days(record.skipped());
        assert!(done.windows(2).all(|pair| pair[0] < pair[1]));
        assert!(skipped.windows(2).all(|pair| pair[0] < pair[1]));
    }
}
