//! Habit tracking: how fresh a habit is, judged from the days on which it was
//! done and three thresholds in days.
//!
//! A [`HabitRecord`] holds the name of a habit, the days on which it was done
//! and skipped, each as a [`History`] of [`Date`]s, and its [`ThresholdSet`].
//! From these it tells the [`HabitState`] of the habit on a given day, the
//! days that are left before that state decays, and the state of the habit's
//! cadence. A [`HabitCollection`] keeps habits under names of their own.
//!
//! Every type stands for a plain mathematical value, its view, and every
//! function says what it does to that value. The invariants of the types, that
//! thresholds rise, that histories rise and share no day, that names differ,
//! hold of every value that exists.

pub mod classifier;
pub mod collection;
pub mod date;
pub mod error;
pub mod history;
pub mod record;
pub mod state;
pub mod thresholds;

pub use collection::HabitCollection;
pub use date::Date;
pub use error::HabitError;
pub use history::History;
pub use record::{HabitRecord, HabitRecordView};
pub use state::HabitState;
pub use thresholds::{ThresholdSet, ThresholdSetView};
