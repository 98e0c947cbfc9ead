//! A dependency-aware scheduler for a fixed batch of measurements.
//!
//! A schedule is loaded once from its text form. The host then asks for the
//! next measurement whose prerequisites have all completed, runs it, and
//! reports it done, until nothing is left.
//!
//! - `text`: characters, words and numbers.
//! - `measurement`, `record`: a measurement, and the line that describes one.
//! - `catalog`: the catalog as a mathematical value, and what the two
//!   operations of the scheduler do to it.
//! - `scheduler`: the catalog itself, with its operations and queries.
//! - `load`: making a catalog from the text of a schedule.
//! - `rounds`, `round_trip`: the round-based form, its conversion to text, and
//!   why the text means the same.
//! - `laws`: what holds across calls.

pub mod catalog;
mod clock;
pub mod error;
pub mod laws;
pub mod load;
pub mod measurement;
pub mod record;
pub mod round_trip;
pub mod rounds;
pub mod scheduler;
pub mod text;

pub use error::{LoadError, UsageError};
pub use load::{
    check_and_insert_measurements, sched_new, sched_new_from_txt, schedule_format, ScheduleFormat,
};
pub use measurement::{Host, Measurement, State};
pub use rounds::{sched_new_from_json, Allocation, RoundRecord};
pub use scheduler::{
    sched_finished, sched_get_dur, sched_get_failsafe_stop, sched_get_fp, sched_get_hosts,
    sched_mark_done, sched_next, sched_next_at, sched_next_internal, sched_num,
    sched_num_complete, sched_num_incomplete, Scheduler,
};
