//! The scheduler: a catalog of measurements, the two operations that move
//! them through their states, and the queries on them.

use crate::catalog::{
    after_done, after_next, can_finish, catalog_wf, count_complete, count_incomplete,
    failsafe_deadline, has_id, lemma_after_done_wf, lemma_after_next_wf, lemma_first_ready,
    lemma_first_ready_offers, lemma_lookup, lookup, next_id, offers,
};
use crate::clock::unix_time;
use crate::error::UsageError;
use crate::measurement::{host_views, Host, Measurement, MeasurementView, State};
use crate::text::lists;
use vstd::prelude::*;

verus! {

/// What a vector of measurements stands for.
pub open spec fn views(ms: Seq<Measurement>) -> Seq<MeasurementView> {
    Seq::new(ms.len(), |i: int| ms[i]@)
}

/// A catalog of measurements, in the order they were loaded.
#[derive(Debug)]
pub struct Scheduler {
    measurements: Vec<Measurement>,
}

impl View for Scheduler {
    type V = Seq<MeasurementView>;

    closed spec fn view(&self) -> Seq<MeasurementView> {
        views(self.measurements@)
    }
}

impl Scheduler {
    /// What holds of every catalog that this library hands out.
    pub open spec fn wf(&self) -> bool {
        catalog_wf(self@)
    }

    /// A catalog without measurements.
    pub fn new() -> (s: Scheduler)
        ensures
            s@.len() == 0,
            s.wf(),
    {
        Scheduler { measurements: Vec::new() }
    }

    /// The measurement `id`, if the catalog has it.
    pub fn measurement(&self, id: u32) -> (r: Option<&Measurement>)
        requires
            self.wf(),
        ensures
            match r {
                Some(m) => has_id(self@, id) && m@ == lookup(self@, id),
                None => !has_id(self@, id),
            },
    {
        match find_id(&self.measurements, id) {
            None => None,
            Some(x) => {
                proof {
                    lemma_lookup(self@, x as int);
                }
                Some(&self.measurements[x])
            },
        }
    }

    /// A catalog of the given measurements, in their order.
    pub(crate) fn with_measurements(measurements: Vec<Measurement>) -> (s: Scheduler)
        ensures
            s@ == views(measurements@),
    {
        Scheduler { measurements }
    }
}

/// The failsafe deadline of a measurement of duration `dur` started at `now`.
pub fn deadline_after(now: u64, dur: u32) -> (r: u64)
    ensures
        r == failsafe_deadline(now, dur),
{
    let grace: u64 = (3 * (dur as u64) + 1) / 2;
    if now > u64::MAX - grace {
        u64::MAX
    } else {
        now + grace
    }
}

fn find_ready(ms: &Vec<Measurement>) -> (r: Option<usize>)
    ensures
        match r {
            Some(i) => offers(views(ms@), i as int),
            None => forall|k: int| 0 <= k < ms.len() ==> !(#[trigger] views(ms@)[k]).ready(),
        },
{
    let mut i: usize = 0;
    while i < ms.len()
        invariant
            i <= ms.len(),
            forall|k: int| 0 <= k < i ==> !(#[trigger] views(ms@)[k]).ready(),
        decreases ms.len() - i,
    {
        if ms[i].is_ready() {
            return Some(i);
        }
        i += 1;
    }
    None
}

fn find_id(ms: &Vec<Measurement>, id: u32) -> (r: Option<usize>)
    ensures
        match r {
            Some(i) => i < ms.len() && views(ms@)[i as int].id == id,
            None => !has_id(views(ms@), id),
        },
{
    let mut i: usize = 0;
    while i < ms.len()
        invariant
            i <= ms.len(),
            forall|k: int| 0 <= k < i ==> (#[trigger] views(ms@)[k]).id != id,
        decreases ms.len() - i,
    {
        if ms[i].id() == id {
            return Some(i);
        }
        i += 1;
    }
    None
}

/// The number of measurements in the catalog.
pub fn sched_num(s: &Scheduler) -> (r: usize)
    ensures
        r == s@.len(),
{
    s.measurements.len()
}

/// The number of measurements that are complete.
pub fn sched_num_complete(s: &Scheduler) -> (r: usize)
    ensures
        r == count_complete(s@),
{
    let ghost cat = s@;
    let ghost done = |m: MeasurementView| m.state == State::Complete;
    let mut n: usize = 0;
    let mut i: usize = 0;
    assert(cat.take(0).filter(done).len() == 0) by {
        cat.take(0).lemma_filter_len(done);
    }
    while i < s.measurements.len()
        invariant
            i <= s.measurements.len(),
            cat == views(s.measurements@),
            done == (|m: MeasurementView| m.state == State::Complete),
            n == cat.take(i as int).filter(done).len(),
            n <= i,
        decreases s.measurements.len() - i,
    {
        proof {
            cat.lemma_take_succ_push(i as int);
            cat.take(i as int).lemma_filter_len_push(done, cat[i as int]);
        }
        if s.measurements[i].state() == State::Complete {
            n += 1;
        }
        i += 1;
    }
    proof {
        assert(cat.take(cat.len() as int) == cat);
    }
    n
}

/// The number of measurements that are not complete: those that wait and
/// those in progress.
pub fn sched_num_incomplete(s: &Scheduler) -> (r: usize)
    ensures
        r == count_incomplete(s@),
{
    let ghost cat = s@;
    let ghost open = |m: MeasurementView| m.state != State::Complete;
    let mut n: usize = 0;
    let mut i: usize = 0;
    assert(cat.take(0).filter(open).len() == 0) by {
        cat.take(0).lemma_filter_len(open);
    }
    while i < s.measurements.len()
        invariant
            i <= s.measurements.len(),
            cat == views(s.measurements@),
            open == (|m: MeasurementView| m.state != State::Complete),
            n == cat.take(i as int).filter(open).len(),
            n <= i,
        decreases s.measurements.len() - i,
    {
        proof {
            cat.lemma_take_succ_push(i as int);
            cat.take(i as int).lemma_filter_len_push(open, cat[i as int]);
        }
        if s.measurements[i].state() != State::Complete {
            n += 1;
        }
        i += 1;
    }
    proof {
        assert(cat.take(cat.len() as int) == cat);
    }
    n
}

/// Whether every measurement is complete.
pub fn sched_finished(s: &Scheduler) -> (r: bool)
    ensures
        r == (count_incomplete(s@) == 0),
{
    sched_num_incomplete(s) == 0
}

/// Offers the first ready measurement, in the order of loading, and starts it
/// at time `now`: it is then in progress, with its failsafe deadline set.
/// Returns its id, or 0 and changes nothing where no measurement is ready.
pub fn sched_next_at(s: &mut Scheduler, now: u64) -> (r: u32)
    requires
        old(s).wf(),
    ensures
        r == next_id(old(s)@),
        final(s)@ == after_next(old(s)@, now),
        final(s).wf(),
{
    proof {
        lemma_after_next_wf(s@, now);
        lemma_first_ready_offers(s@);
    }
    match find_ready(&s.measurements) {
        None => 0,
        Some(i) => {
            proof {
                lemma_first_ready(s@, i as int);
            }
            let id = s.measurements[i].id();
            let deadline = deadline_after(now, s.measurements[i].duration());
            s.measurements[i].start(deadline);
            assert(s@ =~= after_next(old(s)@, now));
            id
        },
    }
}

/// The id of the first ready measurement, or 0 where none is ready. With
/// `mark` the measurement is also started, at the time the system clock
/// shows; without it nothing changes.
pub fn sched_next_internal(s: &mut Scheduler, mark: bool) -> (r: u32)
    requires
        old(s).wf(),
    ensures
        r == next_id(old(s)@),
        !mark ==> final(s)@ == old(s)@,
        mark ==> exists|now: u64| final(s)@ == after_next(old(s)@, now),
        final(s).wf(),
{
    proof {
        lemma_first_ready_offers(s@);
    }
    match find_ready(&s.measurements) {
        None => {
            assert(s@ == after_next(s@, 0));
            0
        },
        Some(i) => {
            proof {
                lemma_first_ready(s@, i as int);
            }
            if mark {
                let now = unix_time();
                sched_next_at(s, now)
            } else {
                s.measurements[i].id()
            }
        },
    }
}

/// Offers the first ready measurement and starts it now. Returns its id, or
/// 0 where no measurement is ready.
pub fn sched_next(s: &mut Scheduler) -> (r: u32)
    requires
        old(s).wf(),
    ensures
        r == next_id(old(s)@),
        exists|now: u64| final(s)@ == after_next(old(s)@, now),
        final(s).wf(),
{
    sched_next_internal(s, true)
}

/// Marks the measurement `id` complete and lets every measurement that
/// depends on it see it finish. Refused, with the catalog unchanged, where
/// `id` is unknown or the measurement is not in progress.
pub fn sched_mark_done(s: &mut Scheduler, id: u32) -> (r: Result<(), UsageError>)
    requires
        old(s).wf(),
    ensures
        final(s).wf(),
        match r {
            Ok(()) => can_finish(old(s)@, id) && final(s)@ == after_done(old(s)@, id),
            Err(e) => {
                &&& final(s)@ == old(s)@
                &&& !can_finish(old(s)@, id)
                &&& e == if has_id(old(s)@, id) {
                    UsageError::NotInProgress
                } else {
                    UsageError::UnknownId
                }
            },
        },
{
    let x = match find_id(&s.measurements, id) {
        None => {
            return Err(UsageError::UnknownId);
        },
        Some(x) => x,
    };
    proof {
        lemma_lookup(s@, x as int);
    }
    if s.measurements[x].state() != State::InProgress {
        return Err(UsageError::NotInProgress);
    }
    proof {
        lemma_after_done_wf(s@, id);
    }
    let ghost goal = after_done(s@, id);
    let n = s.measurements.len();
    let mut k: usize = 0;
    while k < n
        invariant
            k <= n,
            n == s.measurements.len(),
            n == old(s)@.len(),
            goal == after_done(old(s)@, id),
            forall|j: int| 0 <= j < k ==> (#[trigger] s.measurements@[j])@ == goal[j],
            forall|j: int| k <= j < n ==> (#[trigger] s.measurements@[j])@ == old(s)@[j],
        decreases n - k,
    {
        if s.measurements[k].id() == id {
            s.measurements[k].complete();
        } else if lists(s.measurements[k].depends(), id) {
            s.measurements[k].note_finished(id);
        }
        k += 1;
    }
    assert(s@ =~= goal);
    Ok(())
}

/// The fingerprint of the measurement `id`.
pub fn sched_get_fp(s: &Scheduler, id: u32) -> (r: Result<String, UsageError>)
    requires
        s.wf(),
    ensures
        match r {
            Ok(fp) => has_id(s@, id) && fp@ == lookup(s@, id).fp,
            Err(e) => !has_id(s@, id) && e == UsageError::UnknownId,
        },
{
    match find_id(&s.measurements, id) {
        None => Err(UsageError::UnknownId),
        Some(x) => {
            proof {
                lemma_lookup(s@, x as int);
            }
            Ok(s.measurements[x].fingerprint().clone())
        },
    }
}

/// The expected run length of the measurement `id`, in seconds.
pub fn sched_get_dur(s: &Scheduler, id: u32) -> (r: Result<u32, UsageError>)
    requires
        s.wf(),
    ensures
        match r {
            Ok(dur) => has_id(s@, id) && dur == lookup(s@, id).dur,
            Err(e) => !has_id(s@, id) && e == UsageError::UnknownId,
        },
{
    match find_id(&s.measurements, id) {
        None => Err(UsageError::UnknownId),
        Some(x) => {
            proof {
                lemma_lookup(s@, x as int);
            }
            Ok(s.measurements[x].duration())
        },
    }
}

/// The failsafe deadline of the measurement `id`, in seconds since the epoch:
/// 0 while it waits. The scheduler reports the deadline and never acts on it.
pub fn sched_get_failsafe_stop(s: &Scheduler, id: u32) -> (r: Result<u64, UsageError>)
    requires
        s.wf(),
    ensures
        match r {
            Ok(stop) => has_id(s@, id) && stop == lookup(s@, id).failsafe_stop,
            Err(e) => !has_id(s@, id) && e == UsageError::UnknownId,
        },
{
    match find_id(&s.measurements, id) {
        None => Err(UsageError::UnknownId),
        Some(x) => {
            proof {
                lemma_lookup(s@, x as int);
            }
            Ok(s.measurements[x].failsafe_stop())
        },
    }
}

/// The hosts of the measurement `id`, in the order of its record.
pub fn sched_get_hosts(s: &Scheduler, id: u32) -> (r: Result<Vec<Host>, UsageError>)
    requires
        s.wf(),
    ensures
        match r {
            Ok(hosts) => has_id(s@, id) && host_views(hosts@) == lookup(s@, id).hosts,
            Err(e) => !has_id(s@, id) && e == UsageError::UnknownId,
        },
{
    match find_id(&s.measurements, id) {
        None => Err(UsageError::UnknownId),
        Some(x) => {
            proof {
                lemma_lookup(s@, x as int);
            }
            let hosts = s.measurements[x].hosts();
            let mut out: Vec<Host> = Vec::new();
            let mut i: usize = 0;
            while i < hosts.len()
                invariant
                    i <= hosts.len(),
                    out@.len() == i,
                    forall|k: int| 0 <= k < i ==> #[trigger] out@[k] == hosts@[k],
                decreases hosts.len() - i,
            {
                out.push(hosts[i].clone());
                i += 1;
            }
            assert(host_views(out@) =~= host_views(hosts@));
            Ok(out)
        },
    }
}

} // verus!
