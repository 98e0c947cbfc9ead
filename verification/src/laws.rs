//! What holds of the scheduler across calls, stated over catalogs as
//! mathematical values and proved from the definitions of the operations.

use crate::catalog::{
    after_done, after_next, can_finish, catalog_wf, count_complete, count_incomplete,
    failsafe_deadline, first_ready, has_id, is_complete, lemma_after_done_wf, lemma_after_next_wf, lemma_all_finished,
    lemma_first_ready_offers, lemma_lookup, lemma_some_ready, lookup, next_id,
};
use crate::load::{all_fresh, load_text, read_records};
use crate::measurement::{MeasurementView, State};
use crate::record::parse_record;
use crate::text::{pieces, Delimiter};
use vstd::prelude::*;

verus! {

/// One call of the host on a loaded catalog.
pub enum Call {
    /// Ask for the next ready measurement, at time `now`.
    Next { now: u64 },
    /// Report the measurement `id` done.
    Done { id: u32 },
}

/// The catalog after one call. A report that is refused changes nothing.
pub open spec fn step(cat: Seq<MeasurementView>, call: Call) -> Seq<MeasurementView> {
    match call {
        Call::Next { now } => after_next(cat, now),
        Call::Done { id } => if can_finish(cat, id) {
            after_done(cat, id)
        } else {
            cat
        },
    }
}

/// The catalog after a run of calls, first to last.
pub open spec fn run(cat: Seq<MeasurementView>, calls: Seq<Call>) -> Seq<MeasurementView>
    decreases calls.len(),
{
    if calls.len() == 0 {
        cat
    } else {
        step(run(cat, calls.drop_last()), calls.last())
    }
}

/// How far along a state is.
pub open spec fn rank(s: State) -> nat {
    match s {
        State::Waiting => 0,
        State::InProgress => 1,
        State::Complete => 2,
    }
}

/// `b` is `a` some calls later: the same measurements in the same order,
/// what was read of them unchanged, no state further back, and nothing taken
/// from what they have seen finish.
pub open spec fn advances(a: Seq<MeasurementView>, b: Seq<MeasurementView>) -> bool {
    &&& a.len() == b.len()
    &&& forall|k: int|
        0 <= k < a.len() ==> {
            &&& (#[trigger] b[k]).id == a[k].id
            &&& b[k].fp == a[k].fp
            &&& b[k].dur == a[k].dur
            &&& b[k].hosts == a[k].hosts
            &&& b[k].depends == a[k].depends
            &&& rank(a[k].state) <= rank(b[k].state)
            &&& a[k].finished_depends.is_prefix_of(b[k].finished_depends)
        }
}

/// The catalog after asking for the next measurement at each of `times`,
/// with nothing reported done in between.
pub open spec fn after_nexts(cat: Seq<MeasurementView>, times: Seq<u64>) -> Seq<MeasurementView>
    decreases times.len(),
{
    if times.len() == 0 {
        cat
    } else {
        after_nexts(after_next(cat, times[0]), times.drop_first())
    }
}

/// The measurements that are complete and those that are not are together
/// all the measurements.
pub proof fn law_counts_add_up(cat: Seq<MeasurementView>)
    ensures
        count_complete(cat) + count_incomplete(cat) == cat.len(),
    decreases cat.len(),
{
    let done = |m: MeasurementView| m.state == State::Complete;
    let open = |m: MeasurementView| m.state != State::Complete;
    if cat.len() == 0 {
        cat.lemma_filter_len(done);
        cat.lemma_filter_len(open);
    } else {
        law_counts_add_up(cat.drop_last());
        assert(cat.drop_last().push(cat.last()) == cat);
        cat.drop_last().lemma_filter_len_push(done, cat.last());
        cat.drop_last().lemma_filter_len_push(open, cat.last());
    }
}

/// The result 0 means that nothing is ready, and nothing else does: it is
/// no measurement's id.
pub proof fn law_zero_means_none_ready(cat: Seq<MeasurementView>)
    requires
        catalog_wf(cat),
    ensures
        next_id(cat) == 0 <==> forall|k: int| 0 <= k < cat.len() ==> !(#[trigger] cat[k]).ready(),
        next_id(cat) != 0 ==> has_id(cat, next_id(cat)) && lookup(cat, next_id(cat)).ready(),
{
    lemma_first_ready_offers(cat);
    if let Some(i) = first_ready(cat) {
        assert(cat[i].valid());
        lemma_lookup(cat, i);
    }
}

/// A measurement is ready exactly when it waits and every one of its
/// dependencies is complete; one that has started has them all complete.
pub proof fn law_ready_means_dependencies_complete(cat: Seq<MeasurementView>, k: int)
    requires
        catalog_wf(cat),
        0 <= k < cat.len(),
    ensures
        cat[k].ready() <==> cat[k].state == State::Waiting && forall|d: u32|
            cat[k].depends.contains(d) ==> is_complete(cat, d),
        cat[k].state != State::Waiting ==> forall|d: u32|
            cat[k].depends.contains(d) ==> is_complete(cat, d),
        cat[k].finished_depends.len() <= cat[k].depends.len(),
{
    lemma_all_finished(cat, k);
    assert(cat[k].valid());
}

/// Every call leaves a valid catalog valid, and only moves it on: no
/// measurement comes or goes, no state goes back, and what a measurement has
/// seen finish only grows at its end.
pub proof fn law_calls_only_advance(cat: Seq<MeasurementView>, call: Call)
    requires
        catalog_wf(cat),
    ensures
        catalog_wf(step(cat, call)),
        advances(cat, step(cat, call)),
{
    let next = step(cat, call);
    match call {
        Call::Next { now } => {
            lemma_after_next_wf(cat, now);
            lemma_first_ready_offers(cat);
            assert forall|k: int| 0 <= k < cat.len() implies cat[k].finished_depends.is_prefix_of(
                (#[trigger] next[k]).finished_depends,
            ) by {
                assert(cat[k].finished_depends =~= next[k].finished_depends.subrange(
                    0,
                    cat[k].finished_depends.len() as int,
                ));
            }
        },
        Call::Done { id } => {
            if can_finish(cat, id) {
                lemma_after_done_wf(cat, id);
                assert forall|k: int| 0 <= k < cat.len() implies {
                    &&& rank(cat[k].state) <= rank((#[trigger] next[k]).state)
                    &&& cat[k].finished_depends.is_prefix_of(next[k].finished_depends)
                } by {
                    assert(cat[k].finished_depends =~= next[k].finished_depends.subrange(
                        0,
                        cat[k].finished_depends.len() as int,
                    ));
                    if cat[k].id == id {
                        lemma_lookup(cat, k);
                    }
                }
            } else {
                assert forall|k: int| 0 <= k < cat.len() implies cat[k].finished_depends.is_prefix_of(
                    (#[trigger] next[k]).finished_depends,
                ) by {
                    assert(cat[k].finished_depends =~= next[k].finished_depends.subrange(
                        0,
                        cat[k].finished_depends.len() as int,
                    ));
                }
            }
        },
    }
}

/// What holds of one call holds of any run of calls.
pub proof fn law_runs_only_advance(cat: Seq<MeasurementView>, calls: Seq<Call>)
    requires
        catalog_wf(cat),
    ensures
        catalog_wf(run(cat, calls)),
        advances(cat, run(cat, calls)),
    decreases calls.len(),
{
    if calls.len() == 0 {
        assert forall|k: int| 0 <= k < cat.len() implies (#[trigger] cat[k]).finished_depends.is_prefix_of(
            cat[k].finished_depends,
        ) by {
            assert(cat[k].finished_depends =~= cat[k].finished_depends.subrange(
                0,
                cat[k].finished_depends.len() as int,
            ));
        }
    } else {
        let mid = run(cat, calls.drop_last());
        let end = run(cat, calls);
        law_runs_only_advance(cat, calls.drop_last());
        law_calls_only_advance(mid, calls.last());
        assert forall|k: int| 0 <= k < cat.len() implies {
            &&& (#[trigger] end[k]).id == cat[k].id
            &&& end[k].fp == cat[k].fp
            &&& end[k].dur == cat[k].dur
            &&& end[k].hosts == cat[k].hosts
            &&& end[k].depends == cat[k].depends
            &&& rank(cat[k].state) <= rank(end[k].state)
            &&& cat[k].finished_depends.is_prefix_of(end[k].finished_depends)
        } by {
            let a = cat[k].finished_depends;
            let b = mid[k].finished_depends;
            let c = end[k].finished_depends;
            assert(a.is_prefix_of(b) && b.is_prefix_of(c));
            assert(a =~= c.subrange(0, a.len() as int));
        }
    }
}

/// The measurement that a call offers is the one that starts: after the call
/// it is in progress, its failsafe deadline one and a half durations after
/// `now`, and it is otherwise as it was. No other measurement changes.
pub proof fn law_next_starts_what_it_offers(cat: Seq<MeasurementView>, now: u64)
    requires
        catalog_wf(cat),
        next_id(cat) != 0,
    ensures
        has_id(after_next(cat, now), next_id(cat)),
        lookup(after_next(cat, now), next_id(cat)) == lookup(cat, next_id(cat)).started(
            failsafe_deadline(now, lookup(cat, next_id(cat)).dur),
        ),
        lookup(cat, next_id(cat)).state == State::Waiting,
        forall|id: u32|
            id != next_id(cat) && has_id(cat, id) ==> lookup(after_next(cat, now), id) == lookup(
                cat,
                id,
            ),
{
    lemma_first_ready_offers(cat);
    lemma_after_next_wf(cat, now);
    let i = first_ready(cat)->0;
    let next = after_next(cat, now);
    lemma_lookup(cat, i);
    lemma_lookup(next, i);
    assert forall|id: u32| id != next_id(cat) && has_id(cat, id) implies lookup(next, id)
        == lookup(cat, id) by {
        let j = choose|j: int| 0 <= j < cat.len() && (#[trigger] cat[j]).id == id;
        lemma_lookup(cat, j);
        lemma_lookup(next, j);
    }
}

/// A measurement reported done is complete, and a second report of it is
/// refused.
pub proof fn law_done_twice_is_refused(cat: Seq<MeasurementView>, id: u32)
    requires
        catalog_wf(cat),
        can_finish(cat, id),
    ensures
        has_id(after_done(cat, id), id),
        lookup(after_done(cat, id), id) == lookup(cat, id).completed(),
        !can_finish(after_done(cat, id), id),
{
    let next = after_done(cat, id);
    lemma_after_done_wf(cat, id);
    let i = choose|i: int| 0 <= i < cat.len() && (#[trigger] cat[i]).id == id;
    lemma_lookup(cat, i);
    assert(next[i] == cat[i].completed());
    lemma_lookup(next, i);
}

/// A measurement is offered once: after the call that returned its id, no
/// later call returns that id again, whatever the host does in between.
pub proof fn law_offered_once(cat: Seq<MeasurementView>, now: u64, calls: Seq<Call>)
    requires
        catalog_wf(cat),
        next_id(cat) != 0,
    ensures
        next_id(run(after_next(cat, now), calls)) != next_id(cat),
{
    lemma_first_ready_offers(cat);
    let i = first_ready(cat)->0;
    let started = after_next(cat, now);
    let end = run(started, calls);
    lemma_after_next_wf(cat, now);
    law_runs_only_advance(started, calls);
    assert(started[i].state == State::InProgress);
    assert(end[i].id == started[i].id);
    assert(end[i].state != State::Waiting);
    lemma_first_ready_offers(end);
    if let Some(j) = first_ready(end) {
        assert(end[j].ready());
        assert(end[j].id == started[j].id);
        if j < i {
            assert(end[j].id != end[i].id);
        } else {
            assert(end[i].id != end[j].id);
        }
    }
}

/// A ready measurement at position `k` is offered within `k + 1` calls, as
/// long as nothing is reported done in between: it stays ready until it is
/// its turn.
pub proof fn law_ready_is_offered(cat: Seq<MeasurementView>, k: int, times: Seq<u64>)
    requires
        catalog_wf(cat),
        0 <= k < cat.len(),
        cat[k].ready(),
        times.len() >= k,
    ensures
        exists|n: int| 0 <= n <= k && next_id(#[trigger] after_nexts(cat, times.take(n))) == cat[k].id,
{
    lemma_some_ready(cat, k);
    lemma_offered_within(cat, k, times);
}

proof fn lemma_offered_within(cat: Seq<MeasurementView>, k: int, times: Seq<u64>)
    requires
        catalog_wf(cat),
        0 <= k < cat.len(),
        cat[k].ready(),
        first_ready(cat) is Some,
        times.len() >= k - first_ready(cat)->0,
    ensures
        exists|n: int|
            0 <= n <= k - first_ready(cat)->0 && next_id(
                #[trigger] after_nexts(cat, times.take(n)),
            ) == cat[k].id,
    decreases k - first_ready(cat)->0,
{
    lemma_first_ready_offers(cat);
    lemma_some_ready(cat, k);
    let i = first_ready(cat)->0;
    if i == k {
        assert(after_nexts(cat, times.take(0)) == cat);
    } else {
        let next = after_next(cat, times[0]);
        lemma_after_next_wf(cat, times[0]);
        assert(next[k] == cat[k]);
        lemma_some_ready(next, k);
        lemma_first_ready_offers(next);
        let i1 = first_ready(next)->0;
        assert(i1 > i) by {
            if i1 < i {
                assert(next[i1] == cat[i1]);
                assert(!cat[i1].ready());
            }
        }
        let rest = times.drop_first();
        lemma_offered_within(next, k, rest);
        let n1 = choose|n: int|
            0 <= n <= k - i1 && next_id(#[trigger] after_nexts(next, rest.take(n))) == next[k].id;
        let m = times.take(n1 + 1);
        assert(m.drop_first() == rest.take(n1));
        assert(m[0] == times[0]);
        assert(after_nexts(cat, m) == after_nexts(next, rest.take(n1)));
    }
}

/// A measurement without dependencies is ready from the moment it is loaded.
pub proof fn law_free_is_ready(cat: Seq<MeasurementView>, k: int)
    requires
        all_fresh(cat),
        0 <= k < cat.len(),
    ensures
        cat[k].ready() <==> cat[k].depends.len() == 0,
{
    assert(cat[k].fresh());
}

/// When a measurement completes, each measurement that lists it as a
/// dependency has seen one more finish, namely that one, and no other
/// measurement has seen anything new.
pub proof fn law_completion_reaches_dependents(cat: Seq<MeasurementView>, id: u32, k: int)
    requires
        catalog_wf(cat),
        can_finish(cat, id),
        0 <= k < cat.len(),
    ensures
        cat[k].depends.contains(id) ==> after_done(cat, id)[k].finished_depends
            == cat[k].finished_depends.push(id),
        !cat[k].depends.contains(id) ==> after_done(cat, id)[k].finished_depends
            == cat[k].finished_depends,
        after_done(cat, id)[k].finished_depends.len() == cat[k].finished_depends.len() + if cat[k].depends.contains(
            id,
        ) {
            1int
        } else {
            0int
        },
        after_done(cat, id)[k].state == if cat[k].id == id {
            State::Complete
        } else {
            cat[k].state
        },
{
    assert(cat[k].valid());
}

/// A waiting measurement whose last outstanding dependency completes is
/// ready at once.
pub proof fn law_ready_after_last_dependency(cat: Seq<MeasurementView>, id: u32, k: int)
    requires
        catalog_wf(cat),
        can_finish(cat, id),
        0 <= k < cat.len(),
        cat[k].state == State::Waiting,
        cat[k].depends.contains(id),
        forall|d: u32| cat[k].depends.contains(d) && d != id ==> is_complete(cat, d),
    ensures
        !cat[k].ready(),
        after_done(cat, id)[k].ready(),
{
    let next = after_done(cat, id);
    lemma_after_done_wf(cat, id);
    lemma_all_finished(cat, k);
    lemma_all_finished(next, k);
    assert(cat[k].valid());
    assert(cat[k].id != id);
    assert(next[k] == cat[k].noting(id));
    assert forall|d: u32| next[k].depends.contains(d) implies is_complete(next, d) by {
        if d != id {
            assert(is_complete(cat, d));
        }
    }
}

/// Every record of the text is in the catalog that the text loads as, under
/// its id and as its line describes it.
pub proof fn law_load_keeps_records(text: Seq<char>, k: int)
    requires
        load_text(text) is Ok,
        0 <= k < pieces(text, Delimiter::Exactly('\n')).len(),
        parse_record(pieces(text, Delimiter::Exactly('\n'))[k]) matches Ok(Some(_)),
    ensures
        ({
            let cat = load_text(text)->Ok_0;
            let m = parse_record(pieces(text, Delimiter::Exactly('\n'))[k])->Ok_0->0;
            has_id(cat, m.id) && lookup(cat, m.id) == m
        }),
{
    let lines = pieces(text, Delimiter::Exactly('\n'));
    let cat = load_text(text)->Ok_0;
    lemma_record_is_read(lines, k);
    let m = parse_record(lines[k])->Ok_0->0;
    let j = choose|j: int| 0 <= j < cat.len() && cat[j] == m;
    lemma_lookup(cat, j);
}

proof fn lemma_record_is_read(lines: Seq<Seq<char>>, k: int)
    requires
        read_records(lines) is Ok,
        0 <= k < lines.len(),
        parse_record(lines[k]) matches Ok(Some(_)),
    ensures
        exists|j: int|
            0 <= j < read_records(lines)->Ok_0.len() && read_records(lines)->Ok_0[j]
                == parse_record(lines[k])->Ok_0->0,
    decreases lines.len(),
{
    let records = read_records(lines)->Ok_0;
    let head = read_records(lines.drop_last())->Ok_0;
    if k == lines.len() - 1 {
        assert(records[head.len() as int] == parse_record(lines[k])->Ok_0->0);
    } else {
        assert(lines.drop_last()[k] == lines[k]);
        lemma_record_is_read(lines.drop_last(), k);
        let j = choose|j: int|
            0 <= j < head.len() && head[j] == parse_record(lines[k])->Ok_0->0;
        assert(records[j] == head[j]);
    }
}

} // verus!
