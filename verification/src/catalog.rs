//! The catalog as a mathematical value: a sequence of measurements in the
//! order they were loaded, what holds of it, and how the two operations of the
//! scheduler change it.

use crate::measurement::{MeasurementView, State};
use vstd::prelude::*;

verus! {

/// Whether some measurement of the catalog has this id.
pub open spec fn has_id(cat: Seq<MeasurementView>, id: u32) -> bool {
    exists|i: int| 0 <= i < cat.len() && (#[trigger] cat[i]).id == id
}

/// Where the measurement `id` stands in the catalog, if it has one.
pub open spec fn index_of(cat: Seq<MeasurementView>, id: u32) -> int {
    choose|i: int| 0 <= i < cat.len() && (#[trigger] cat[i]).id == id
}

/// The measurement `id` of the catalog, if it has one.
pub open spec fn lookup(cat: Seq<MeasurementView>, id: u32) -> MeasurementView {
    cat[index_of(cat, id)]
}

/// Whether the catalog has a complete measurement of this id.
pub open spec fn is_complete(cat: Seq<MeasurementView>, id: u32) -> bool {
    exists|i: int|
        0 <= i < cat.len() && (#[trigger] cat[i]).id == id && cat[i].state == State::Complete
}

/// No two measurements share an id.
pub open spec fn ids_unique(cat: Seq<MeasurementView>) -> bool {
    forall|i: int, j: int|
        0 <= i < j < cat.len() ==> (#[trigger] cat[i]).id != (#[trigger] cat[j]).id
}

/// Every dependency names a measurement of the catalog.
pub open spec fn deps_resolve(cat: Seq<MeasurementView>) -> bool {
    forall|i: int, d: u32|
        0 <= i < cat.len() && #[trigger] cat[i].depends.contains(d) ==> has_id(cat, d)
}

/// A measurement has seen finished exactly those of its dependencies that
/// are complete.
pub open spec fn finished_tracks_complete(cat: Seq<MeasurementView>) -> bool {
    forall|i: int, d: u32|
        0 <= i < cat.len() ==> (#[trigger] cat[i].finished_depends.contains(d)
            <==> cat[i].depends.contains(d) && is_complete(cat, d))
}

/// What holds of a catalog at all times.
pub open spec fn catalog_wf(cat: Seq<MeasurementView>) -> bool {
    &&& forall|i: int| 0 <= i < cat.len() ==> (#[trigger] cat[i]).valid()
    &&& ids_unique(cat)
    &&& deps_resolve(cat)
    &&& finished_tracks_complete(cat)
}

/// The measurement at `i` is ready and none before it is.
pub open spec fn offers(cat: Seq<MeasurementView>, i: int) -> bool {
    &&& 0 <= i < cat.len()
    &&& cat[i].ready()
    &&& forall|j: int| 0 <= j < i ==> !(#[trigger] cat[j]).ready()
}

/// Where the first ready measurement stands, if any is ready.
pub open spec fn first_ready(cat: Seq<MeasurementView>) -> Option<int> {
    if exists|i: int| offers(cat, i) {
        Some(choose|i: int| offers(cat, i))
    } else {
        None
    }
}

/// The id of the first ready measurement, or 0 if none is ready.
pub open spec fn next_id(cat: Seq<MeasurementView>) -> u32 {
    match first_ready(cat) {
        Some(i) => cat[i].id,
        None => 0,
    }
}

/// One and a half times the duration, rounded up: the seconds a started
/// measurement is given before it counts as stuck.
pub open spec fn grace(dur: u32) -> nat {
    ((3 * dur + 1) / 2) as nat
}

/// The failsafe deadline of a measurement of duration `dur` that starts at
/// `now`: `now + grace(dur)`, held at the largest 64-bit time.
pub open spec fn failsafe_deadline(now: u64, dur: u32) -> u64 {
    if now + grace(dur) <= u64::MAX {
        (now + grace(dur)) as u64
    } else {
        u64::MAX
    }
}

/// The catalog after the first ready measurement, if there is one, has
/// started at time `now`.
pub open spec fn after_next(cat: Seq<MeasurementView>, now: u64) -> Seq<MeasurementView> {
    match first_ready(cat) {
        Some(i) => cat.update(i, cat[i].started(failsafe_deadline(now, cat[i].dur))),
        None => cat,
    }
}

/// Whether the measurement `id` can be marked done: it exists and is in
/// progress.
pub open spec fn can_finish(cat: Seq<MeasurementView>, id: u32) -> bool {
    has_id(cat, id) && lookup(cat, id).state == State::InProgress
}

/// The catalog after the measurement `id` has completed: it is complete, and
/// every measurement that depends on it has seen it finish.
pub open spec fn after_done(cat: Seq<MeasurementView>, id: u32) -> Seq<MeasurementView> {
    Seq::new(
        cat.len(),
        |k: int|
            if cat[k].id == id {
                cat[k].completed()
            } else if cat[k].depends.contains(id) {
                cat[k].noting(id)
            } else {
                cat[k]
            },
    )
}

/// How many measurements are complete.
pub open spec fn count_complete(cat: Seq<MeasurementView>) -> nat {
    cat.filter(|m: MeasurementView| m.state == State::Complete).len()
}

/// How many measurements are not complete: waiting or in progress.
pub open spec fn count_incomplete(cat: Seq<MeasurementView>) -> nat {
    cat.filter(|m: MeasurementView| m.state != State::Complete).len()
}

/// In a catalog with unique ids a measurement is found under its own id.
pub proof fn lemma_lookup(cat: Seq<MeasurementView>, i: int)
    requires
        ids_unique(cat),
        0 <= i < cat.len(),
    ensures
        has_id(cat, cat[i].id),
        index_of(cat, cat[i].id) == i,
        lookup(cat, cat[i].id) == cat[i],
{
    let j = index_of(cat, cat[i].id);
    assert(0 <= j < cat.len() && cat[j].id == cat[i].id);
    if j < i {
        assert(cat[j].id != cat[i].id);
    } else if i < j {
        assert(cat[i].id != cat[j].id);
    }
}

/// The position that `offers` describes is the one `first_ready` names.
pub proof fn lemma_first_ready(cat: Seq<MeasurementView>, i: int)
    requires
        offers(cat, i),
    ensures
        first_ready(cat) == Some(i),
{
    let j = choose|j: int| offers(cat, j);
    assert(offers(cat, j));
    if j < i {
        assert(!cat[j].ready());
    } else if i < j {
        assert(!cat[i].ready());
    }
}

/// Where any measurement is ready, `first_ready` names one at or before it.
pub proof fn lemma_some_ready(cat: Seq<MeasurementView>, k: int)
    requires
        0 <= k < cat.len(),
        cat[k].ready(),
    ensures
        first_ready(cat) matches Some(i) && 0 <= i <= k && offers(cat, i),
    decreases k,
{
    if exists|j: int| 0 <= j < k && (#[trigger] cat[j]).ready() {
        let j = choose|j: int| 0 <= j < k && (#[trigger] cat[j]).ready();
        lemma_some_ready(cat, j);
    } else {
        assert(offers(cat, k));
        lemma_first_ready(cat, k);
    }
}

/// What `first_ready` names, it offers.
pub proof fn lemma_first_ready_offers(cat: Seq<MeasurementView>)
    ensures
        first_ready(cat) matches Some(i) ==> offers(cat, i),
        first_ready(cat) is None ==> forall|k: int|
            0 <= k < cat.len() ==> !(#[trigger] cat[k]).ready(),
{
    if first_ready(cat) is None {
        assert forall|k: int| 0 <= k < cat.len() implies !(#[trigger] cat[k]).ready() by {
            if cat[k].ready() {
                lemma_some_ready(cat, k);
            }
        }
    }
}

/// A measurement of a valid catalog has seen all its dependencies finish
/// exactly when all of them are complete.
pub proof fn lemma_all_finished(cat: Seq<MeasurementView>, k: int)
    requires
        catalog_wf(cat),
        0 <= k < cat.len(),
    ensures
        cat[k].finished_depends.len() <= cat[k].depends.len(),
        cat[k].finished_depends.len() == cat[k].depends.len() <==> forall|d: u32|
            cat[k].depends.contains(d) ==> is_complete(cat, d),
{
    let fin = cat[k].finished_depends;
    let dep = cat[k].depends;
    assert(cat[k].valid());
    fin.unique_seq_to_set();
    dep.unique_seq_to_set();
    vstd::seq_lib::seq_to_set_is_finite(fin);
    vstd::seq_lib::seq_to_set_is_finite(dep);
    assert(fin.to_set().subset_of(dep.to_set()));
    vstd::set_lib::lemma_len_subset(fin.to_set(), dep.to_set());
    if fin.len() == dep.len() {
        vstd::set_lib::lemma_subset_equality(fin.to_set(), dep.to_set());
        assert forall|d: u32| dep.contains(d) implies is_complete(cat, d) by {
            assert(dep.to_set().contains(d));
            assert(fin.to_set().contains(d));
            assert(cat[k].finished_depends.contains(d));
        }
    }
    if forall|d: u32| dep.contains(d) ==> is_complete(cat, d) {
        assert forall|d: u32| dep.to_set().contains(d) implies fin.to_set().contains(d) by {
            assert(dep.contains(d));
            assert(cat[k].finished_depends.contains(d));
        }
        assert(fin.to_set() =~= dep.to_set());
    }
}

/// Starting the first ready measurement keeps a catalog valid.
pub proof fn lemma_after_next_wf(cat: Seq<MeasurementView>, now: u64)
    requires
        catalog_wf(cat),
    ensures
        catalog_wf(after_next(cat, now)),
{
    lemma_first_ready_offers(cat);
    if let Some(i) = first_ready(cat) {
        let next = after_next(cat, now);
        assert forall|k: int| 0 <= k < next.len() implies (#[trigger] next[k]).valid() by {
            assert(cat[k].valid());
        }
        assert forall|p: int, q: int| 0 <= p < q < next.len() implies (#[trigger] next[p]).id != (
        #[trigger] next[q]).id by {
            assert(cat[p].id != cat[q].id);
        }
        assert forall|d: u32| is_complete(next, d) == is_complete(cat, d) by {
            if is_complete(cat, d) {
                let j = choose|j: int|
                    0 <= j < cat.len() && (#[trigger] cat[j]).id == d && cat[j].state
                        == State::Complete;
                assert(next[j].id == d && next[j].state == State::Complete);
            }
            if is_complete(next, d) {
                let j = choose|j: int|
                    0 <= j < next.len() && (#[trigger] next[j]).id == d && next[j].state
                        == State::Complete;
                assert(cat[j].id == d && cat[j].state == State::Complete);
            }
        }
        assert forall|p: int, d: u32| 0 <= p < next.len() && #[trigger] next[p].depends.contains(
            d,
        ) implies has_id(next, d) by {
            assert(cat[p].depends.contains(d));
            let j = choose|j: int| 0 <= j < cat.len() && (#[trigger] cat[j]).id == d;
            assert(next[j].id == d);
        }
        assert forall|p: int, d: u32| 0 <= p < next.len() implies (
        #[trigger] next[p].finished_depends.contains(d) <==> next[p].depends.contains(d)
            && is_complete(next, d)) by {
            assert(cat[p].finished_depends.contains(d) <==> cat[p].depends.contains(d)
                && is_complete(cat, d));
        }
    }
}

/// Completing a measurement that is in progress keeps a catalog valid, and
/// makes complete that measurement and no other.
pub proof fn lemma_after_done_wf(cat: Seq<MeasurementView>, id: u32)
    requires
        catalog_wf(cat),
        can_finish(cat, id),
    ensures
        catalog_wf(after_done(cat, id)),
        forall|d: u32| is_complete(after_done(cat, id), d) <==> d == id || is_complete(cat, d),
        !is_complete(cat, id),
{
    let next = after_done(cat, id);
    let x = index_of(cat, id);
    assert(0 <= x < cat.len() && cat[x].id == id);
    assert(!is_complete(cat, id)) by {
        if is_complete(cat, id) {
            let j = choose|j: int|
                0 <= j < cat.len() && (#[trigger] cat[j]).id == id && cat[j].state
                    == State::Complete;
            lemma_lookup(cat, j);
        }
    }
    assert forall|d: u32| is_complete(next, d) <==> d == id || is_complete(cat, d) by {
        if is_complete(cat, d) {
            let j = choose|j: int|
                0 <= j < cat.len() && (#[trigger] cat[j]).id == d && cat[j].state
                    == State::Complete;
            assert(next[j].id == d && next[j].state == State::Complete);
        }
        if d == id {
            assert(next[x].id == d && next[x].state == State::Complete);
        }
        if is_complete(next, d) {
            let j = choose|j: int|
                0 <= j < next.len() && (#[trigger] next[j]).id == d && next[j].state
                    == State::Complete;
            if d != id {
                assert(cat[j].id == d && cat[j].state == State::Complete);
            }
        }
    }
    assert forall|p: int, q: int| 0 <= p < q < next.len() implies (#[trigger] next[p]).id != (
    #[trigger] next[q]).id by {
        assert(cat[p].id != cat[q].id);
    }
    assert forall|p: int, d: u32| 0 <= p < next.len() && #[trigger] next[p].depends.contains(
        d,
    ) implies has_id(next, d) by {
        assert(cat[p].depends.contains(d));
        let j = choose|j: int| 0 <= j < cat.len() && (#[trigger] cat[j]).id == d;
        assert(next[j].id == d);
    }
    assert forall|p: int, d: u32| 0 <= p < next.len() implies (
    #[trigger] next[p].finished_depends.contains(d) <==> next[p].depends.contains(d)
        && is_complete(next, d)) by {
        assert(cat[p].valid());
        assert(cat[p].finished_depends.contains(d) <==> cat[p].depends.contains(d) && is_complete(
            cat,
            d,
        ));
        assert(cat[p].finished_depends.contains(id) <==> cat[p].depends.contains(id)
            && is_complete(cat, id));
        if cat[p].id != id && cat[p].depends.contains(id) {
            let fin = cat[p].finished_depends;
            assert(fin.push(id)[fin.len() as int] == id);
            if fin.contains(d) {
                let j = choose|j: int| 0 <= j < fin.len() && fin[j] == d;
                assert(fin.push(id)[j] == d);
            }
        }
    }
    assert forall|p: int| 0 <= p < next.len() implies (#[trigger] next[p]).valid() by {
        assert(cat[p].valid());
        if cat[p].id == id {
            lemma_lookup(cat, p);
        } else if cat[p].depends.contains(id) {
            let fin = cat[p].finished_depends;
            assert(cat[p].finished_depends.contains(id) <==> cat[p].depends.contains(id)
                && is_complete(cat, id));
            assert(!fin.contains(id));
            lemma_all_finished(cat, p);
            assert(cat[p].state == State::Waiting);
            assert forall|d: u32| fin.push(id).contains(d) implies cat[p].depends.contains(d) by {
                let j = choose|j: int| 0 <= j < fin.push(id).len() && fin.push(id)[j] == d;
                if j < fin.len() {
                    assert(fin[j] == d);
                }
            }
        }
    }
}

} // verus!
