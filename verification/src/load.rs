//! Loading a catalog from the text of a schedule.
//!
//! A load reads every line, then checks the records against each other, and
//! only then makes the catalog: a load that fails leaves nothing behind.

use crate::catalog::{
    catalog_wf, deps_resolve, first_ready, has_id, ids_unique, is_complete,
    lemma_first_ready_offers, lemma_some_ready,
};
use crate::error::LoadError;
use crate::measurement::{Measurement, MeasurementView};
use crate::record::parse_record;
use crate::scheduler::{sched_next_internal, views, Scheduler};
use crate::text::{chars_of, pieces, rows, split_by, Delimiter};
use std::collections::HashSet;
use vstd::prelude::*;

verus! {

broadcast use vstd::std_specs::hash::group_hash_axioms;

/// The records that the lines describe, in order, or the error of the first
/// line that has one.
pub open spec fn read_records(lines: Seq<Seq<char>>) -> Result<Seq<MeasurementView>, LoadError>
    decreases lines.len(),
{
    if lines.len() == 0 {
        Ok(Seq::empty())
    } else {
        match read_records(lines.drop_last()) {
            Err(e) => Err(e),
            Ok(head) => match parse_record(lines.last()) {
                Err(e) => Err(e),
                Ok(None) => Ok(head),
                Ok(Some(m)) => Ok(head.push(m)),
            },
        }
    }
}

/// The records themselves, once they are known to have unique ids and
/// dependencies that all name one of them.
pub open spec fn check_records(records: Seq<MeasurementView>) -> Result<
    Seq<MeasurementView>,
    LoadError,
> {
    if !ids_unique(records) {
        Err(LoadError::DuplicateId)
    } else if !deps_resolve(records) {
        Err(LoadError::UnknownDependency)
    } else {
        Ok(records)
    }
}

/// The catalog that the text of a schedule describes, one record to a line.
pub open spec fn load_text(text: Seq<char>) -> Result<Seq<MeasurementView>, LoadError> {
    match read_records(pieces(text, Delimiter::Exactly('\n'))) {
        Err(e) => Err(e),
        Ok(records) => check_records(records),
    }
}

/// The form of a schedule, told by its name.
#[derive(Clone, Copy, Debug, PartialEq, Eq, Structural)]
pub enum ScheduleFormat {
    /// One record to a line: the form that is loaded.
    Text,
    /// Rounds of fingerprints: the form that is only converted to text.
    Rounds,
    Unknown,
}

/// The ending of the name of a schedule in text form.
pub open spec fn text_suffix() -> Seq<char> {
    seq!['.', 't', 'x', 't']
}

/// The ending of the name of a schedule in rounds.
pub open spec fn rounds_suffix() -> Seq<char> {
    seq!['.', 'j', 's', 'o', 'n']
}

/// The form that a name tells of. A name is taken as it is: letter case
/// counts, and so does anything behind the ending.
pub open spec fn format_of(name: Seq<char>) -> ScheduleFormat {
    if text_suffix().is_suffix_of(name) {
        ScheduleFormat::Text
    } else if rounds_suffix().is_suffix_of(name) {
        ScheduleFormat::Rounds
    } else {
        ScheduleFormat::Unknown
    }
}

/// Whether some measurement has no dependency at all.
pub open spec fn has_free(cat: Seq<MeasurementView>) -> bool {
    exists|i: int| 0 <= i < cat.len() && (#[trigger] cat[i]).depends.len() == 0
}

/// The catalog that a schedule of the given name and text loads as.
pub open spec fn load(name: Seq<char>, text: Seq<char>) -> Result<Seq<MeasurementView>, LoadError> {
    match format_of(name) {
        ScheduleFormat::Unknown => Err(LoadError::UnknownFormat),
        ScheduleFormat::Rounds => Err(LoadError::UnsupportedFormat),
        ScheduleFormat::Text => match load_text(text) {
            Err(e) => Err(e),
            Ok(cat) => if has_free(cat) {
                Ok(cat)
            } else {
                Err(LoadError::NoReadyWork)
            },
        },
    }
}

/// What the outcome of a load stands for.
pub open spec fn loaded_view(r: Result<Scheduler, LoadError>) -> Result<
    Seq<MeasurementView>,
    LoadError,
> {
    match r {
        Ok(s) => Ok(s@),
        Err(e) => Err(e),
    }
}

/// Every measurement is valid and as it was read.
pub open spec fn all_fresh(cat: Seq<MeasurementView>) -> bool {
    forall|i: int| 0 <= i < cat.len() ==> (#[trigger] cat[i]).valid() && cat[i].fresh()
}

/// Records as they were read make a valid catalog once their ids are unique
/// and their dependencies resolve.
pub proof fn lemma_fresh_catalog(cat: Seq<MeasurementView>)
    requires
        all_fresh(cat),
        ids_unique(cat),
        deps_resolve(cat),
    ensures
        catalog_wf(cat),
{
    assert forall|i: int, d: u32| 0 <= i < cat.len() implies (
    #[trigger] cat[i].finished_depends.contains(d) <==> cat[i].depends.contains(d) && is_complete(
        cat,
        d,
    )) by {
        assert(cat[i].fresh());
        if is_complete(cat, d) {
            let j = choose|j: int|
                0 <= j < cat.len() && (#[trigger] cat[j]).id == d && cat[j].state
                    == crate::measurement::State::Complete;
            assert(cat[j].fresh());
        }
    }
}

/// Every record that lines describe is valid and as it was read.
pub proof fn lemma_read_records_fresh(lines: Seq<Seq<char>>)
    ensures
        read_records(lines) matches Ok(records) ==> all_fresh(records),
    decreases lines.len(),
{
    if lines.len() > 0 {
        lemma_read_records_fresh(lines.drop_last());
        crate::record::lemma_parsed_is_valid(lines.last());
    }
}

/// In a catalog as it was read, a measurement is ready exactly when it has
/// no dependency.
pub proof fn lemma_fresh_ready(cat: Seq<MeasurementView>)
    requires
        all_fresh(cat),
    ensures
        has_free(cat) <==> first_ready(cat) is Some,
{
    lemma_first_ready_offers(cat);
    if has_free(cat) {
        let i = choose|i: int| 0 <= i < cat.len() && (#[trigger] cat[i]).depends.len() == 0;
        assert(cat[i].fresh());
        lemma_some_ready(cat, i);
    }
    if let Some(i) = first_ready(cat) {
        assert(cat[i].fresh());
    }
}

/// Checks the records against each other and makes the catalog of them, in
/// their order: `DuplicateId` where two share an id, else `UnknownDependency`
/// where a dependency names none of them. The records are taken as they were
/// read: waiting, with nothing seen finished.
pub fn check_and_insert_measurements(measurements: Vec<Measurement>) -> (r: Result<
    Scheduler,
    LoadError,
>)
    requires
        all_fresh(views(measurements@)),
    ensures
        loaded_view(r) == check_records(views(measurements@)),
        r matches Ok(s) ==> s.wf() && all_fresh(s@),
{
    let ghost cat = views(measurements@);
    let mut ids: HashSet<u32> = HashSet::new();
    let mut i: usize = 0;
    while i < measurements.len()
        invariant
            i <= measurements.len(),
            cat == views(measurements@),
            forall|x: u32|
                ids@.contains(x) <==> exists|j: int| 0 <= j < i && (#[trigger] cat[j]).id == x,
            forall|p: int, q: int|
                0 <= p < q < i ==> (#[trigger] cat[p]).id != (#[trigger] cat[q]).id,
        decreases measurements.len() - i,
    {
        let id = measurements[i].id();
        let ghost before = ids@;
        if !ids.insert(id) {
            proof {
                let j = choose|j: int| 0 <= j < i && (#[trigger] cat[j]).id == id;
                assert(cat[j].id == cat[i as int].id);
            }
            return Err(LoadError::DuplicateId);
        }
        proof {
            assert forall|x: u32| ids@.contains(x) implies exists|j: int|
                0 <= j < i + 1 && (#[trigger] cat[j]).id == x by {
                if x == id {
                    assert(cat[i as int].id == x);
                } else {
                    assert(before.contains(x));
                    let j = choose|j: int| 0 <= j < i && (#[trigger] cat[j]).id == x;
                    assert(cat[j].id == x);
                }
            }
        }
        i += 1;
    }
    assert(ids_unique(cat));
    assert(forall|x: u32| ids@.contains(x) <==> has_id(cat, x));
    let mut i: usize = 0;
    while i < measurements.len()
        invariant
            i <= measurements.len(),
            cat == views(measurements@),
            ids_unique(cat),
            forall|x: u32| ids@.contains(x) <==> has_id(cat, x),
            forall|p: int, d: u32|
                0 <= p < i && #[trigger] cat[p].depends.contains(d) ==> has_id(cat, d),
        decreases measurements.len() - i,
    {
        let deps = measurements[i].depends();
        let mut k: usize = 0;
        while k < deps.len()
            invariant
                k <= deps.len(),
                i < measurements.len(),
                cat == views(measurements@),
                deps@ == cat[i as int].depends,
                ids_unique(cat),
                forall|x: u32| ids@.contains(x) <==> has_id(cat, x),
                forall|q: int| 0 <= q < k ==> has_id(cat, #[trigger] deps@[q]),
            decreases deps.len() - k,
        {
            if !ids.contains(&deps[k]) {
                proof {
                    assert(cat[i as int].depends.contains(deps@[k as int]));
                    assert(!has_id(cat, deps@[k as int]));
                }
                return Err(LoadError::UnknownDependency);
            }
            k += 1;
        }
        i += 1;
    }
    assert(deps_resolve(cat));
    proof {
        lemma_fresh_catalog(cat);
    }
    Ok(Scheduler::with_measurements(measurements))
}

/// Loads the catalog that the text of a schedule describes.
///
/// The text is read line by line; the first line at fault decides the
/// error. Nothing is started: every measurement waits.
pub fn sched_new_from_txt(text: &str) -> (r: Result<Scheduler, LoadError>)
    ensures
        loaded_view(r) == load_text(text@),
        r matches Ok(s) ==> s.wf() && all_fresh(s@),
{
    let chars = chars_of(text);
    let lines = split_by(&chars, Delimiter::Exactly('\n'));
    let ghost all = rows(lines@);
    let mut measurements: Vec<Measurement> = Vec::new();
    let mut i: usize = 0;
    assert(all.take(0) == Seq::<Seq<char>>::empty());
    assert(views(measurements@) == Seq::<MeasurementView>::empty());
    while i < lines.len()
        invariant
            i <= lines.len(),
            all == rows(lines@),
            all == pieces(text@, Delimiter::Exactly('\n')),
            read_records(all.take(i as int)) == Ok::<Seq<MeasurementView>, LoadError>(
                views(measurements@),
            ),
        decreases lines.len() - i,
    {
        proof {
            assert(all.take(i + 1).drop_last() == all.take(i as int));
            assert(all.take(i + 1).last() == lines@[i as int]@);
        }
        match Measurement::from_chars(&lines[i]) {
            Err(e) => {
                proof {
                    assert(parse_record(all.take(i + 1).last()) == Err::<
                        Option<MeasurementView>,
                        LoadError,
                    >(e));
                    assert(read_records(all.take(i + 1)) == Err::<Seq<MeasurementView>, LoadError>(
                        e,
                    ));
                    lemma_read_records_prefix(all, i + 1);
                }
                return Err(e);
            },
            Ok(None) => {},
            Ok(Some(m)) => {
                let ghost before = views(measurements@);
                measurements.push(m);
                assert(views(measurements@) == before.push(m@));
            },
        }
        i += 1;
    }
    proof {
        assert(all.take(lines.len() as int) == all);
        lemma_read_records_fresh(all);
    }
    check_and_insert_measurements(measurements)
}

/// An error in a prefix of the lines is the error of the whole.
pub proof fn lemma_read_records_prefix(lines: Seq<Seq<char>>, k: int)
    requires
        0 <= k <= lines.len(),
    ensures
        read_records(lines.take(k)) matches Err(e) ==> read_records(lines) == Err::<
            Seq<MeasurementView>,
            LoadError,
        >(e),
    decreases lines.len(),
{
    if k == lines.len() {
        assert(lines.take(k) == lines);
    } else {
        assert(lines.drop_last().take(k) == lines.take(k));
        lemma_read_records_prefix(lines.drop_last(), k);
    }
}

fn has_suffix(s: &Vec<char>, suffix: &Vec<char>) -> (r: bool)
    ensures
        r == suffix@.is_suffix_of(s@),
{
    if suffix.len() > s.len() {
        return false;
    }
    let start = s.len() - suffix.len();
    let ghost tail = s@.subrange(start as int, s.len() as int);
    let mut i: usize = 0;
    while i < suffix.len()
        invariant
            i <= suffix.len(),
            suffix.len() <= s.len(),
            start == s.len() - suffix.len(),
            tail == s@.subrange(start as int, s.len() as int),
            forall|k: int| 0 <= k < i ==> suffix@[k] == tail[k],
        decreases suffix.len() - i,
    {
        if suffix[i] != s[start + i] {
            assert(suffix@[i as int] != tail[i as int]);
            return false;
        }
        i += 1;
    }
    assert(suffix@ =~= tail);
    true
}

/// Tells the form of a schedule by its name: text where it ends in `.txt`,
/// rounds where it ends in `.json`.
pub fn schedule_format(name: &str) -> (r: ScheduleFormat)
    ensures
        r == format_of(name@),
{
    let chars = chars_of(name);
    let text: Vec<char> = vec!['.', 't', 'x', 't'];
    let rounds: Vec<char> = vec!['.', 'j', 's', 'o', 'n'];
    assert(text@ =~= text_suffix());
    assert(rounds@ =~= rounds_suffix());
    if has_suffix(&chars, &text) {
        ScheduleFormat::Text
    } else if has_suffix(&chars, &rounds) {
        ScheduleFormat::Rounds
    } else {
        ScheduleFormat::Unknown
    }
}

/// Loads a schedule, given its name and its text.
///
/// Only the text form is loaded, and only where at least one measurement is
/// free of dependencies: without one nothing could ever start.
pub fn sched_new(name: &str, text: &str) -> (r: Result<Scheduler, LoadError>)
    ensures
        loaded_view(r) == load(name@, text@),
        r matches Ok(s) ==> s.wf() && all_fresh(s@),
{
    match schedule_format(name) {
        ScheduleFormat::Unknown => Err(LoadError::UnknownFormat),
        ScheduleFormat::Rounds => Err(LoadError::UnsupportedFormat),
        ScheduleFormat::Text => match sched_new_from_txt(text) {
            Err(e) => Err(e),
            Ok(s) => {
                let mut s = s;
                proof {
                    lemma_fresh_ready(s@);
                    lemma_first_ready_offers(s@);
                }
                if sched_next_internal(&mut s, false) == 0 {
                    Err(LoadError::NoReadyWork)
                } else {
                    Ok(s)
                }
            },
        },
    }
}

} // verus!
