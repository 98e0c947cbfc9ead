//! One line of a schedule and the measurement it describes.
//!
//! A record is seven fields, separated by white space:
//!
//! ```text
//! id  fingerprint  duration  class[,class..]  bw[,bw..]  conns[,conns..]  dep[,dep..]
//! ```
//!
//! A line without fields, or whose first field begins with `#`, describes
//! nothing.

use crate::error::LoadError;
use crate::measurement::{
    background_ok, host_views, is_background, is_background_class, Host, HostView, Measurement,
    MeasurementView, State, BACKGROUND_BW, BACKGROUND_CONNS,
};
use crate::text::{
    chars_of, fields, lists, magnitude, pieces, read_magnitude, read_unsigned, rows, split_by,
    split_fields, string_of, unsigned, Delimiter,
};
use vstd::prelude::*;

verus! {

/// One entry of a list of numbers. In a list of dependencies (`signed`) an
/// entry may also be a magnitude after `-`; such an entry, like 0, names no
/// measurement and reads as 0.
pub open spec fn entry(s: Seq<char>, signed: bool) -> Option<u32> {
    if signed && s.len() > 0 && s[0] == '-' {
        if magnitude(s.drop_first()) is Some {
            Some(0u32)
        } else {
            None
        }
    } else {
        unsigned(s)
    }
}

/// The numbers that the entries denote, if every entry denotes one.
pub open spec fn numbers(parts: Seq<Seq<char>>, signed: bool) -> Option<Seq<u32>> {
    if forall|i: int| 0 <= i < parts.len() ==> entry(#[trigger] parts[i], signed) is Some {
        Some(Seq::new(parts.len(), |i: int| entry(parts[i], signed)->0))
    } else {
        None
    }
}

/// The entries of `s` other than 0, each where it first occurs.
pub open spec fn named_once(s: Seq<u32>) -> Seq<u32>
    decreases s.len(),
{
    if s.len() == 0 {
        Seq::empty()
    } else {
        let head = named_once(s.drop_last());
        if s.last() == 0 || head.contains(s.last()) {
            head
        } else {
            head.push(s.last())
        }
    }
}

/// The hosts that three lists of equal length describe, entry by entry.
pub open spec fn hosts_of(classes: Seq<Seq<char>>, bws: Seq<u32>, conns: Seq<u32>) -> Seq<
    HostView,
> {
    Seq::new(classes.len(), |i: int| HostView { class: classes[i], bw: bws[i], conns: conns[i] })
}

/// What a line of a schedule describes: nothing, a measurement, or an error.
///
/// Of several faults in one line the first of these is reported: a fault of
/// form, a dependency on itself, host lists of unequal length, a fault of the
/// background host.
pub open spec fn parse_record(line: Seq<char>) -> Result<Option<MeasurementView>, LoadError> {
    let f = fields(line);
    if f.len() == 0 || f[0][0] == '#' {
        Ok(None)
    } else if f.len() != 7 {
        Err(LoadError::MalformedRecord)
    } else {
        let id = unsigned(f[0]);
        let dur = unsigned(f[2]);
        let classes = pieces(f[3], Delimiter::Exactly(','));
        let bws = numbers(pieces(f[4], Delimiter::Exactly(',')), false);
        let conns = numbers(pieces(f[5], Delimiter::Exactly(',')), false);
        let deps = numbers(pieces(f[6], Delimiter::Exactly(',')), true);
        if id is None || id == Some(0u32) || dur is None || bws is None || conns is None
            || deps is None {
            Err(LoadError::MalformedRecord)
        } else if named_once(deps->0).contains(id->0) {
            Err(LoadError::SelfDependency)
        } else if classes.len() != bws->0.len() || classes.len() != conns->0.len() {
            Err(LoadError::InvalidHostCounts)
        } else if !background_ok(hosts_of(classes, bws->0, conns->0)) {
            Err(LoadError::InvalidBackgroundHost)
        } else {
            Ok(
                Some(
                    MeasurementView {
                        id: id->0,
                        fp: f[1],
                        dur: dur->0,
                        state: State::Waiting,
                        hosts: hosts_of(classes, bws->0, conns->0),
                        depends: named_once(deps->0),
                        finished_depends: Seq::empty(),
                        failsafe_stop: 0,
                    },
                ),
            )
        }
    }
}

/// What the outcome of reading a line stands for.
pub open spec fn outcome_view(r: Result<Option<Measurement>, LoadError>) -> Result<
    Option<MeasurementView>,
    LoadError,
> {
    match r {
        Ok(Some(m)) => Ok(Some(m@)),
        Ok(None) => Ok(None),
        Err(e) => Err(e),
    }
}

/// What `named_once` keeps: every entry but 0, each once.
pub proof fn lemma_named_once(s: Seq<u32>)
    ensures
        named_once(s).no_duplicates(),
        !named_once(s).contains(0),
        forall|x: u32| named_once(s).contains(x) <==> x != 0 && s.contains(x),
    decreases s.len(),
{
    if s.len() > 0 {
        let head = named_once(s.drop_last());
        lemma_named_once(s.drop_last());
        assert forall|x: u32| named_once(s).contains(x) <==> x != 0 && s.contains(x) by {
            if s.contains(x) {
                let i = choose|i: int| 0 <= i < s.len() && s[i] == x;
                if i < s.len() - 1 {
                    assert(s.drop_last()[i] == x);
                }
            }
            if s.drop_last().contains(x) {
                let i = choose|i: int| 0 <= i < s.drop_last().len() && s.drop_last()[i] == x;
                assert(s[i] == x);
            }
            if named_once(s) != head {
                assert(named_once(s) == head.push(s.last()));
                assert(named_once(s)[head.len() as int] == s.last());
                if head.contains(x) {
                    let i = choose|i: int| 0 <= i < head.len() && head[i] == x;
                    assert(named_once(s)[i] == x);
                }
            }
            assert(s[s.len() - 1] == s.last());
        }
    }
}

/// Every measurement that a line describes is valid and fresh.
pub proof fn lemma_parsed_is_valid(line: Seq<char>)
    ensures
        parse_record(line) matches Ok(Some(v)) ==> v.valid() && v.fresh(),
{
    if let Ok(Some(v)) = parse_record(line) {
        let f = fields(line);
        let deps = numbers(pieces(f[6], Delimiter::Exactly(',')), true);
        lemma_named_once(deps->0);
    }
}

fn read_entry(s: &Vec<char>, signed: bool) -> (r: Option<u32>)
    ensures
        r == entry(s@, signed),
{
    if signed && s.len() > 0 && s[0] == '-' {
        proof {
            assert(s@.drop_first() == s@.skip(1));
        }
        match read_magnitude(s, 1) {
            Some(_) => Some(0),
            None => None,
        }
    } else {
        read_unsigned(s)
    }
}

fn read_numbers(parts: &Vec<Vec<char>>, signed: bool) -> (r: Option<Vec<u32>>)
    ensures
        match r {
            Some(v) => numbers(rows(parts@), signed) == Some(v@),
            None => numbers(rows(parts@), signed) is None,
        },
{
    let mut out: Vec<u32> = Vec::new();
    let mut i: usize = 0;
    while i < parts.len()
        invariant
            i <= parts.len(),
            out@.len() == i,
            forall|k: int| 0 <= k < i ==> entry(#[trigger] rows(parts@)[k], signed) == Some(out@[k]),
        decreases parts.len() - i,
    {
        match read_entry(&parts[i], signed) {
            None => {
                assert(entry(rows(parts@)[i as int], signed) is None);
                return None;
            },
            Some(n) => {
                out.push(n);
            },
        }
        i += 1;
    }
    assert(out@ == numbers(rows(parts@), signed)->0);
    Some(out)
}

fn name_once(s: &Vec<u32>) -> (out: Vec<u32>)
    ensures
        out@ == named_once(s@),
{
    let mut out: Vec<u32> = Vec::new();
    let mut i: usize = 0;
    while i < s.len()
        invariant
            i <= s.len(),
            out@ == named_once(s@.take(i as int)),
        decreases s.len() - i,
    {
        proof {
            assert(s@.take(i + 1).drop_last() == s@.take(i as int));
        }
        let x = s[i];
        if x != 0 && !lists(&out, x) {
            out.push(x);
        }
        i += 1;
    }
    proof {
        assert(s@.take(s.len() as int) == s@);
    }
    out
}

fn check_background(classes: &Vec<Vec<char>>, bws: &Vec<u32>, conns: &Vec<u32>) -> (r: bool)
    requires
        classes.len() == bws.len(),
        classes.len() == conns.len(),
    ensures
        r == background_ok(hosts_of(rows(classes@), bws@, conns@)),
{
    let ghost hosts = hosts_of(rows(classes@), bws@, conns@);
    let mut seen = false;
    let mut i: usize = 0;
    while i < classes.len()
        invariant
            i <= classes.len(),
            classes.len() == bws.len(),
            classes.len() == conns.len(),
            hosts == hosts_of(rows(classes@), bws@, conns@),
            background_ok(hosts.take(i as int)),
            seen <==> exists|k: int| 0 <= k < i && is_background(#[trigger] hosts[k]),
        decreases classes.len() - i,
    {
        if is_background_class(&classes[i]) {
            assert(is_background(hosts[i as int]));
            if conns[i] != BACKGROUND_CONNS || bws[i] != BACKGROUND_BW {
                return false;
            }
            if seen {
                let ghost k = choose|k: int| 0 <= k < i && is_background(#[trigger] hosts[k]);
                assert(is_background(hosts[k]) && is_background(hosts[i as int]));
                return false;
            }
            seen = true;
        }
        proof {
            let a = hosts.take(i as int);
            let b = hosts.take(i + 1);
            assert forall|p: int, q: int|
                0 <= p < q < b.len() && is_background(#[trigger] b[p]) implies !is_background(
                #[trigger] b[q],
            ) by {
                if q < i {
                    assert(a[p] == b[p] && a[q] == b[q]);
                }
            }
            assert forall|p: int| 0 <= p < b.len() && is_background(#[trigger] b[p]) implies b[p].conns
                == BACKGROUND_CONNS && b[p].bw == BACKGROUND_BW by {
                if p < i {
                    assert(a[p] == b[p]);
                }
            }
        }
        i += 1;
    }
    proof {
        assert(hosts.take(classes.len() as int) == hosts);
    }
    true
}

fn build_hosts(classes: &Vec<Vec<char>>, bws: &Vec<u32>, conns: &Vec<u32>) -> (hosts: Vec<Host>)
    requires
        classes.len() == bws.len(),
        classes.len() == conns.len(),
    ensures
        host_views(hosts@) == hosts_of(rows(classes@), bws@, conns@),
{
    let mut hosts: Vec<Host> = Vec::new();
    let mut i: usize = 0;
    while i < classes.len()
        invariant
            i <= classes.len(),
            classes.len() == bws.len(),
            classes.len() == conns.len(),
            hosts@.len() == i,
            forall|k: int|
                0 <= k < i ==> (#[trigger] hosts@[k])@ == hosts_of(rows(classes@), bws@, conns@)[k],
        decreases classes.len() - i,
    {
        hosts.push(Host { class: string_of(&classes[i]), bw: bws[i], conns: conns[i] });
        i += 1;
    }
    assert(host_views(hosts@) =~= hosts_of(rows(classes@), bws@, conns@));
    hosts
}

impl Measurement {
    /// Reads one line of a schedule, given as its characters.
    pub fn from_chars(line: &Vec<char>) -> (r: Result<Option<Measurement>, LoadError>)
        ensures
            outcome_view(r) == parse_record(line@),
            r matches Ok(Some(m)) ==> m.wf() && m@.fresh(),
    {
        proof {
            lemma_parsed_is_valid(line@);
        }
        let f = split_fields(line);
        assert(forall|k: int| 0 <= k < f@.len() ==> (#[trigger] f@[k])@ == rows(f@)[k]);
        if f.len() == 0 {
            return Ok(None);
        }
        proof {
            let keep = |p: Seq<char>| p.len() > 0;
            pieces(line@, Delimiter::Blank).lemma_filter_pred(keep, 0);
        }
        if f[0][0] == '#' {
            return Ok(None);
        }
        if f.len() != 7 {
            return Err(LoadError::MalformedRecord);
        }
        let id = read_unsigned(&f[0]);
        let dur = read_unsigned(&f[2]);
        let classes = split_by(&f[3], Delimiter::Exactly(','));
        let bws = read_numbers(&split_by(&f[4], Delimiter::Exactly(',')), false);
        let conns = read_numbers(&split_by(&f[5], Delimiter::Exactly(',')), false);
        let deps = read_numbers(&split_by(&f[6], Delimiter::Exactly(',')), true);
        match (id, dur, bws, conns, deps) {
            (Some(id), Some(dur), Some(bws), Some(conns), Some(deps)) => {
                if id == 0 {
                    return Err(LoadError::MalformedRecord);
                }
                let depends = name_once(&deps);
                if lists(&depends, id) {
                    return Err(LoadError::SelfDependency);
                }
                if classes.len() != bws.len() || classes.len() != conns.len() {
                    return Err(LoadError::InvalidHostCounts);
                }
                if !check_background(&classes, &bws, &conns) {
                    return Err(LoadError::InvalidBackgroundHost);
                }
                let hosts = build_hosts(&classes, &bws, &conns);
                let fp = string_of(&f[1]);
                Ok(Some(Measurement::assemble(id, fp, dur, hosts, depends)))
            },
            _ => Err(LoadError::MalformedRecord),
        }
    }

    /// Reads one line of a schedule.
    ///
    /// `Ok(None)` for a line that is blank or a comment, `Ok(Some(..))` for a
    /// record, which is then waiting with nothing finished, and otherwise the
    /// error that `parse_record` names.
    pub fn new_from_string(s: String) -> (r: Result<Option<Measurement>, LoadError>)
        ensures
            outcome_view(r) == parse_record(s@),
            r matches Ok(Some(m)) ==> m.wf() && m@.fresh(),
    {
        let line = chars_of(s.as_str());
        Measurement::from_chars(&line)
    }
}

} // verus!
