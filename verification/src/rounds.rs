//! The round-based form of a schedule, and its conversion to text.
//!
//! A schedule in rounds lists, round by round, fingerprints with the classes
//! of hosts to use and the bandwidth of each. Every record of a round depends
//! on all records of the round before it. This form is never loaded: it is
//! turned into the lines of the text form, to be read and then loaded as text.

use crate::error::LoadError;
use crate::measurement::{background_class, is_background_class};
use crate::text::{chars_of, decimal, join, join_with, push_decimal, rows, string_of};
use vstd::prelude::*;

verus! {

/// The connections that the hosts of a record share, its background host
/// aside.
pub const SHARED_CONNS: u32 = 160;

/// The duration given to every record, in seconds.
pub const ROUND_DURATION: u32 = 30;

/// A class of hosts and the bandwidth it gets, in bytes per second.
#[derive(Debug, PartialEq, Eq)]
pub struct Allocation {
    pub class: String,
    pub bw: u32,
}

/// What an allocation is, as a mathematical value.
pub struct AllocationView {
    pub class: Seq<char>,
    pub bw: u32,
}

impl View for Allocation {
    type V = AllocationView;

    open spec fn view(&self) -> AllocationView {
        AllocationView { class: self.class@, bw: self.bw }
    }
}

/// One fingerprint of a round, with its allocations in order.
#[derive(Debug, PartialEq, Eq)]
pub struct RoundRecord {
    pub fp: String,
    pub allocations: Vec<Allocation>,
}

/// What a record of a round is, as a mathematical value.
pub struct RoundRecordView {
    pub fp: Seq<char>,
    pub allocations: Seq<AllocationView>,
}

/// What a vector of allocations stands for.
pub open spec fn allocation_views(allocations: Seq<Allocation>) -> Seq<AllocationView> {
    Seq::new(allocations.len(), |i: int| allocations[i]@)
}

impl View for RoundRecord {
    type V = RoundRecordView;

    open spec fn view(&self) -> RoundRecordView {
        RoundRecordView { fp: self.fp@, allocations: allocation_views(self.allocations@) }
    }
}

/// What a round stands for.
pub open spec fn record_views(records: Seq<RoundRecord>) -> Seq<RoundRecordView> {
    Seq::new(records.len(), |i: int| records[i]@)
}

/// What a schedule in rounds stands for.
pub open spec fn round_views(rounds: Seq<Vec<RoundRecord>>) -> Seq<Seq<RoundRecordView>> {
    Seq::new(rounds.len(), |r: int| record_views(rounds[r]@))
}

/// The characters of each of the strings.
pub open spec fn texts(lines: Seq<String>) -> Seq<Seq<char>> {
    Seq::new(lines.len(), |i: int| lines[i]@)
}

/// Whether an allocation is for a class other than the background's.
pub open spec fn is_foreground(s: AllocationView) -> bool {
    s.class != background_class()
}

/// How many of the allocations are not the background's.
pub open spec fn foreground(allocations: Seq<AllocationView>) -> nat {
    allocations.filter(|s: AllocationView| is_foreground(s)).len()
}

/// The connections of each foreground host: the shared connections divided
/// among them, rounded up.
pub open spec fn conns_each(allocations: Seq<AllocationView>) -> nat {
    let n = foreground(allocations);
    if n == 0 {
        0
    } else {
        ((SHARED_CONNS + n - 1) / (n as int)) as nat
    }
}

/// The classes of the allocations, in order.
pub open spec fn classes_of(allocations: Seq<AllocationView>) -> Seq<Seq<char>> {
    Seq::new(allocations.len(), |i: int| allocations[i].class)
}

/// The bandwidths of the allocations, in order.
pub open spec fn bws_of(allocations: Seq<AllocationView>) -> Seq<u32> {
    Seq::new(allocations.len(), |i: int| allocations[i].bw)
}

/// One connection for the background host, an equal part of the shared
/// connections for every other.
pub open spec fn conns_of(allocations: Seq<AllocationView>) -> Seq<u32> {
    Seq::new(
        allocations.len(),
        |i: int|
            if is_foreground(allocations[i]) {
                conns_each(allocations) as u32
            } else {
                1u32
            },
    )
}

/// Each of the numbers in decimal.
pub open spec fn decimals(ns: Seq<u32>) -> Seq<Seq<char>> {
    Seq::new(ns.len(), |i: int| decimal(ns[i] as nat))
}

/// The seven fields of the line for one record of a round. A record that
/// depends on nothing says so with the single dependency 0.
pub open spec fn line_parts(id: u32, rec: RoundRecordView, deps: Seq<u32>) -> Seq<Seq<char>> {
    seq![
        decimal(id as nat),
        rec.fp,
        decimal(ROUND_DURATION as nat),
        join(classes_of(rec.allocations), ','),
        join(decimals(bws_of(rec.allocations)), ','),
        join(decimals(conns_of(rec.allocations)), ','),
        join(
            decimals(
                if deps.len() == 0 {
                    seq![0u32]
                } else {
                    deps
                },
            ),
            ',',
        ),
    ]
}

/// The line of the text form for one record of a round: its seven fields
/// with a space between each two.
pub open spec fn record_line(id: u32, rec: RoundRecordView, deps: Seq<u32>) -> Seq<char> {
    join(line_parts(id, rec, deps), ' ')
}

/// The number of records in the rounds before round `r`.
pub open spec fn records_before(rounds: Seq<Seq<RoundRecordView>>, r: int) -> nat
    decreases r,
{
    if r <= 0 {
        0
    } else {
        records_before(rounds, r - 1) + rounds[r - 1].len()
    }
}

/// The ids of the records of round `r`: records are numbered from 1 on, in
/// order, through all rounds.
pub open spec fn round_ids(rounds: Seq<Seq<RoundRecordView>>, r: int) -> Seq<u32> {
    Seq::new(rounds[r].len(), |i: int| (records_before(rounds, r) + 1 + i) as u32)
}

/// What every record of round `r` depends on: the records of the round
/// before it.
pub open spec fn round_deps(rounds: Seq<Seq<RoundRecordView>>, r: int) -> Seq<u32> {
    if r <= 0 {
        Seq::empty()
    } else {
        round_ids(rounds, r - 1)
    }
}

/// The lines for the records of round `r`, in order.
pub open spec fn round_lines(rounds: Seq<Seq<RoundRecordView>>, r: int) -> Seq<Seq<char>> {
    Seq::new(
        rounds[r].len(),
        |i: int| record_line(round_ids(rounds, r)[i], rounds[r][i], round_deps(rounds, r)),
    )
}

/// The lines for the rounds before round `r`, in order.
pub open spec fn lines_before(rounds: Seq<Seq<RoundRecordView>>, r: int) -> Seq<Seq<char>>
    decreases r,
{
    if r <= 0 {
        Seq::empty()
    } else {
        lines_before(rounds, r - 1) + round_lines(rounds, r - 1)
    }
}

/// The text form of a schedule in rounds, line by line.
pub open spec fn emit_rounds(rounds: Seq<Seq<RoundRecordView>>) -> Seq<Seq<char>> {
    lines_before(rounds, rounds.len() as int)
}

/// Every record has a host other than the background's to take the shared
/// connections.
pub open spec fn all_shared(rounds: Seq<Seq<RoundRecordView>>) -> bool {
    forall|r: int, i: int|
        0 <= r < rounds.len() && 0 <= i < rounds[r].len() ==> foreground(
            (#[trigger] rounds[r][i]).allocations,
        ) > 0
}

/// Later rounds have no fewer records before them.
pub proof fn lemma_records_before_grows(rounds: Seq<Seq<RoundRecordView>>, r: int, s: int)
    requires
        r <= s,
    ensures
        records_before(rounds, r) <= records_before(rounds, s),
    decreases s - r,
{
    if r < s {
        lemma_records_before_grows(rounds, r, s - 1);
    }
}

fn render_all(ns: &Vec<u32>) -> (out: Vec<Vec<char>>)
    ensures
        rows(out@) == decimals(ns@),
{
    let mut out: Vec<Vec<char>> = Vec::new();
    let mut i: usize = 0;
    while i < ns.len()
        invariant
            i <= ns.len(),
            out@.len() == i,
            forall|k: int| 0 <= k < i ==> (#[trigger] out@[k])@ == decimal(ns@[k] as nat),
        decreases ns.len() - i,
    {
        let mut digits: Vec<char> = Vec::new();
        push_decimal(&mut digits, ns[i]);
        assert(digits@ == decimal(ns@[i as int] as nat));
        out.push(digits);
        i += 1;
    }
    assert(rows(out@) =~= decimals(ns@));
    out
}

/// The connections of each of `n` foreground hosts.
fn divide_conns(n: usize) -> (c: u32)
    requires
        n > 0,
    ensures
        c == (SHARED_CONNS + n - 1) / (n as int),
        1 <= c <= SHARED_CONNS,
{
    if n >= SHARED_CONNS as usize {
        assert((SHARED_CONNS + n - 1) / (n as int) == 1) by (nonlinear_arith)
            requires
                n >= SHARED_CONNS,
                SHARED_CONNS == 160,
        ;
        1
    } else {
        let m = n as u32;
        let q = SHARED_CONNS / m;
        assert(q * m <= SHARED_CONNS && (q * m < SHARED_CONNS ==> (SHARED_CONNS + m - 1) / (m as int)
            == q + 1 && q + 1 <= SHARED_CONNS) && (q * m == SHARED_CONNS ==> (SHARED_CONNS + m - 1) / (m as int) == q) && 1
            <= q <= SHARED_CONNS) by (nonlinear_arith)
            requires
                0 < m < SHARED_CONNS,
                q == SHARED_CONNS / m,
                SHARED_CONNS == 160,
        ;
        if q * m < SHARED_CONNS {
            q + 1
        } else {
            q
        }
    }
}

/// The line for one record, or `None` where it has no foreground host.
fn render_record(id: u32, rec: &RoundRecord, deps: &Vec<u32>) -> (r: Option<String>)
    ensures
        match r {
            Some(line) => foreground(rec@.allocations) > 0 && line@ == record_line(id, rec@, deps@),
            None => foreground(rec@.allocations) == 0,
        },
{
    let ghost allocations = rec@.allocations;
    let ghost fore = |s: AllocationView| is_foreground(s);
    let mut classes: Vec<Vec<char>> = Vec::new();
    let mut bws: Vec<u32> = Vec::new();
    let mut n: usize = 0;
    let mut i: usize = 0;
    assert(allocations.take(0).filter(fore).len() == 0) by {
        allocations.take(0).lemma_filter_len(fore);
    }
    while i < rec.allocations.len()
        invariant
            i <= rec.allocations.len(),
            allocations == rec@.allocations,
            fore == (|s: AllocationView| is_foreground(s)),
            classes@.len() == i,
            bws@.len() == i,
            forall|k: int| 0 <= k < i ==> (#[trigger] classes@[k])@ == allocations[k].class,
            forall|k: int| 0 <= k < i ==> #[trigger] bws@[k] == allocations[k].bw,
            n == allocations.take(i as int).filter(fore).len(),
            n <= i,
        decreases rec.allocations.len() - i,
    {
        proof {
            allocations.lemma_take_succ_push(i as int);
            allocations.take(i as int).lemma_filter_len_push(fore, allocations[i as int]);
        }
        let class = chars_of(rec.allocations[i].class.as_str());
        if !is_background_class(&class) {
            n += 1;
        }
        classes.push(class);
        bws.push(rec.allocations[i].bw);
        i += 1;
    }
    proof {
        assert(allocations.take(allocations.len() as int) == allocations);
    }
    if n == 0 {
        return None;
    }
    let each = divide_conns(n);
    let mut conns: Vec<u32> = Vec::new();
    let mut i: usize = 0;
    while i < classes.len()
        invariant
            i <= classes.len(),
            classes@.len() == allocations.len(),
            forall|k: int| 0 <= k < classes@.len() ==> (#[trigger] classes@[k])@ == allocations[k].class,
            each == conns_each(allocations),
            conns@.len() == i,
            forall|k: int| 0 <= k < i ==> #[trigger] conns@[k] == conns_of(allocations)[k],
        decreases classes.len() - i,
    {
        if is_background_class(&classes[i]) {
            conns.push(1);
        } else {
            conns.push(each);
        }
        i += 1;
    }
    assert(conns@ =~= conns_of(allocations));
    assert(bws@ =~= bws_of(allocations));
    assert(rows(classes@) =~= classes_of(allocations));
    let mut first: Vec<char> = Vec::new();
    push_decimal(&mut first, id);
    let mut third: Vec<char> = Vec::new();
    push_decimal(&mut third, ROUND_DURATION);
    let none: Vec<u32> = vec![0];
    let last = if deps.len() == 0 {
        assert(none@ =~= seq![0u32]);
        join_with(&render_all(&none), ',')
    } else {
        join_with(&render_all(deps), ',')
    };
    let mut parts: Vec<Vec<char>> = Vec::new();
    parts.push(first);
    parts.push(chars_of(rec.fp.as_str()));
    parts.push(third);
    parts.push(join_with(&classes, ','));
    parts.push(join_with(&render_all(&bws), ','));
    parts.push(join_with(&render_all(&conns), ','));
    parts.push(last);
    assert(rows(parts@) =~= line_parts(id, rec@, deps@));
    Some(string_of(&join_with(&parts, ' ')))
}

/// Converts a schedule in rounds to the lines of the text form.
///
/// Records are numbered from 1 in the order given; each gets the fixed
/// duration, one connection for a background host and an equal part of the
/// shared connections for every other host, and depends on all records of
/// the round before. Refused with `InvalidHostCounts` where a record has no
/// host but the background's.
///
/// The lines are to be read and then loaded as text: no catalog is ever made
/// from rounds.
pub fn sched_new_from_json(rounds: &Vec<Vec<RoundRecord>>) -> (r: Result<Vec<String>, LoadError>)
    requires
        records_before(round_views(rounds@), rounds.len() as int) <= u32::MAX,
    ensures
        match r {
            Ok(lines) => all_shared(round_views(rounds@)) && texts(lines@) == emit_rounds(
                round_views(rounds@),
            ),
            Err(e) => !all_shared(round_views(rounds@)) && e == LoadError::InvalidHostCounts,
        },
{
    let ghost rv = round_views(rounds@);
    let mut lines: Vec<String> = Vec::new();
    let mut deps: Vec<u32> = Vec::new();
    let mut count: u32 = 0;
    let mut r: usize = 0;
    assert(texts(lines@) =~= lines_before(rv, 0));
    while r < rounds.len()
        invariant
            r <= rounds.len(),
            rv == round_views(rounds@),
            records_before(rv, rounds.len() as int) <= u32::MAX,
            count == records_before(rv, r as int),
            deps@ == round_deps(rv, r as int),
            texts(lines@) == lines_before(rv, r as int),
            forall|q: int, k: int|
                0 <= q < r && 0 <= k < rv[q].len() ==> foreground((#[trigger] rv[q][k]).allocations) > 0,
        decreases rounds.len() - r,
    {
        let round = &rounds[r];
        let mut ids: Vec<u32> = Vec::new();
        let mut i: usize = 0;
        proof {
            lemma_records_before_grows(rv, r + 1, rounds.len() as int);
            assert(round_ids(rv, r as int).take(0) =~= ids@);
            assert(lines_before(rv, r as int) + round_lines(rv, r as int).take(0) =~= texts(lines@));
        }
        while i < round.len()
            invariant
                i <= round.len(),
                r < rounds.len(),
                rv == round_views(rounds@),
                record_views(round@) == rv[r as int],
                records_before(rv, r as int) + rv[r as int].len() <= u32::MAX,
                count == records_before(rv, r as int) + i,
                ids@ == round_ids(rv, r as int).take(i as int),
                deps@ == round_deps(rv, r as int),
                texts(lines@) == lines_before(rv, r as int) + round_lines(rv, r as int).take(
                    i as int,
                ),
                forall|k: int| 0 <= k < i ==> foreground((#[trigger] rv[r as int][k]).allocations) > 0,
            decreases round.len() - i,
        {
            let id = count + 1;
            assert(round@[i as int]@ == rv[r as int][i as int]);
            match render_record(id, &round[i], &deps) {
                None => {
                    assert(foreground(rv[r as int][i as int].allocations) == 0);
                    return Err(LoadError::InvalidHostCounts);
                },
                Some(line) => {
                    let ghost before = texts(lines@);
                    lines.push(line);
                    assert(texts(lines@) =~= before.push(line@));
                    assert(round_lines(rv, r as int).take(i + 1) =~= round_lines(rv, r as int).take(
                        i as int,
                    ).push(line@));
                },
            }
            ids.push(id);
            assert(ids@ =~= round_ids(rv, r as int).take(i + 1));
            count = id;
            i += 1;
        }
        proof {
            assert(round_ids(rv, r as int).take(round.len() as int) == round_ids(rv, r as int));
            assert(round_lines(rv, r as int).take(round.len() as int) == round_lines(rv, r as int));
        }
        deps = ids;
        r += 1;
    }
    assert forall|q: int, k: int| 0 <= q < rv.len() && 0 <= k < rv[q].len() implies foreground(
        (#[trigger] rv[q][k]).allocations,
    ) > 0 by {}
    Ok(lines)
}

} // verus!
