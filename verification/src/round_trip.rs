//! The text written for a schedule in rounds means what the rounds mean:
//! read back, each line is the record it was written for, and the lines
//! together load as the catalog of those records.

use crate::catalog::{deps_resolve, has_id, ids_unique};
use crate::error::LoadError;
use crate::load::{check_records, load_text, read_records};
use crate::measurement::{background_ok, is_background, MeasurementView, State, BACKGROUND_BW};
use crate::record::{entry, hosts_of, named_once, numbers, parse_record};
use crate::rounds::{
    bws_of, classes_of, conns_of, decimals, emit_rounds, foreground, is_foreground,
    lemma_records_before_grows, line_parts, lines_before, record_line, records_before,
    round_deps, round_ids, round_lines, AllocationView, RoundRecordView, ROUND_DURATION,
};
use crate::text::{
    decimal, fields, free_of, is_space, is_word, join, law_decimal_reads_back,
    law_fields_of_join, law_pieces_of_join, lemma_decimal_is_word, lemma_join_free, pieces,
    Delimiter,
};
use vstd::prelude::*;

verus! {

/// A record whose line reads back as it was written: the fingerprint and
/// the classes are words, the classes without commas; some host is not the
/// background's; and at most one is, with the bandwidth of the background.
pub open spec fn plain_record(rec: RoundRecordView) -> bool {
    &&& is_word(rec.fp)
    &&& forall|i: int|
        0 <= i < rec.allocations.len() ==> is_word((#[trigger] rec.allocations[i]).class)
            && free_of(rec.allocations[i].class, Delimiter::Exactly(','))
    &&& foreground(rec.allocations) > 0
    &&& forall|i: int|
        0 <= i < rec.allocations.len() && !is_foreground(#[trigger] rec.allocations[i])
            ==> rec.allocations[i].bw == BACKGROUND_BW
    &&& forall|i: int, j: int|
        0 <= i < j < rec.allocations.len() && !is_foreground(#[trigger] rec.allocations[i])
            ==> is_foreground(#[trigger] rec.allocations[j])
}

/// Every record of every round is plain.
pub open spec fn all_plain(rounds: Seq<Seq<RoundRecordView>>) -> bool {
    forall|r: int, i: int|
        0 <= r < rounds.len() && 0 <= i < rounds[r].len() ==> plain_record(#[trigger] rounds[r][i])
}

/// The measurement that a record of a round stands for.
pub open spec fn record_of(id: u32, rec: RoundRecordView, deps: Seq<u32>) -> MeasurementView {
    MeasurementView {
        id,
        fp: rec.fp,
        dur: ROUND_DURATION,
        state: State::Waiting,
        hosts: hosts_of(
            classes_of(rec.allocations),
            bws_of(rec.allocations),
            conns_of(rec.allocations),
        ),
        depends: deps,
        finished_depends: Seq::empty(),
        failsafe_stop: 0,
    }
}

/// The measurements that the records of round `r` stand for.
pub open spec fn round_records(rounds: Seq<Seq<RoundRecordView>>, r: int) -> Seq<
    MeasurementView,
> {
    Seq::new(
        rounds[r].len(),
        |i: int| record_of(round_ids(rounds, r)[i], rounds[r][i], round_deps(rounds, r)),
    )
}

/// The measurements of the rounds before round `r`, in order.
pub open spec fn records_upto(rounds: Seq<Seq<RoundRecordView>>, r: int) -> Seq<MeasurementView>
    decreases r,
{
    if r <= 0 {
        Seq::empty()
    } else {
        records_upto(rounds, r - 1) + round_records(rounds, r - 1)
    }
}

/// The catalog that a schedule in rounds stands for.
pub open spec fn catalog_of(rounds: Seq<Seq<RoundRecordView>>) -> Seq<MeasurementView> {
    records_upto(rounds, rounds.len() as int)
}

proof fn lemma_numbers_of_decimals(ns: Seq<u32>, signed: bool)
    ensures
        numbers(decimals(ns), signed) == Some(ns),
        ns.len() >= 1 ==> pieces(join(decimals(ns), ','), Delimiter::Exactly(',')) == decimals(ns),
        ns.len() >= 1 ==> is_word(join(decimals(ns), ',')),
{
    let ds = decimals(ns);
    assert forall|i: int| 0 <= i < ds.len() implies entry(#[trigger] ds[i], signed) == Some(
        ns[i],
    ) && free_of(ds[i], Delimiter::Exactly(',')) && free_of(ds[i], Delimiter::Blank) by {
        law_decimal_reads_back(ns[i] as nat);
        lemma_decimal_is_word(ns[i] as nat);
    }
    assert(numbers(ds, signed)->0 =~= ns);
    if ns.len() >= 1 {
        law_pieces_of_join(ds, ',', Delimiter::Exactly(','));
        lemma_join_free(ds, ',', Delimiter::Blank);
        lemma_decimal_is_word(ns[ns.len() - 1] as nat);
        assert(ds.last() == decimal(ns[ns.len() - 1] as nat));
    }
}

proof fn lemma_named_once_keeps(deps: Seq<u32>)
    requires
        deps.no_duplicates(),
        !deps.contains(0),
    ensures
        named_once(deps) == deps,
    decreases deps.len(),
{
    if deps.len() > 0 {
        let head = deps.drop_last();
        assert(head.no_duplicates());
        assert(!head.contains(0)) by {
            if head.contains(0) {
                let i = choose|i: int| 0 <= i < head.len() && head[i] == 0;
                assert(deps[i] == 0);
            }
        }
        lemma_named_once_keeps(head);
        assert(deps[deps.len() - 1] != 0);
        assert(!head.contains(deps.last())) by {
            if head.contains(deps.last()) {
                let i = choose|i: int| 0 <= i < head.len() && head[i] == deps.last();
                assert(deps[i] == deps[deps.len() - 1]);
            }
        }
        assert(head.push(deps.last()) == deps);
    }
}

/// The fields written for a plain record are seven words, and the numbers
/// among them read back.
proof fn lemma_line_parts(id: u32, rec: RoundRecordView, deps: Seq<u32>)
    requires
        plain_record(rec),
    ensures
        forall|i: int| 0 <= i < 7 ==> is_word(#[trigger] line_parts(id, rec, deps)[i]),
        pieces(line_parts(id, rec, deps)[3], Delimiter::Exactly(',')) == classes_of(
            rec.allocations,
        ),
{
    let allocs = rec.allocations;
    let classes = classes_of(allocs);
    let listed = if deps.len() == 0 {
        seq![0u32]
    } else {
        deps
    };
    allocs.lemma_filter_len(|s: AllocationView| is_foreground(s));
    assert(allocs.len() >= 1);
    lemma_decimal_is_word(id as nat);
    lemma_decimal_is_word(ROUND_DURATION as nat);
    assert forall|i: int| 0 <= i < classes.len() implies free_of(
        #[trigger] classes[i],
        Delimiter::Exactly(','),
    ) && free_of(classes[i], Delimiter::Blank) by {
        assert(is_word(allocs[i].class));
    }
    law_pieces_of_join(classes, ',', Delimiter::Exactly(','));
    lemma_join_free(classes, ',', Delimiter::Blank);
    assert(is_word(classes.last())) by {
        assert(is_word(allocs[allocs.len() - 1].class));
    }
    lemma_numbers_of_decimals(bws_of(allocs), false);
    lemma_numbers_of_decimals(conns_of(allocs), false);
    lemma_numbers_of_decimals(listed, true);
}

/// The line written for a plain record describes, when read, the
/// measurement that the record stands for.
pub proof fn law_line_reads_back(id: u32, rec: RoundRecordView, deps: Seq<u32>)
    requires
        id != 0,
        plain_record(rec),
        deps.no_duplicates(),
        !deps.contains(0),
        !deps.contains(id),
    ensures
        parse_record(record_line(id, rec, deps)) == Ok::<Option<MeasurementView>, LoadError>(
            Some(record_of(id, rec, deps)),
        ),
{
    let allocs = rec.allocations;
    let classes = classes_of(allocs);
    let bws = bws_of(allocs);
    let conns = conns_of(allocs);
    let listed = if deps.len() == 0 {
        seq![0u32]
    } else {
        deps
    };
    let parts = line_parts(id, rec, deps);
    let line = record_line(id, rec, deps);
    lemma_line_parts(id, rec, deps);
    lemma_decimal_is_word(id as nat);
    law_decimal_reads_back(id as nat);
    law_decimal_reads_back(ROUND_DURATION as nat);
    lemma_decimal_is_word(ROUND_DURATION as nat);
    allocs.lemma_filter_len(|s: AllocationView| is_foreground(s));
    lemma_numbers_of_decimals(bws, false);
    lemma_numbers_of_decimals(conns, false);
    lemma_numbers_of_decimals(listed, true);
    law_fields_of_join(parts);
    let f = fields(line);
    assert(f == parts);
    assert(f[0] == decimal(id as nat) && f[1] == rec.fp && f[2] == decimal(ROUND_DURATION as nat));
    assert(f[3] == join(classes, ',') && f[4] == join(decimals(bws), ','));
    assert(f[5] == join(decimals(conns), ',') && f[6] == join(decimals(listed), ','));
    if deps.len() == 0 {
        assert(named_once(listed) =~= deps) by {
            assert(listed.drop_last() =~= Seq::<u32>::empty());
            assert(named_once(listed.drop_last()) =~= Seq::<u32>::empty());
        }
    } else {
        lemma_named_once_keeps(deps);
    }
    let hosts = hosts_of(classes, bws, conns);
    assert(background_ok(hosts)) by {
        assert forall|i: int| 0 <= i < hosts.len() implies (is_background(#[trigger] hosts[i])
            <==> !is_foreground(allocs[i])) by {}
        assert forall|i: int, j: int|
            0 <= i < j < hosts.len() && is_background(#[trigger] hosts[i]) implies !is_background(
            #[trigger] hosts[j],
        ) by {
            assert(!is_foreground(allocs[i]));
            assert(is_foreground(allocs[j]));
        }
    }
}

/// The line written for a plain record has no line break in it.
proof fn lemma_line_is_single(id: u32, rec: RoundRecordView, deps: Seq<u32>)
    requires
        plain_record(rec),
    ensures
        free_of(record_line(id, rec, deps), Delimiter::Exactly('\n')),
{
    let parts = line_parts(id, rec, deps);
    lemma_line_parts(id, rec, deps);
    assert forall|i: int| 0 <= i < parts.len() implies free_of(
        #[trigger] parts[i],
        Delimiter::Exactly('\n'),
    ) by {
        assert(is_word(parts[i]));
        assert forall|k: int| 0 <= k < parts[i].len() implies !Delimiter::Exactly('\n').accepts(
            #[trigger] parts[i][k],
        ) by {
            assert(!Delimiter::Blank.accepts(parts[i][k]));
            assert(is_space('\n'));
        }
    }
    lemma_join_free(parts, ' ', Delimiter::Exactly('\n'));
}

/// What holds of the lines and records of the rounds before round `r`.
spec fn written_well(rounds: Seq<Seq<RoundRecordView>>, r: int) -> bool {
    let lines = lines_before(rounds, r);
    let records = records_upto(rounds, r);
    &&& lines.len() == records_before(rounds, r)
    &&& records.len() == records_before(rounds, r)
    &&& forall|g: int|
        0 <= g < lines.len() ==> {
            &&& parse_record(#[trigger] lines[g]) == Ok::<Option<MeasurementView>, LoadError>(
                Some(records[g]),
            )
            &&& free_of(lines[g], Delimiter::Exactly('\n'))
        }
    &&& forall|g: int| 0 <= g < records.len() ==> (#[trigger] records[g]).id == g + 1
    &&& forall|g: int, d: u32|
        0 <= g < records.len() && #[trigger] records[g].depends.contains(d) ==> 1 <= d <= g
}

proof fn lemma_written_well(rounds: Seq<Seq<RoundRecordView>>, r: int)
    requires
        all_plain(rounds),
        records_before(rounds, rounds.len() as int) <= u32::MAX,
        0 <= r <= rounds.len(),
    ensures
        written_well(rounds, r),
    decreases r,
{
    if r > 0 {
        let q = r - 1;
        lemma_written_well(rounds, q);
        lemma_records_before_grows(rounds, r, rounds.len() as int);
        lemma_records_before_grows(rounds, q, r);
        let base = records_before(rounds, q);
        let old_lines = lines_before(rounds, q);
        let old_records = records_upto(rounds, q);
        let lines = lines_before(rounds, r);
        let records = records_upto(rounds, r);
        let ids = round_ids(rounds, q);
        let deps = round_deps(rounds, q);
        assert(lines == old_lines + round_lines(rounds, q));
        assert(records == old_records + round_records(rounds, q));
        assert forall|i: int| 0 <= i < ids.len() implies #[trigger] ids[i] == base + 1 + i by {}
        assert(deps.no_duplicates() && !deps.contains(0) && forall|d: u32|
            deps.contains(d) ==> 1 <= d <= base) by {
            if q > 0 {
                lemma_records_before_grows(rounds, q - 1, q);
                let before = records_before(rounds, q - 1);
                assert forall|i: int| 0 <= i < deps.len() implies #[trigger] deps[i] == before + 1
                    + i by {}
            }
        }
        assert forall|g: int| 0 <= g < lines.len() implies {
            &&& parse_record(#[trigger] lines[g]) == Ok::<Option<MeasurementView>, LoadError>(
                Some(records[g]),
            )
            &&& free_of(lines[g], Delimiter::Exactly('\n'))
        } by {
            if g < base {
                assert(lines[g] == old_lines[g] && records[g] == old_records[g]);
            } else {
                let i = g - base;
                assert(lines[g] == round_lines(rounds, q)[i]);
                assert(records[g] == round_records(rounds, q)[i]);
                assert(plain_record(rounds[q][i]));
                assert(ids[i] == base + 1 + i);
                law_line_reads_back(ids[i], rounds[q][i], deps);
                lemma_line_is_single(ids[i], rounds[q][i], deps);
            }
        }
        assert forall|g: int| 0 <= g < records.len() implies (#[trigger] records[g]).id == g
            + 1 by {
            if g < base {
                assert(records[g] == old_records[g]);
            } else {
                assert(records[g] == round_records(rounds, q)[g - base]);
                assert(ids[g - base] == base + 1 + (g - base));
            }
        }
        assert forall|g: int, d: u32|
            0 <= g < records.len() && #[trigger] records[g].depends.contains(d) implies 1 <= d
            <= g by {
            if g < base {
                assert(records[g] == old_records[g]);
                assert(old_records[g].depends.contains(d));
            } else {
                assert(records[g] == round_records(rounds, q)[g - base]);
                assert(deps.contains(d));
            }
        }
    }
}

proof fn lemma_read_all(lines: Seq<Seq<char>>, records: Seq<MeasurementView>)
    requires
        lines.len() == records.len(),
        forall|g: int|
            0 <= g < lines.len() ==> parse_record(#[trigger] lines[g]) == Ok::<
                Option<MeasurementView>,
                LoadError,
            >(Some(records[g])),
    ensures
        read_records(lines) == Ok::<Seq<MeasurementView>, LoadError>(records),
    decreases lines.len(),
{
    if lines.len() == 0 {
        assert(records =~= Seq::empty());
    } else {
        let head = lines.drop_last();
        assert forall|g: int| 0 <= g < head.len() implies parse_record(#[trigger] head[g]) == Ok::<
            Option<MeasurementView>,
            LoadError,
        >(Some(records.drop_last()[g])) by {
            assert(head[g] == lines[g]);
        }
        lemma_read_all(head, records.drop_last());
        assert(lines.last() == lines[lines.len() - 1]);
        assert(records.drop_last().push(records[records.len() - 1]) == records);
    }
}

/// The text written for plain rounds loads as the catalog that the rounds
/// stand for: one measurement to a record, numbered from 1 in order, each
/// depending on the records of the round before its own.
pub proof fn law_rounds_load_as_written(rounds: Seq<Seq<RoundRecordView>>)
    requires
        all_plain(rounds),
        records_before(rounds, rounds.len() as int) <= u32::MAX,
    ensures
        load_text(join(emit_rounds(rounds), '\n')) == Ok::<Seq<MeasurementView>, LoadError>(
            catalog_of(rounds),
        ),
{
    let lines = emit_rounds(rounds);
    let records = catalog_of(rounds);
    let newline = Delimiter::Exactly('\n');
    lemma_written_well(rounds, rounds.len() as int);
    lemma_read_all(lines, records);
    assert(ids_unique(records)) by {
        assert forall|i: int, j: int| 0 <= i < j < records.len() implies (#[trigger] records[i]).id
            != (#[trigger] records[j]).id by {}
    }
    assert(deps_resolve(records)) by {
        assert forall|i: int, d: u32|
            0 <= i < records.len() && #[trigger] records[i].depends.contains(d) implies has_id(
            records,
            d,
        ) by {
            assert(records[d - 1].id == d);
        }
    }
    assert(check_records(records) == Ok::<Seq<MeasurementView>, LoadError>(records));
    if lines.len() == 0 {
        let none = Seq::<char>::empty();
        assert(join(lines, '\n') == none);
        assert(pieces(none, newline) == seq![none]);
        assert(pieces(none, Delimiter::Blank) == seq![none]);
        let keep = |p: Seq<char>| p.len() > 0;
        assert(fields(none) == Seq::<Seq<char>>::empty()) by {
            Seq::<Seq<char>>::empty().lemma_filter_push(none, keep);
            Seq::<Seq<char>>::empty().lemma_filter_len(keep);
            assert(Seq::<Seq<char>>::empty().push(none) == seq![none]);
        }
        assert(seq![none].drop_last() == Seq::<Seq<char>>::empty());
        assert(seq![none].last() == none);
        assert(parse_record(none) == Ok::<Option<MeasurementView>, LoadError>(None));
        assert(read_records(Seq::<Seq<char>>::empty()) == Ok::<Seq<MeasurementView>, LoadError>(
            Seq::empty(),
        ));
        assert(read_records(seq![none]) == Ok::<Seq<MeasurementView>, LoadError>(Seq::empty()));
        assert(records =~= Seq::empty());
    } else {
        law_pieces_of_join(lines, '\n', newline);
    }
}

} // verus!
