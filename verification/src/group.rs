//! Merging many gems' dense series into per-calendar-date groups.
//!
//! Every record of every input series lands in the group of its date; no
//! record is dropped or deduplicated.  Groups come out ordered by date.
//! Within a group the entries follow the input order (series order, then
//! record order within a series) — callers must not rely on any particular
//! order within a group.

use vstd::prelude::*;

use crate::series::DailyRecord;
use crate::series::EntitySeries;

verus! {

/// One gem's contribution to one calendar day.
#[derive(Debug)]
pub struct GroupEntry {
    /// Name of the gem.
    pub name: String,
    /// Cumulative total of that gem as of the group's day.
    pub total: i64,
    /// Day-over-day delta of that gem, absent on its baseline day.
    pub delta: Option<i64>,
}

/// All contributions for one calendar day.
#[derive(Debug)]
pub struct DateGroup {
    /// Day number the entries belong to.
    pub date: i64,
    /// One entry per record of an input series with this date.
    pub entries: Vec<GroupEntry>,
}

/// The mathematical content of one entry: name, total, delta.
pub open spec fn entry_view(e: GroupEntry) -> (Seq<char>, i64, Option<i64>) {
    (e.name@, e.total, e.delta)
}

/// The entry list of a group, as values.
pub open spec fn entries_view(es: Seq<GroupEntry>) -> Seq<(Seq<char>, i64, Option<i64>)> {
    es.map_values(|e: GroupEntry| entry_view(e))
}

/// The entry a series record contributes.
pub open spec fn record_entry(name: Seq<char>, r: DailyRecord) -> (Seq<char>, i64, Option<i64>) {
    (name, r.total, r.delta)
}

/// What the first `ri` records of series `sr` contribute to day `d`,
/// in record order.
pub open spec fn series_prefix_entries(sr: EntitySeries, ri: int, d: i64) -> Seq<
    (Seq<char>, i64, Option<i64>),
> {
    sr.records@.take(ri).filter(|r: DailyRecord| r.date == d).map_values(
        |r: DailyRecord| record_entry(sr.name@, r),
    )
}

/// What one whole series contributes to day `d`.
pub open spec fn series_date_entries(sr: EntitySeries, d: i64) -> Seq<
    (Seq<char>, i64, Option<i64>),
> {
    series_prefix_entries(sr, sr.records@.len() as int, d)
}

/// What all series together contribute to day `d`, in series order.
pub open spec fn all_date_entries(ss: Seq<EntitySeries>, d: i64) -> Seq<
    (Seq<char>, i64, Option<i64>),
>
    decreases ss.len(),
{
    if ss.len() == 0 {
        Seq::empty()
    } else {
        all_date_entries(ss.drop_last(), d) + series_date_entries(ss.last(), d)
    }
}

/// Total number of entries across all groups.
pub open spec fn total_entries(gs: Seq<DateGroup>) -> int
    decreases gs.len(),
{
    if gs.len() == 0 {
        0
    } else {
        total_entries(gs.drop_last()) + gs.last().entries@.len()
    }
}

/// Total number of records across all series.
pub open spec fn total_records(ss: Seq<EntitySeries>) -> int
    decreases ss.len(),
{
    if ss.len() == 0 {
        0
    } else {
        total_records(ss.drop_last()) + ss.last().records@.len()
    }
}

/// Group dates are strictly ascending (each date appears once).
pub open spec fn dates_ascending(gs: Seq<DateGroup>) -> bool {
    forall|a: int, b: int|
        0 <= a < b < gs.len() ==> (#[trigger] gs[a]).date < (#[trigger] gs[b]).date
}

/// Some group carries day `d`.
pub open spec fn has_group(gs: Seq<DateGroup>, d: i64) -> bool {
    exists|g: int| 0 <= g < gs.len() && (#[trigger] gs[g]).date == d
}

proof fn lemma_total_entries_insert(gs: Seq<DateGroup>, pos: int, g: DateGroup)
    requires
        0 <= pos <= gs.len(),
    ensures
        total_entries(gs.insert(pos, g)) == total_entries(gs) + g.entries@.len(),
    decreases gs.len(),
{
    let gs2 = gs.insert(pos, g);
    if pos == gs.len() {
        assert(gs2.drop_last() =~= gs);
        assert(gs2.last() == g);
    } else {
        assert(gs2.drop_last() =~= gs.drop_last().insert(pos, g));
        assert(gs2.last() == gs.last());
        lemma_total_entries_insert(gs.drop_last(), pos, g);
    }
}

proof fn lemma_total_entries_update(gs: Seq<DateGroup>, pos: int, g: DateGroup)
    requires
        0 <= pos < gs.len(),
    ensures
        total_entries(gs.update(pos, g)) == total_entries(gs) - gs[pos].entries@.len()
            + g.entries@.len(),
    decreases gs.len(),
{
    let gs2 = gs.update(pos, g);
    if pos == gs.len() - 1 {
        assert(gs2.drop_last() =~= gs.drop_last());
        assert(gs2.last() == g);
    } else {
        assert(gs2.drop_last() =~= gs.drop_last().update(pos, g));
        assert(gs2.last() == gs.last());
        lemma_total_entries_update(gs.drop_last(), pos, g);
    }
}

proof fn lemma_total_records_take_succ(ss: Seq<EntitySeries>, si: int)
    requires
        0 <= si < ss.len(),
    ensures
        total_records(ss.take(si + 1)) == total_records(ss.take(si))
            + ss[si].records@.len(),
{
    let t = ss.take(si + 1);
    assert(t.drop_last() =~= ss.take(si));
    assert(t.last() == ss[si]);
}

proof fn lemma_all_date_entries_take_succ(ss: Seq<EntitySeries>, si: int, d: i64)
    requires
        0 <= si < ss.len(),
    ensures
        all_date_entries(ss.take(si + 1), d) == all_date_entries(ss.take(si), d)
            + series_date_entries(ss[si], d),
{
    let t = ss.take(si + 1);
    assert(t.drop_last() =~= ss.take(si));
    assert(t.last() == ss[si]);
}

/// Extending the record prefix by one record adds that record's entry to its
/// own day and changes no other day.
proof fn lemma_series_prefix_push(sr: EntitySeries, ri: int, d: i64)
    requires
        0 <= ri < sr.records@.len(),
    ensures
        sr.records@[ri].date == d ==> series_prefix_entries(sr, ri + 1, d)
            == series_prefix_entries(sr, ri, d).push(record_entry(sr.name@, sr.records@[ri])),
        sr.records@[ri].date != d ==> series_prefix_entries(sr, ri + 1, d)
            == series_prefix_entries(sr, ri, d),
{
    let pred = |r: DailyRecord| r.date == d;
    let f = |r: DailyRecord| record_entry(sr.name@, r);
    let t1 = sr.records@.take(ri + 1);
    let t0 = sr.records@.take(ri);
    let r = sr.records@[ri];
    assert(t1.drop_last() =~= t0);
    assert(t1.last() == r);
    reveal(Seq::filter);
    if r.date == d {
        assert(t1.filter(pred) == t0.filter(pred).push(r));
        assert(t1.filter(pred).map_values(f) =~= t0.filter(pred).map_values(f).push(
            record_entry(sr.name@, r),
        ));
    } else {
        assert(t1.filter(pred) == t0.filter(pred));
    }
}

proof fn lemma_has_group_update(gs: Seq<DateGroup>, pos: int, g2: DateGroup, d2: i64)
    requires
        0 <= pos < gs.len(),
        g2.date == gs[pos].date,
    ensures
        has_group(gs.update(pos, g2), d2) == has_group(gs, d2),
{
    let gs2 = gs.update(pos, g2);
    if has_group(gs, d2) {
        let w = choose|w: int| 0 <= w < gs.len() && (#[trigger] gs[w]).date == d2;
        assert(gs2[w].date == d2);
    }
    if has_group(gs2, d2) {
        let w = choose|w: int| 0 <= w < gs2.len() && (#[trigger] gs2[w]).date == d2;
        assert(gs[w].date == d2);
    }
}

proof fn lemma_has_group_insert(gs: Seq<DateGroup>, pos: int, g2: DateGroup, d2: i64)
    requires
        0 <= pos <= gs.len(),
    ensures
        has_group(gs.insert(pos, g2), d2) == (has_group(gs, d2) || g2.date == d2),
{
    let gs2 = gs.insert(pos, g2);
    if has_group(gs, d2) {
        let w = choose|w: int| 0 <= w < gs.len() && (#[trigger] gs[w]).date == d2;
        if w < pos {
            assert(gs2[w].date == d2);
        } else {
            assert(gs2[w + 1].date == d2);
        }
    }
    if g2.date == d2 {
        assert(gs2[pos].date == d2);
    }
    if has_group(gs2, d2) {
        let w = choose|w: int| 0 <= w < gs2.len() && (#[trigger] gs2[w]).date == d2;
        if w < pos {
            assert(gs[w].date == d2);
        } else if w > pos {
            assert(gs[w - 1].date == d2);
        }
    }
}

proof fn lemma_series_prefix_zero(sr: EntitySeries, d: i64)
    ensures
        series_prefix_entries(sr, 0, d) == Seq::<(Seq<char>, i64, Option<i64>)>::empty(),
{
    assert(sr.records@.take(0) =~= Seq::<DailyRecord>::empty());
    reveal(Seq::filter);
    assert(sr.records@.take(0).filter(|r: DailyRecord| r.date == d) =~= Seq::<
        DailyRecord,
    >::empty());
    assert(series_prefix_entries(sr, 0, d) =~= Seq::<(Seq<char>, i64, Option<i64>)>::empty());
}

/// Merges all series into one group per calendar date, dates ascending.
///
/// Every record of every series contributes exactly one entry to the group
/// of its own date (so the entry counts add up), a group exists exactly for
/// the dates that occur, and no group is empty.  Entries inside a group
/// follow the input order, but callers must not rely on that order.
#[verifier::loop_isolation(false)]
#[verifier::rlimit(100)]
pub fn group(series: &Vec<EntitySeries>) -> (result: Vec<DateGroup>)
    ensures
        dates_ascending(result@),
        forall|g: int|
            0 <= g < result@.len() ==> entries_view((#[trigger] result@[g]).entries@)
                == all_date_entries(series@, result@[g].date),
        forall|g: int| 0 <= g < result@.len() ==> (#[trigger] result@[g]).entries@.len() > 0,
        forall|si: int, ri: int|
            0 <= si < series@.len() && 0 <= ri < series@[si].records@.len() ==> has_group(
                result@,
                (#[trigger] series@[si].records@[ri]).date,
            ),
        total_entries(result@) == total_records(series@),
{
    let ghost ss = series@;
    let mut out: Vec<DateGroup> = Vec::new();
    let mut si: usize = 0;
    while si < series.len()
        invariant
            0 <= si <= ss.len(),
            dates_ascending(out@),
            forall|g: int|
                0 <= g < out@.len() ==> entries_view((#[trigger] out@[g]).entries@)
                    == all_date_entries(ss.take(si as int), out@[g].date),
            forall|g: int| 0 <= g < out@.len() ==> (#[trigger] out@[g]).entries@.len() > 0,
            forall|sj: int, rj: int|
                0 <= sj < si && 0 <= rj < ss[sj].records@.len() ==> has_group(
                    out@,
                    (#[trigger] ss[sj].records@[rj]).date,
                ),
            forall|d: i64|
                !(#[trigger] has_group(out@, d)) ==> all_date_entries(ss.take(si as int), d)
                    =~= Seq::<(Seq<char>, i64, Option<i64>)>::empty(),
            total_entries(out@) == total_records(ss.take(si as int)),
        decreases ss.len() - si,
    {
        let nrec = series[si].records.len();
        proof {
            assert forall|g: int| 0 <= g < out@.len() implies entries_view(
                (#[trigger] out@[g]).entries@,
            ) == all_date_entries(ss.take(si as int), out@[g].date) + series_prefix_entries(
                ss[si as int],
                0,
                out@[g].date,
            ) by {
                lemma_series_prefix_zero(ss[si as int], out@[g].date);
                assert(all_date_entries(ss.take(si as int), out@[g].date) + Seq::<
                    (Seq<char>, i64, Option<i64>),
                >::empty() =~= all_date_entries(ss.take(si as int), out@[g].date));
            }
            assert forall|d: i64| !(#[trigger] has_group(out@, d)) implies all_date_entries(
                ss.take(si as int),
                d,
            ) + series_prefix_entries(ss[si as int], 0, d) =~= Seq::<
                (Seq<char>, i64, Option<i64>),
            >::empty() by {
                lemma_series_prefix_zero(ss[si as int], d);
            }
        }
        let mut ri: usize = 0;
        while ri < nrec
            invariant
                0 <= ri <= nrec,
                nrec == ss[si as int].records@.len(),
                dates_ascending(out@),
                forall|g: int|
                    0 <= g < out@.len() ==> entries_view((#[trigger] out@[g]).entries@)
                        == all_date_entries(ss.take(si as int), out@[g].date)
                        + series_prefix_entries(ss[si as int], ri as int, out@[g].date),
                forall|g: int| 0 <= g < out@.len() ==> (#[trigger] out@[g]).entries@.len() > 0,
                forall|d: i64|
                    !(#[trigger] has_group(out@, d)) ==> all_date_entries(ss.take(si as int), d)
                        + series_prefix_entries(ss[si as int], ri as int, d) =~= Seq::empty(),
                forall|sj: int, rj: int|
                    0 <= sj < si && 0 <= rj < ss[sj].records@.len() ==> has_group(
                        out@,
                        (#[trigger] ss[sj].records@[rj]).date,
                    ),
                forall|rj: int|
                    0 <= rj < ri ==> has_group(out@, (#[trigger] ss[si as int].records@[rj]).date),
                total_entries(out@) == total_records(ss.take(si as int)) + ri,
            decreases nrec - ri,
        {
            let r = series[si].records[ri];
            let d = r.date;
            let entry = GroupEntry { name: series[si].name.clone(), total: r.total, delta: r.delta };
            let ghost prev = out@;
            // find the first group whose date is not below `d`
            let mut pos: usize = 0;
            while pos < out.len() && out[pos].date < d
                invariant
                    0 <= pos <= out@.len(),
                    forall|m: int| 0 <= m < pos ==> (#[trigger] out@[m]).date < d,
                    out@ == prev,
                decreases out@.len() - pos,
            {
                pos = pos + 1;
            }
            proof {
                lemma_series_prefix_push(ss[si as int], ri as int, d);
            }
            if pos < out.len() && out[pos].date == d {
                out[pos].entries.push(entry);
                proof {
                    let g2 = out@[pos as int];
                    assert(out@ =~= prev.update(pos as int, g2));
                    lemma_total_entries_update(prev, pos as int, g2);
                    assert(entries_view(g2.entries@) =~= entries_view(prev[pos as int].entries@)
                        .push(record_entry(ss[si as int].name@, ss[si as int].records@[ri as int])));
                    assert forall|d2: i64| !(#[trigger] has_group(out@, d2)) implies all_date_entries(
                        ss.take(si as int),
                        d2,
                    ) + series_prefix_entries(ss[si as int], (ri + 1) as int, d2) =~= Seq::empty() by {
                        lemma_has_group_update(prev, pos as int, g2, d2);
                        assert(!has_group(prev, d2));
                        lemma_series_prefix_push(ss[si as int], ri as int, d2);
                        assert(d2 != d);
                    }
                    assert forall|sj: int, rj: int|
                        0 <= sj < si && 0 <= rj < ss[sj].records@.len() implies has_group(
                        out@,
                        (#[trigger] ss[sj].records@[rj]).date,
                    ) by {
                        lemma_has_group_update(prev, pos as int, g2, ss[sj].records@[rj].date);
                    }
                    assert forall|rj: int| 0 <= rj < ri + 1 implies has_group(
                        out@,
                        (#[trigger] ss[si as int].records@[rj]).date,
                    ) by {
                        lemma_has_group_update(
                            prev,
                            pos as int,
                            g2,
                            ss[si as int].records@[rj].date,
                        );
                        if rj == ri {
                            assert(prev[pos as int].date == d);
                        }
                    }
                }
            } else {
                let mut entries: Vec<GroupEntry> = Vec::new();
                entries.push(entry);
                let grp = DateGroup { date: d, entries };
                out.insert(pos, grp);
                proof {
                    let gv = out@[pos as int];
                    assert(out@ == prev.insert(pos as int, gv));
                    lemma_total_entries_insert(prev, pos as int, gv);
                    assert(!has_group(prev, d));
                    assert(all_date_entries(ss.take(si as int), d) + series_prefix_entries(
                        ss[si as int],
                        ri as int,
                        d,
                    ) =~= Seq::empty());
                    assert(entries_view(gv.entries@) =~= Seq::empty().push(
                        record_entry(ss[si as int].name@, ss[si as int].records@[ri as int]),
                    ));
                    assert forall|d2: i64| !(#[trigger] has_group(out@, d2)) implies all_date_entries(
                        ss.take(si as int),
                        d2,
                    ) + series_prefix_entries(ss[si as int], (ri + 1) as int, d2) =~= Seq::empty() by {
                        lemma_has_group_insert(prev, pos as int, gv, d2);
                        assert(!has_group(prev, d2));
                        lemma_series_prefix_push(ss[si as int], ri as int, d2);
                        assert(d2 != d);
                    }
                    assert forall|sj: int, rj: int|
                        0 <= sj < si && 0 <= rj < ss[sj].records@.len() implies has_group(
                        out@,
                        (#[trigger] ss[sj].records@[rj]).date,
                    ) by {
                        lemma_has_group_insert(prev, pos as int, gv, ss[sj].records@[rj].date);
                    }
                    assert forall|rj: int| 0 <= rj < ri + 1 implies has_group(
                        out@,
                        (#[trigger] ss[si as int].records@[rj]).date,
                    ) by {
                        lemma_has_group_insert(
                            prev,
                            pos as int,
                            gv,
                            ss[si as int].records@[rj].date,
                        );
                    }
                    assert forall|g: int| 0 <= g < out@.len() implies entries_view(
                        (#[trigger] out@[g]).entries@,
                    ) == all_date_entries(ss.take(si as int), out@[g].date) + series_prefix_entries(
                        ss[si as int],
                        (ri + 1) as int,
                        out@[g].date,
                    ) by {
                        if g < pos {
                            assert(out@[g] == prev[g]);
                            lemma_series_prefix_push(ss[si as int], ri as int, out@[g].date);
                        } else if g == pos {
                        } else {
                            assert(out@[g] == prev[g - 1]);
                            lemma_series_prefix_push(ss[si as int], ri as int, out@[g].date);
                        }
                    }
                }
            }
            proof {
                assert forall|g: int| 0 <= g < out@.len() implies entries_view(
                    (#[trigger] out@[g]).entries@,
                ) == all_date_entries(ss.take(si as int), out@[g].date) + series_prefix_entries(
                    ss[si as int],
                    (ri + 1) as int,
                    out@[g].date,
                ) by {
                    lemma_series_prefix_push(ss[si as int], ri as int, out@[g].date);
                }
            }
            ri = ri + 1;
        }
        proof {
            lemma_total_records_take_succ(ss, si as int);
            assert forall|g: int| 0 <= g < out@.len() implies entries_view(
                (#[trigger] out@[g]).entries@,
            ) == all_date_entries(ss.take(si as int + 1), out@[g].date) by {
                lemma_all_date_entries_take_succ(ss, si as int, out@[g].date);
                assert(series_prefix_entries(ss[si as int], nrec as int, out@[g].date)
                    == series_date_entries(ss[si as int], out@[g].date));
            }
            assert forall|d: i64| !(#[trigger] has_group(out@, d)) implies all_date_entries(
                ss.take(si as int + 1),
                d,
            ) =~= Seq::<(Seq<char>, i64, Option<i64>)>::empty() by {
                lemma_all_date_entries_take_succ(ss, si as int, d);
                assert(series_prefix_entries(ss[si as int], nrec as int, d)
                    == series_date_entries(ss[si as int], d));
            }
        }
        si = si + 1;
    }
    proof {
        assert(ss.take(si as int) =~= ss);
    }
    out
}

} // verus!
