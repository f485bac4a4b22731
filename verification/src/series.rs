//! Expanding one gem's sparse cumulative samples into a dense per-day series.
//!
//! A raw sample says "total downloads as of date `d`".  The gap filler puts a
//! synthetic baseline day (total `0`, unknown delta) one day before the first
//! sample, linearly interpolates the cumulative total through every day
//! between two consecutive samples, and records each day's delta against the
//! day before it.  Dates are counted in whole days (a day number), which is
//! how the calendar enters the arithmetic.

use vstd::prelude::*;

use crate::arith::lemma_tdiv_bounds;
use crate::arith::lemma_tdiv_exact;
use crate::arith::lemma_tdiv_ordered;
use crate::arith::tdiv;
use crate::arith::tdiv_i64;

verus! {

/// One raw observation: the cumulative total as of a calendar day.
#[derive(Clone, Copy, Debug)]
pub struct RawSample {
    /// Day number of the observation.
    pub date: i64,
    /// All-time cumulative total as of that day.
    pub total: i64,
}

/// One day of the dense output series.
#[derive(Clone, Copy, Debug)]
pub struct DailyRecord {
    /// Day number of this record.
    pub date: i64,
    /// Cumulative total as of this day.
    pub total: i64,
    /// Increase over the previous day; `None` only on the synthetic baseline
    /// day, whose prior state is unknown.
    pub delta: Option<i64>,
}

/// The dense series of one gem.
#[derive(Debug)]
pub struct EntitySeries {
    /// Name of the gem the series belongs to.
    pub name: String,
    /// One record per day, dates strictly increasing with no gaps.
    pub records: Vec<DailyRecord>,
}

/// Sample dates are strictly increasing (at most one sample per day).
pub open spec fn dates_strictly_increasing(s: Seq<RawSample>) -> bool {
    forall|i: int, j: int|
        0 <= i < j < s.len() ==> (#[trigger] s[i]).date < (#[trigger] s[j]).date
}

/// Day number at which the segment ending in sample `k` starts: the previous
/// sample's date, or the synthetic baseline day for the first sample.
pub open spec fn seg_start_date(s: Seq<RawSample>, k: int) -> int {
    if k == 0 {
        s[0].date - 1
    } else {
        s[k - 1].date as int
    }
}

/// Cumulative total at the start of the segment ending in sample `k`: the
/// previous sample's total, or `0` on the baseline day.
pub open spec fn seg_start_total(s: Seq<RawSample>, k: int) -> int {
    if k == 0 {
        0
    } else {
        s[k - 1].total as int
    }
}

/// The linearly interpolated cumulative total at day `t` on the segment from
/// `(d0, v0)` to `(d1, v1)`: the value difference is distributed over the
/// days in proportion, rounded toward zero.
pub open spec fn interp_total(d0: int, v0: int, d1: int, v1: int, t: int) -> int {
    v0 + tdiv((v1 - v0) * (t - d0), d1 - d0)
}

/// The products the interpolation of segment `k` computes stay within `i64`.
pub open spec fn seg_fits(s: Seq<RawSample>, k: int) -> bool {
    -(i64::MAX as int) <= (s[k].total - seg_start_total(s, k)) * (s[k].date - seg_start_date(
        s,
        k,
    )) <= i64::MAX as int
}

/// Machine limits under which `fill` computes without overflow: the baseline
/// day exists, the output length fits the date type, and no interpolation
/// product leaves `i64`.
pub open spec fn fill_fits(s: Seq<RawSample>) -> bool {
    s.len() > 0 ==> {
        &&& i64::MIN < s[0].date
        &&& s.last().date - s[0].date + 2 <= i64::MAX
        &&& forall|k: int| 0 <= k < s.len() ==> #[trigger] seg_fits(s, k)
    }
}

/// The record dates are exactly `start, start + 1, start + 2, ...`.
pub open spec fn dense_from(out: Seq<DailyRecord>, start: int) -> bool {
    forall|j: int| 0 <= j < out.len() ==> (#[trigger] out[j]).date == start + j
}

/// Every delta is the day-over-day difference of the cumulative totals, and
/// only the leading baseline record has no delta.
pub open spec fn delta_chain(out: Seq<DailyRecord>) -> bool {
    &&& out.len() > 0 ==> out[0].delta is None
    &&& forall|j: int|
        1 <= j < out.len() ==> {
            &&& (#[trigger] out[j]).delta is Some
            &&& out[j].delta->0 == out[j].total - out[j - 1].total
        }
}

/// The records covering segment `k` (days after the segment start, up to and
/// including sample `k`'s day) carry the interpolated totals of that segment.
pub open spec fn seg_totals_ok(s: Seq<RawSample>, out: Seq<DailyRecord>, k: int) -> bool {
    let start = s[0].date - 1;
    forall|j: int|
        seg_start_date(s, k) - start < j <= s[k].date - start ==> (#[trigger] out[j]).total
            == interp_total(
            seg_start_date(s, k),
            seg_start_total(s, k),
            s[k].date as int,
            s[k].total as int,
            start + j,
        )
}

/// What `fill` returns for the sample list `s`: empty for empty input, else
/// one record per day from the baseline day to the last sample's day, with a
/// zero-total baseline, chained deltas, and interpolated totals throughout.
pub open spec fn fill_output_ok(s: Seq<RawSample>, out: Seq<DailyRecord>) -> bool {
    if s.len() == 0 {
        out.len() == 0
    } else {
        &&& out.len() == s.last().date - s[0].date + 2
        &&& dense_from(out, s[0].date - 1)
        &&& out[0].total == 0
        &&& delta_chain(out)
        &&& forall|k: int| 0 <= k < s.len() ==> #[trigger] seg_totals_ok(s, out, k)
    }
}

/// Sample `k`'s day carries exactly the sampled total in `out`.
pub open spec fn out_sample_exact(s: Seq<RawSample>, out: Seq<DailyRecord>, k: int) -> bool {
    out[s[k].date - (s[0].date - 1)].total == s[k].total
}

/// At every sample's own day the output repeats the sampled total exactly.
pub open spec fn samples_reconstructed(s: Seq<RawSample>, out: Seq<DailyRecord>) -> bool {
    forall|k: int| 0 <= k < s.len() ==> #[trigger] out_sample_exact(s, out, k)
}

/// Dates never decrease along the list.
pub open spec fn dates_sorted(s: Seq<RawSample>) -> bool {
    forall|i: int, j: int|
        0 <= i < j < s.len() ==> (#[trigger] s[i]).date <= (#[trigger] s[j]).date
}

/// Stable ascending insertion by date: `x` goes after every sample whose
/// date is not above its own, so earlier samples win ties.
pub open spec fn insert_by_date(s: Seq<RawSample>, x: RawSample) -> Seq<RawSample>
    decreases s.len(),
{
    if s.len() == 0 {
        seq![x]
    } else if s[0].date <= x.date {
        seq![s[0]] + insert_by_date(s.drop_first(), x)
    } else {
        seq![x] + s
    }
}

/// Stable sort by date ascending (insertion sort, left to right).
pub open spec fn sort_by_date(s: Seq<RawSample>) -> Seq<RawSample>
    decreases s.len(),
{
    if s.len() == 0 {
        Seq::empty()
    } else {
        insert_by_date(sort_by_date(s.drop_last()), s.last())
    }
}

proof fn lemma_insert_by_date_at(s: Seq<RawSample>, x: RawSample, pos: int)
    requires
        0 <= pos <= s.len(),
        forall|m: int| 0 <= m < pos ==> (#[trigger] s[m]).date <= x.date,
        pos == s.len() || s[pos].date > x.date,
    ensures
        insert_by_date(s, x) == s.take(pos) + seq![x] + s.skip(pos),
    decreases pos,
{
    if pos == 0 {
        assert(s.take(0) =~= Seq::<RawSample>::empty());
        assert(s.skip(0) =~= s);
        if s.len() == 0 {
            assert(insert_by_date(s, x) =~= s.take(0) + seq![x] + s.skip(0));
        } else {
            assert(s[0].date > x.date);
            assert(insert_by_date(s, x) =~= s.take(0) + seq![x] + s.skip(0));
        }
    } else {
        assert(s[0].date <= x.date);
        let t = s.drop_first();
        assert(forall|m: int| 0 <= m < pos - 1 ==> (#[trigger] t[m]).date <= x.date);
        assert(pos - 1 == t.len() || t[pos - 1].date > x.date);
        lemma_insert_by_date_at(t, x, pos - 1);
        assert(seq![s[0]] + (t.take(pos - 1) + seq![x] + t.skip(pos - 1)) =~= s.take(pos)
            + seq![x] + s.skip(pos));
    }
}

proof fn lemma_insert_by_date_multiset(s: Seq<RawSample>, x: RawSample)
    ensures
        insert_by_date(s, x).to_multiset() =~= s.to_multiset().insert(x),
        insert_by_date(s, x).len() == s.len() + 1,
    decreases s.len(),
{
    broadcast use vstd::seq_lib::group_to_multiset_ensures;

    if s.len() == 0 {
        assert(insert_by_date(s, x) =~= Seq::<RawSample>::empty().push(x));
    } else if s[0].date <= x.date {
        lemma_insert_by_date_multiset(s.drop_first(), x);
        let inner = insert_by_date(s.drop_first(), x);
        assert(seq![s[0]] + inner =~= inner.insert(0, s[0]));
        assert((seq![s[0]] + inner).to_multiset() =~= inner.to_multiset().insert(s[0]));
        assert(s =~= s.drop_first().insert(0, s[0]));
        assert(s.to_multiset() =~= s.drop_first().to_multiset().insert(s[0]));
    } else {
        assert(seq![x] + s =~= s.insert(0, x));
        assert((seq![x] + s).to_multiset() =~= s.to_multiset().insert(x));
    }
}

/// Sorting keeps exactly the input's samples.
pub proof fn lemma_sort_by_date_multiset(s: Seq<RawSample>)
    ensures
        sort_by_date(s).to_multiset() =~= s.to_multiset(),
        sort_by_date(s).len() == s.len(),
    decreases s.len(),
{
    broadcast use vstd::seq_lib::group_to_multiset_ensures;

    if s.len() > 0 {
        lemma_sort_by_date_multiset(s.drop_last());
        lemma_insert_by_date_multiset(sort_by_date(s.drop_last()), s.last());
        assert(s =~= s.drop_last().push(s.last()));
        assert(s.to_multiset() =~= s.drop_last().to_multiset().insert(s.last()));
    }
}

proof fn lemma_insert_by_date_sorted(s: Seq<RawSample>, x: RawSample)
    requires
        dates_sorted(s),
    ensures
        dates_sorted(insert_by_date(s, x)),
    decreases s.len(),
{
    if s.len() == 0 {
    } else if s[0].date <= x.date {
        let t = s.drop_first();
        assert(dates_sorted(t));
        lemma_insert_by_date_sorted(t, x);
        let inner = insert_by_date(t, x);
        lemma_insert_by_date_multiset(t, x);
        let out = seq![s[0]] + inner;
        assert forall|a: int, b: int| 0 <= a < b < out.len() implies (#[trigger] out[a]).date
            <= (#[trigger] out[b]).date by {
            if a == 0 {
                // the head is below the whole tail: every inserted element is
                // either x (with s[0].date <= x.date) or an element of t
                broadcast use vstd::seq_lib::group_to_multiset_ensures;

                assert(inner.to_multiset().contains(out[b]));
                if out[b] != x {
                    assert(t.to_multiset().contains(out[b]));
                    let w = choose|w: int| 0 <= w < t.len() && t[w] == out[b];
                    assert(s[w + 1] == t[w]);
                }
            } else {
                assert(inner[a - 1].date <= inner[b - 1].date);
            }
        }
    } else {
        let out = seq![x] + s;
        assert forall|a: int, b: int| 0 <= a < b < out.len() implies (#[trigger] out[a]).date
            <= (#[trigger] out[b]).date by {
            if a == 0 {
                if b == 1 {
                    assert(out[b] == s[0]);
                } else {
                    assert(s[0].date <= s[b - 1].date);
                }
            } else {
                assert(s[a - 1].date <= s[b - 1].date);
            }
        }
    }
}

/// Sorting orders the samples by date.
pub proof fn lemma_sort_by_date_sorted(s: Seq<RawSample>)
    ensures
        dates_sorted(sort_by_date(s)),
    decreases s.len(),
{
    if s.len() > 0 {
        lemma_sort_by_date_sorted(s.drop_last());
        lemma_insert_by_date_sorted(sort_by_date(s.drop_last()), s.last());
    }
}

/// Sorts raw samples by date ascending (insertion sort): afterwards the list
/// holds exactly the same samples, ordered by date; samples with equal dates
/// keep their input order (the sort is stable).
#[verifier::loop_isolation(false)]
pub fn sort_samples(samples: &mut Vec<RawSample>)
    ensures
        final (samples)@ == sort_by_date(old(samples)@),
        dates_sorted(final (samples)@),
        final (samples)@.to_multiset() == old(samples)@.to_multiset(),
{
    let ghost orig = samples@;
    let mut out: Vec<RawSample> = Vec::new();
    let ghost mut taken: int = 0;
    while samples.len() > 0
        invariant
            0 <= taken <= orig.len(),
            samples@ =~= orig.skip(taken),
            out@ == sort_by_date(orig.take(taken)),
        decreases samples@.len(),
    {
        let x = samples.remove(0);
        proof {
            assert(taken < orig.len());
            assert(orig.skip(taken).drop_first() =~= orig.skip(taken + 1));
            assert(orig.skip(taken)[0] == orig[taken]);
        }
        let mut pos: usize = 0;
        let ghost sprev = out@;
        while pos < out.len() && out[pos].date <= x.date
            invariant
                0 <= pos <= out@.len(),
                out@ == sprev,
                forall|m: int| 0 <= m < pos ==> (#[trigger] out@[m]).date <= x.date,
            decreases out@.len() - pos,
        {
            pos = pos + 1;
        }
        out.insert(pos, x);
        proof {
            lemma_insert_by_date_at(sprev, x, pos as int);
            assert(out@ =~= sprev.take(pos as int) + seq![x] + sprev.skip(pos as int));
            assert(orig.take(taken + 1).drop_last() =~= orig.take(taken));
            assert(orig.take(taken + 1).last() == orig[taken]);
            assert(sort_by_date(orig.take(taken + 1)) == insert_by_date(
                sort_by_date(orig.take(taken)),
                orig[taken],
            ));
            taken = taken + 1;
        }
    }
    proof {
        assert(orig.take(taken) =~= orig);
        lemma_sort_by_date_sorted(orig);
        lemma_sort_by_date_multiset(orig);
    }
    *samples = out;
}

/// Gap reconstruction: on any segment the interpolated value at the far end
/// equals the sampled value exactly, whichever way the totals moved.
pub proof fn lemma_gap_reconstruction(d0: int, v0: int, d1: int, v1: int)
    requires
        d0 < d1,
    ensures
        interp_total(d0, v0, d1, v1, d1) == v1,
{
    lemma_tdiv_exact(v1 - v0, d1 - d0);
}

/// The interpolated total never leaves the closed interval between the two
/// segment endpoints' totals.
pub proof fn lemma_interp_bounds(d0: int, v0: int, d1: int, v1: int, t: int)
    requires
        d0 < t <= d1,
    ensures
        v0 <= v1 ==> v0 <= interp_total(d0, v0, d1, v1, t) <= v1,
        v1 <= v0 ==> v1 <= interp_total(d0, v0, d1, v1, t) <= v0,
{
    let diff = v1 - v0;
    let gap = d1 - d0;
    let i = t - d0;
    lemma_tdiv_bounds(diff * i, gap);
    if diff >= 0 {
        assert(0 <= diff * i <= diff * gap) by (nonlinear_arith)
            requires
                diff >= 0,
                0 < i <= gap,
        ;
        lemma_tdiv_ordered(diff * i, diff * gap, gap);
        lemma_tdiv_exact(diff, gap);
    } else {
        assert(diff * gap <= diff * i <= 0) by (nonlinear_arith)
            requires
                diff < 0,
                0 < i <= gap,
        ;
        lemma_tdiv_ordered(diff * gap, diff * i, gap);
        lemma_tdiv_exact(diff, gap);
    }
}

/// Sum of the deltas of a series, the baseline's absent delta counting as `0`.
pub open spec fn sum_deltas(s: Seq<DailyRecord>) -> int
    decreases s.len(),
{
    if s.len() == 0 {
        0
    } else {
        sum_deltas(s.drop_last()) + (if s.last().delta is Some {
            s.last().delta->0 as int
        } else {
            0
        })
    }
}

/// Delta telescoping: in any series whose baseline total is `0` and whose
/// deltas chain day over day, the deltas sum to the final cumulative total.
pub proof fn lemma_delta_telescoping(s: Seq<DailyRecord>)
    requires
        s.len() > 0,
        s[0].total == 0,
        delta_chain(s),
    ensures
        sum_deltas(s) == s.last().total,
    decreases s.len(),
{
    if s.len() == 1 {
        assert(s.last().delta is None);
        assert(s.drop_last().len() == 0);
        assert(sum_deltas(s.drop_last()) == 0);
    } else {
        let head = s.drop_last();
        assert(forall|j: int| 0 <= j < head.len() ==> #[trigger] head[j] == s[j]);
        assert(delta_chain(head));
        lemma_delta_telescoping(head);
        assert(head.last() == s[s.len() - 2]);
        assert(s[s.len() - 1].delta->0 == s.last().total - s[s.len() - 2].total);
        assert(sum_deltas(s) == sum_deltas(head) + s.last().delta->0);
    }
}

/// Delta telescoping for a filled series: the deltas of what `fill` returns
/// for a non-empty sample list sum to the last sample's cumulative total
/// (the baseline starts at `0`).
pub proof fn lemma_fill_telescoping(s: Seq<RawSample>, out: Seq<DailyRecord>)
    requires
        s.len() > 0,
        dates_strictly_increasing(s),
        fill_output_ok(s, out),
        samples_reconstructed(s, out),
    ensures
        sum_deltas(out) == s.last().total,
{
    if s.len() > 1 {
        assert(s[0].date < s[s.len() - 1].date);
    }
    assert(out.len() > 0);
    lemma_delta_telescoping(out);
    assert(out_sample_exact(s, out, s.len() - 1));
    assert(out.last() == out[s.last().date - (s[0].date - 1)]);
}

/// Expands one gem's raw samples into the dense daily series.
///
/// The sample dates must be strictly increasing (the caller sorts and
/// deduplicates first), and the interpolation arithmetic must fit `i64`.
/// Empty input gives an empty series.  Otherwise the series runs from the
/// day before the first sample (total `0`, no delta) to the last sample's
/// day, one record per day; each day's total is linearly interpolated
/// between the surrounding samples, each sampled day keeps its exact total,
/// and each day's delta is the difference from the day before.
#[verifier::loop_isolation(false)]
#[verifier::rlimit(100)]
pub fn fill(name: &str, samples: &Vec<RawSample>) -> (result: EntitySeries)
    requires
        dates_strictly_increasing(samples@),
        fill_fits(samples@),
    ensures
        result.name@ == name@,
        fill_output_ok(samples@, result.records@),
        samples_reconstructed(samples@, result.records@),
{
    let ghost s = samples@;
    let mut records: Vec<DailyRecord> = Vec::new();
    if samples.len() == 0 {
        return EntitySeries { name: name.to_owned(), records };
    }
    let start_date = samples[0].date - 1;
    records.push(DailyRecord { date: start_date, total: 0, delta: None });
    let mut d0: i64 = start_date;
    let mut v0: i64 = 0;
    let mut last_tot: i64 = 0;
    let mut k: usize = 0;
    while k < samples.len()
        invariant
            0 <= k <= s.len(),
            d0 == seg_start_date(s, k as int),
            v0 == seg_start_total(s, k as int),
            start_date <= d0 <= s.last().date,
            records.len() == d0 - start_date + 1,
            dense_from(records@, start_date as int),
            records@[0].total == 0,
            delta_chain(records@),
            records@.last().total == last_tot,
            last_tot == v0,
            forall|kk: int| 0 <= kk < k ==> #[trigger] seg_totals_ok(s, records@, kk),
        decreases s.len() - k,
    {
        let ghost ki = k as int;
        proof {
            assert(seg_fits(s, ki));
            if ki < s.len() - 1 {
                assert(s[ki].date < s[s.len() - 1].date);
            }
            if ki > 0 {
                assert(s[ki - 1].date < s[ki].date);
            }
        }
        let d1 = samples[k].date;
        let v1 = samples[k].total;
        let gap = d1 - d0;
        proof {
            assert(-(i64::MAX as int) <= (v1 - v0) * gap <= i64::MAX as int);
            assert(-(i64::MAX as int) <= v1 as int - v0 as int <= i64::MAX as int)
                by (nonlinear_arith)
                requires
                    gap as int >= 1,
                    -(i64::MAX as int) <= (v1 - v0) * gap <= i64::MAX as int,
            ;
        }
        let diff = v1 - v0;
        let mut i: i64 = 1;
        while i <= gap
            invariant
                1 <= i <= gap + 1,
                records.len() == (d0 + i - 1) - start_date + 1,
                dense_from(records@, start_date as int),
                records@[0].total == 0,
                delta_chain(records@),
                records@.last().total == last_tot,
                i == 1 ==> last_tot == v0,
                i > 1 ==> last_tot == interp_total(
                    d0 as int,
                    v0 as int,
                    d1 as int,
                    v1 as int,
                    d0 + i - 1,
                ),
                v0 <= v1 ==> v0 <= last_tot <= v1,
                v1 <= v0 ==> v1 <= last_tot <= v0,
                forall|kk: int| 0 <= kk < k ==> #[trigger] seg_totals_ok(s, records@, kk),
                forall|j: int|
                    d0 - start_date < j <= d0 + i - 1 - start_date ==> (#[trigger] records@[j]).total
                        == interp_total(d0 as int, v0 as int, d1 as int, v1 as int, start_date + j),
            decreases gap + 1 - i,
        {
            proof {
                assert(diff >= 0 ==> 0 <= diff * i <= diff * gap) by (nonlinear_arith)
                    requires
                        1 <= i <= gap,
                ;
                assert(diff < 0 ==> diff * gap <= diff * i <= 0) by (nonlinear_arith)
                    requires
                        1 <= i <= gap,
                ;
            }
            let prod = diff * i;
            let q = tdiv_i64(prod, gap);
            proof {
                lemma_interp_bounds(d0 as int, v0 as int, d1 as int, v1 as int, d0 + i);
            }
            let tot = v0 + q;
            let delta = tot - last_tot;
            let ghost prev = records@;
            records.push(DailyRecord { date: d0 + i, total: tot, delta: Some(delta) });
            proof {
                assert forall|kk: int| 0 <= kk < k implies #[trigger] seg_totals_ok(
                    s,
                    records@,
                    kk,
                ) by {
                    if kk < k - 1 {
                        assert(s[kk].date < s[(k - 1) as int].date);
                    }
                    assert(s[kk].date - (s[0].date - 1) <= d0 - start_date);
                    assert(seg_totals_ok(s, prev, kk));
                    assert forall|j: int|
                        seg_start_date(s, kk) - (s[0].date - 1) < j <= s[kk].date - (s[0].date
                            - 1) implies (#[trigger] records@[j]).total == interp_total(
                        seg_start_date(s, kk),
                        seg_start_total(s, kk),
                        s[kk].date as int,
                        s[kk].total as int,
                        (s[0].date - 1) + j,
                    ) by {
                        assert(records@[j] == prev[j]);
                        assert((#[trigger] prev[j]).total == interp_total(
                            seg_start_date(s, kk),
                            seg_start_total(s, kk),
                            s[kk].date as int,
                            s[kk].total as int,
                            (s[0].date - 1) + j,
                        ));
                    }
                }
            }
            last_tot = tot;
            i = i + 1;
        }
        proof {
            lemma_gap_reconstruction(d0 as int, v0 as int, d1 as int, v1 as int);
            assert(seg_totals_ok(s, records@, ki));
        }
        d0 = d1;
        v0 = v1;
        last_tot = v1;
        k = k + 1;
    }
    proof {
        assert forall|kk: int| 0 <= kk < s.len() implies #[trigger] out_sample_exact(
            s,
            records@,
            kk,
        ) by {
            assert(seg_totals_ok(s, records@, kk));
            lemma_gap_reconstruction(
                seg_start_date(s, kk),
                seg_start_total(s, kk),
                s[kk].date as int,
                s[kk].total as int,
            );
            assert(records@[s[kk].date - (s[0].date - 1)].total == interp_total(
                seg_start_date(s, kk),
                seg_start_total(s, kk),
                s[kk].date as int,
                s[kk].total as int,
                s[kk].date as int,
            ));
        }
    }
    EntitySeries { name: name.to_owned(), records }
}

} // verus!
