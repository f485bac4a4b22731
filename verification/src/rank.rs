//! Top-N growth ranking between two persisted per-date snapshots.
//!
//! A snapshot maps each gem name to its cumulative total on one date, given
//! here as a list of entries.  Every gem of the end snapshot is a candidate;
//! its start total is the start snapshot's value, or `0` if the gem is absent
//! there (not yet observed).  Candidates are ranked by `end - start`
//! descending; ties keep the end snapshot's entry order (the sort is
//! stable).  With `only_new` set, only gems with start total `0` take part,
//! and they are filtered out before the list is cut to the requested length.

use vstd::prelude::*;

use vstd::seq_lib::group_to_multiset_ensures;

verus! {

/// One snapshot entry: a gem and its cumulative total on the snapshot date.
#[derive(Debug)]
pub struct SnapshotEntry {
    /// Name of the gem.
    pub name: String,
    /// Cumulative total of the gem on the snapshot's date.
    pub total: i64,
}

/// One ranked result: a gem's growth over the queried window.
#[derive(Debug)]
pub struct GrowthRecord {
    /// Name of the gem.
    pub name: String,
    /// Cumulative total at the window start (`0` if absent there).
    pub start_total: i64,
    /// Cumulative total at the window end.
    pub end_total: i64,
    /// Growth: `end_total - start_total`.
    pub diff: i64,
}

/// The mathematical content of a growth record: name, start, end, diff.
pub open spec fn growth_view(r: GrowthRecord) -> (Seq<char>, int, int, int) {
    (r.name@, r.start_total as int, r.end_total as int, r.diff as int)
}

/// A growth list, as values.
pub open spec fn growths_view(rs: Seq<GrowthRecord>) -> Seq<(Seq<char>, int, int, int)> {
    rs.map_values(|r: GrowthRecord| growth_view(r))
}

/// The snapshot's total for `name`: the first entry of that name, or `0`
/// when the name is absent.
pub open spec fn start_total_of(start: Seq<SnapshotEntry>, name: Seq<char>) -> int
    decreases start.len(),
{
    if start.len() == 0 {
        0
    } else if start[0].name@ == name {
        start[0].total as int
    } else {
        start_total_of(start.drop_first(), name)
    }
}

/// Some entry of the snapshot carries `name`.
pub open spec fn has_name(s: Seq<SnapshotEntry>, name: Seq<char>) -> bool {
    exists|j: int| 0 <= j < s.len() && (#[trigger] s[j]).name@ == name
}

/// The growth an end-snapshot entry contributes.
pub open spec fn growth_of(start: Seq<SnapshotEntry>, e: SnapshotEntry) -> (
    Seq<char>,
    int,
    int,
    int,
) {
    let st = start_total_of(start, e.name@);
    (e.name@, st, e.total as int, e.total - st)
}

/// The candidates, in end-snapshot order: every end entry, or with
/// `only_new` only those whose start total is `0`.
pub open spec fn candidate_growths(
    start: Seq<SnapshotEntry>,
    end: Seq<SnapshotEntry>,
    only_new: bool,
) -> Seq<(Seq<char>, int, int, int)>
    decreases end.len(),
{
    if end.len() == 0 {
        Seq::empty()
    } else {
        let rest = candidate_growths(start, end.drop_last(), only_new);
        let g = growth_of(start, end.last());
        if !only_new || g.1 == 0 {
            rest.push(g)
        } else {
            rest
        }
    }
}

/// Stable descending insertion by diff: `x` goes after every element whose
/// diff is at least as large, so earlier elements win ties.
pub open spec fn insert_desc(
    s: Seq<(Seq<char>, int, int, int)>,
    x: (Seq<char>, int, int, int),
) -> Seq<(Seq<char>, int, int, int)>
    decreases s.len(),
{
    if s.len() == 0 {
        seq![x]
    } else if s[0].3 >= x.3 {
        seq![s[0]] + insert_desc(s.drop_first(), x)
    } else {
        seq![x] + s
    }
}

/// Stable sort by diff descending (insertion sort, left to right).
pub open spec fn sort_desc(s: Seq<(Seq<char>, int, int, int)>) -> Seq<(Seq<char>, int, int, int)>
    decreases s.len(),
{
    if s.len() == 0 {
        Seq::empty()
    } else {
        insert_desc(sort_desc(s.drop_last()), s.last())
    }
}

/// Diffs never increase along the list.
pub open spec fn sorted_desc(s: Seq<(Seq<char>, int, int, int)>) -> bool {
    forall|a: int, b: int| 0 <= a < b < s.len() ==> (#[trigger] s[a]).3 >= (#[trigger] s[b]).3
}

proof fn lemma_insert_desc_at(s: Seq<(Seq<char>, int, int, int)>, x: (Seq<char>, int, int, int), pos: int)
    requires
        0 <= pos <= s.len(),
        forall|m: int| 0 <= m < pos ==> (#[trigger] s[m]).3 >= x.3,
        pos == s.len() || s[pos].3 < x.3,
    ensures
        insert_desc(s, x) == s.take(pos) + seq![x] + s.skip(pos),
    decreases pos,
{
    if pos == 0 {
        assert(s.take(0) =~= Seq::<(Seq<char>, int, int, int)>::empty());
        assert(s.skip(0) =~= s);
        if s.len() == 0 {
            assert(insert_desc(s, x) =~= s.take(0) + seq![x] + s.skip(0));
        } else {
            assert(s[0].3 < x.3);
            assert(insert_desc(s, x) =~= s.take(0) + seq![x] + s.skip(0));
        }
    } else {
        assert(s[0].3 >= x.3);
        let t = s.drop_first();
        assert(forall|m: int| 0 <= m < pos - 1 ==> (#[trigger] t[m]).3 >= x.3);
        assert(pos - 1 == t.len() || t[pos - 1].3 < x.3);
        lemma_insert_desc_at(t, x, pos - 1);
        assert(seq![s[0]] + (t.take(pos - 1) + seq![x] + t.skip(pos - 1)) =~= s.take(pos)
            + seq![x] + s.skip(pos));
    }
}

proof fn lemma_insert_desc_multiset(s: Seq<(Seq<char>, int, int, int)>, x: (Seq<char>, int, int, int))
    ensures
        insert_desc(s, x).to_multiset() =~= s.to_multiset().insert(x),
        insert_desc(s, x).len() == s.len() + 1,
    decreases s.len(),
{
    broadcast use group_to_multiset_ensures;

    if s.len() == 0 {
        assert(insert_desc(s, x) =~= Seq::<(Seq<char>, int, int, int)>::empty().push(x));
    } else if s[0].3 >= x.3 {
        lemma_insert_desc_multiset(s.drop_first(), x);
        let inner = insert_desc(s.drop_first(), x);
        assert(seq![s[0]] + inner =~= inner.insert(0, s[0]));
        assert((seq![s[0]] + inner).to_multiset() =~= inner.to_multiset().insert(s[0]));
        assert(s =~= s.drop_first().insert(0, s[0]));
        assert(s.to_multiset() =~= s.drop_first().to_multiset().insert(s[0]));
    } else {
        assert(seq![x] + s =~= s.insert(0, x));
        assert((seq![x] + s).to_multiset() =~= s.to_multiset().insert(x));
    }
}

proof fn lemma_sort_desc_multiset(s: Seq<(Seq<char>, int, int, int)>)
    ensures
        sort_desc(s).to_multiset() =~= s.to_multiset(),
        sort_desc(s).len() == s.len(),
    decreases s.len(),
{
    broadcast use group_to_multiset_ensures;

    if s.len() > 0 {
        lemma_sort_desc_multiset(s.drop_last());
        lemma_insert_desc_multiset(sort_desc(s.drop_last()), s.last());
        assert(s =~= s.drop_last().push(s.last()));
        assert(s.to_multiset() =~= s.drop_last().to_multiset().insert(s.last()));
    }
}

proof fn lemma_insert_desc_sorted(s: Seq<(Seq<char>, int, int, int)>, x: (Seq<char>, int, int, int))
    requires
        sorted_desc(s),
    ensures
        sorted_desc(insert_desc(s, x)),
    decreases s.len(),
{
    if s.len() == 0 {
    } else if s[0].3 >= x.3 {
        let t = s.drop_first();
        assert(sorted_desc(t));
        lemma_insert_desc_sorted(t, x);
        let inner = insert_desc(t, x);
        lemma_insert_desc_multiset(t, x);
        let out = seq![s[0]] + inner;
        assert forall|a: int, b: int| 0 <= a < b < out.len() implies (#[trigger] out[a]).3
            >= (#[trigger] out[b]).3 by {
            if a == 0 {
                // the head dominates the tail: every inserted element is
                // either x (with s[0].3 >= x.3) or an element of t
                broadcast use group_to_multiset_ensures;

                assert(inner.to_multiset().contains(out[b]));
                if out[b] != x {
                    assert(t.to_multiset().contains(out[b]));
                    let w = choose|w: int| 0 <= w < t.len() && t[w] == out[b];
                    assert(s[w + 1] == t[w]);
                }
            } else {
                assert(inner[a - 1].3 >= inner[b - 1].3);
            }
        }
    } else {
        let out = seq![x] + s;
        assert forall|a: int, b: int| 0 <= a < b < out.len() implies (#[trigger] out[a]).3
            >= (#[trigger] out[b]).3 by {
            if a == 0 {
                if b == 1 {
                    assert(out[b] == s[0]);
                } else {
                    assert(s[0].3 >= s[b - 1].3);
                }
            } else {
                assert(s[a - 1].3 >= s[b - 1].3);
            }
        }
    }
}

proof fn lemma_sort_desc_sorted(s: Seq<(Seq<char>, int, int, int)>)
    ensures
        sorted_desc(sort_desc(s)),
    decreases s.len(),
{
    if s.len() > 0 {
        lemma_sort_desc_sorted(s.drop_last());
        lemma_insert_desc_sorted(sort_desc(s.drop_last()), s.last());
    }
}

/// Every candidate comes from the end snapshot, carries that snapshot's
/// total, a start total looked up in the start snapshot (`0` under
/// `only_new`), and a diff that is exactly their difference.
pub proof fn lemma_candidate_shape(
    start: Seq<SnapshotEntry>,
    end: Seq<SnapshotEntry>,
    only_new: bool,
    g: (Seq<char>, int, int, int),
)
    requires
        candidate_growths(start, end, only_new).contains(g),
    ensures
        has_name(end, g.0),
        g.1 == start_total_of(start, g.0),
        g.3 == g.2 - g.1,
        only_new ==> g.1 == 0,
    decreases end.len(),
{
    let cs = candidate_growths(start, end, only_new);
    let rest = candidate_growths(start, end.drop_last(), only_new);
    if rest.contains(g) {
        lemma_candidate_shape(start, end.drop_last(), only_new, g);
        let w = choose|w: int|
            0 <= w < end.drop_last().len() && (#[trigger] end.drop_last()[w]).name@ == g.0;
        assert(end[w].name@ == g.0);
    } else {
        assert(g == growth_of(start, end.last()));
        assert(end[end.len() - 1].name@ == g.0);
    }
}

/// The machine limit on `rank`'s subtraction: every end entry's growth fits
/// `i64`.
pub open spec fn diffs_fit(start: Seq<SnapshotEntry>, end: Seq<SnapshotEntry>) -> bool {
    forall|j: int|
        0 <= j < end.len() ==> i64::MIN <= (#[trigger] end[j]).total - start_total_of(
            start,
            end[j].name@,
        ) <= i64::MAX
}

/// Looks up a gem's total in a snapshot, `0` when it is absent.
fn start_total_lookup(start: &Vec<SnapshotEntry>, name: &String) -> (t: i64)
    ensures
        t == start_total_of(start@, name@),
{
    let mut j: usize = 0;
    proof {
        assert(start@.skip(0) =~= start@);
    }
    while j < start.len()
        invariant
            0 <= j <= start@.len(),
            start_total_of(start@, name@) == start_total_of(start@.skip(j as int), name@),
        decreases start@.len() - j,
    {
        let e = &start[j];
        if e.name == *name {
            return e.total;
        }
        proof {
            assert(start@.skip(j as int).drop_first() =~= start@.skip(j as int + 1));
            assert(start@.skip(j as int)[0] == start@[j as int]);
        }
        j = j + 1;
    }
    proof {
        assert(start@.skip(j as int).len() == 0);
    }
    0
}

/// Ranks the end snapshot's gems by growth since the start snapshot.
///
/// Returns the first `count` of the candidates (all end-snapshot gems, or
/// with `only_new` only those starting from `0`), sorted by diff descending;
/// ties keep the end snapshot's entry order.  A gem absent from the end
/// snapshot is never reported.
#[verifier::loop_isolation(false)]
pub fn rank(
    start: &Vec<SnapshotEntry>,
    end: &Vec<SnapshotEntry>,
    count: usize,
    only_new: bool,
) -> (result: Vec<GrowthRecord>)
    requires
        count >= 1,
        diffs_fit(start@, end@),
    ensures
        ({
            let cands = candidate_growths(start@, end@, only_new);
            let n = if count <= cands.len() {
                count as int
            } else {
                cands.len() as int
            };
            growths_view(result@) == sort_desc(cands).take(n)
        }),
        result@.len() == (if count <= candidate_growths(start@, end@, only_new).len() {
            count as int
        } else {
            candidate_growths(start@, end@, only_new).len() as int
        }),
        forall|a: int, b: int|
            0 <= a < b < result@.len() ==> (#[trigger] result@[a]).diff >= (#[trigger] result@[b]).diff,
        forall|j: int| 0 <= j < result@.len() ==> has_name(end@, (#[trigger] result@[j]).name@),
        forall|j: int|
            0 <= j < result@.len() ==> (#[trigger] result@[j]).diff == result@[j].end_total
                - result@[j].start_total && result@[j].start_total == start_total_of(
                start@,
                result@[j].name@,
            ),
        only_new ==> forall|j: int| 0 <= j < result@.len() ==> (#[trigger] result@[j]).start_total == 0,
{
    let ghost gstart = start@;
    let ghost gend = end@;
    let mut cands: Vec<GrowthRecord> = Vec::new();
    let mut j: usize = 0;
    while j < end.len()
        invariant
            0 <= j <= gend.len(),
            growths_view(cands@) == candidate_growths(gstart, gend.take(j as int), only_new),
        decreases gend.len() - j,
    {
        let e = &end[j];
        let st = start_total_lookup(start, &e.name);
        let ghost prev = cands@;
        if !only_new || st == 0 {
            let diff = e.total - st;
            cands.push(
                GrowthRecord { name: e.name.clone(), start_total: st, end_total: e.total, diff },
            );
            proof {
                assert(growths_view(cands@) =~= growths_view(prev).push(
                    growth_of(gstart, gend[j as int]),
                ));
            }
        }
        proof {
            assert(gend.take(j as int + 1).drop_last() =~= gend.take(j as int));
            assert(gend.take(j as int + 1).last() == gend[j as int]);
        }
        j = j + 1;
    }
    proof {
        assert(gend.take(gend.len() as int) =~= gend);
    }
    let ghost cview = candidate_growths(gstart, gend, only_new);
    // stable insertion sort by diff descending
    let mut sorted: Vec<GrowthRecord> = Vec::new();
    let ghost corig = cands@;
    let ghost mut taken: int = 0;
    while cands.len() > 0
        invariant
            0 <= taken <= corig.len(),
            cands@ =~= corig.skip(taken),
            growths_view(sorted@) == sort_desc(growths_view(corig.take(taken))),
        decreases cands@.len(),
    {
        let x = cands.remove(0);
        proof {
            assert(taken < corig.len());
            assert(corig.skip(taken).drop_first() =~= corig.skip(taken + 1));
            assert(corig.skip(taken)[0] == corig[taken]);
        }
        let mut pos: usize = 0;
        let ghost sprev = sorted@;
        while pos < sorted.len() && sorted[pos].diff >= x.diff
            invariant
                0 <= pos <= sorted@.len(),
                sorted@ == sprev,
                forall|m: int| 0 <= m < pos ==> (#[trigger] sorted@[m]).diff >= x.diff,
            decreases sorted@.len() - pos,
        {
            pos = pos + 1;
        }
        sorted.insert(pos, x);
        proof {
            assert forall|m: int| 0 <= m < pos implies (#[trigger] growths_view(sprev)[m]).3
                >= growth_view(x).3 by {
                assert(sprev[m].diff >= x.diff);
            }
            if (pos as int) < sprev.len() {
                assert(growths_view(sprev)[pos as int].3 < growth_view(x).3);
            }
            lemma_insert_desc_at(growths_view(sprev), growth_view(x), pos as int);
            assert(growths_view(sorted@) =~= growths_view(sprev).take(pos as int) + seq![
                growth_view(x),
            ] + growths_view(sprev).skip(pos as int));
            assert(corig.take(taken + 1).drop_last() =~= corig.take(taken));
            assert(corig.take(taken + 1).last() == corig[taken]);
            assert(growths_view(corig.take(taken + 1)).drop_last() =~= growths_view(
                corig.take(taken),
            ));
            assert(growths_view(corig.take(taken + 1)).last() == growth_view(
                corig[taken],
            ));
            assert(sort_desc(growths_view(corig.take(taken + 1))) == insert_desc(
                sort_desc(growths_view(corig.take(taken))),
                growth_view(corig[taken]),
            ));
        }
        proof {
            taken = taken + 1;
        }
    }
    proof {
        assert(corig.take(taken) =~= corig);
        assert(growths_view(sorted@) == sort_desc(cview));
        lemma_sort_desc_sorted(cview);
        lemma_sort_desc_multiset(cview);
    }
    let mut result = sorted;
    result.truncate(count);
    proof {
        broadcast use group_to_multiset_ensures;

        let sv = sort_desc(cview);
        assert(growths_view(result@) =~= sv.take(
            if count <= cview.len() {
                count as int
            } else {
                cview.len() as int
            },
        ));
        assert forall|jj: int| 0 <= jj < result@.len() implies cview.contains(
            growth_view(result@[jj]),
        ) by {
            assert(growth_view(result@[jj]) == growths_view(result@)[jj]);
            assert(sv[jj] == growth_view(result@[jj]));
            assert(sv.contains(growth_view(result@[jj])));
            assert(sv.to_multiset().contains(growth_view(result@[jj])));
        }
        assert forall|jj: int| 0 <= jj < result@.len() implies has_name(
            gend,
            (#[trigger] result@[jj]).name@,
        ) && result@[jj].diff == result@[jj].end_total - result@[jj].start_total
            && result@[jj].start_total == start_total_of(gstart, result@[jj].name@) && (only_new
            ==> result@[jj].start_total == 0) by {
            lemma_candidate_shape(gstart, gend, only_new, growth_view(result@[jj]));
        }
        assert forall|a: int, b: int| 0 <= a < b < result@.len() implies (#[trigger] result@[a]).diff
            >= (#[trigger] result@[b]).diff by {
            assert(sv[a] == growth_view(result@[a]));
            assert(sv[b] == growth_view(result@[b]));
        }
    }
    result
}

} // verus!
