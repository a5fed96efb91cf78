use vstd::prelude::*;
use crate::counts::{entries_view, is_top_k, top_k, CategoryCount};
use crate::tally::keys_distinct;
use crate::dates::{date_lt, day_entries_view, day_entry_view, CalendarDate, DateCount};

verus! {

/// The largest count of a list, or 0 for an empty one.
pub open spec fn max_count_of<K>(s: Seq<(K, nat)>) -> nat
    decreases s.len(),
{
    if s.len() == 0 {
        0
    } else {
        let rest = max_count_of(s.drop_last());
        if s.last().1 > rest { s.last().1 } else { rest }
    }
}

/// What a bar chart draws: one bar per selected label, in order, and the top
/// of its count axis.
pub struct BarChartPlan {
    pub bars: Vec<(String, usize)>,
    pub max_count: usize,
}

/// What a time-series chart draws: its points in day order, the first and
/// last day of its time axis, and the top of its count axis.
pub struct TimeSeriesPlan {
    pub points: Vec<(CalendarDate, usize)>,
    pub first: CalendarDate,
    pub last: CalendarDate,
    pub max_count: usize,
}

fn largest_label_count(v: &Vec<(String, usize)>) -> (m: usize)
    ensures
        m == max_count_of(entries_view(v@)),
{
    let mut m: usize = 0;
    let mut i: usize = 0;
    while i < v.len()
        invariant
            i <= v.len(),
            m == max_count_of(entries_view(v@).subrange(0, i as int)),
        decreases v.len() - i,
    {
        proof {
            assert(entries_view(v@).subrange(0, i + 1).drop_last() =~= entries_view(v@).subrange(0, i as int));
        }
        if v[i].1 > m {
            m = v[i].1;
        }
        i = i + 1;
    }
    proof {
        assert(entries_view(v@).subrange(0, i as int) =~= entries_view(v@));
    }
    m
}

fn largest_day_count(v: &Vec<(CalendarDate, usize)>) -> (m: usize)
    ensures
        m == max_count_of(day_entries_view(v@)),
{
    let mut m: usize = 0;
    let mut i: usize = 0;
    while i < v.len()
        invariant
            i <= v.len(),
            m == max_count_of(day_entries_view(v@).subrange(0, i as int)),
        decreases v.len() - i,
    {
        proof {
            assert(day_entries_view(v@).subrange(0, i + 1).drop_last() =~= day_entries_view(v@).subrange(
                0,
                i as int,
            ));
        }
        if v[i].1 > m {
            m = v[i].1;
        }
        i = i + 1;
    }
    proof {
        assert(day_entries_view(v@).subrange(0, i as int) =~= day_entries_view(v@));
    }
    m
}

/// The plan of a bar chart of the `limit` most frequent labels.
pub fn bar_chart_plan(counts: &CategoryCount, limit: usize) -> (p: BarChartPlan)
    requires
        counts.wf(),
    ensures
        is_top_k(counts@, limit as nat, entries_view(p.bars@)),
        p.max_count == max_count_of(entries_view(p.bars@)),
{
    let bars = top_k(counts, limit);
    let max_count = largest_label_count(&bars);
    BarChartPlan { bars, max_count }
}

/// Whether `s` lists the same entries as `m`, by strictly increasing day.
pub open spec fn is_day_ordering(m: Seq<((int, int, int), nat)>, s: Seq<((int, int, int), nat)>) -> bool {
    &&& s.len() == m.len()
    &&& forall|a: int, b: int| 0 <= a < b < s.len() ==> date_lt(#[trigger] s[a].0, #[trigger] s[b].0)
    &&& forall|a: int| 0 <= a < s.len() ==> m.contains(#[trigger] s[a])
    &&& forall|j: int| 0 <= j < m.len() ==> s.contains(#[trigger] m[j])
}

/// Two day orderings of one table agree up to any index where they agree
/// below it.
proof fn lemma_day_ordering_agree_upto(
    m: Seq<((int, int, int), nat)>,
    s1: Seq<((int, int, int), nat)>,
    s2: Seq<((int, int, int), nat)>,
    i: int,
)
    requires
        keys_distinct(m),
        is_day_ordering(m, s1),
        is_day_ordering(m, s2),
        0 <= i < s1.len(),
    ensures
        forall|j: int| 0 <= j <= i ==> s1[j] == s2[j],
    decreases i,
{
    if i > 0 {
        lemma_day_ordering_agree_upto(m, s1, s2, i - 1);
    }
    let e1 = s1[i];
    let e2 = s2[i];
    if e1 != e2 {
        assert(m.contains(e1));
        assert(m.contains(e2));
        let w1 = choose|w: int| 0 <= w < m.len() && m[w] == e1;
        let w2 = choose|w: int| 0 <= w < m.len() && m[w] == e2;
        assert(s2.contains(m[w1]));
        assert(s1.contains(m[w2]));
        let a = choose|a: int| 0 <= a < s2.len() && s2[a] == e1;
        let b = choose|b: int| 0 <= b < s1.len() && s1[b] == e2;
        if a < i {
            assert(s1[a] == e1);
            assert(date_lt(s1[a].0, s1[i].0));
        } else if b < i {
            assert(s2[b] == e2);
            assert(date_lt(s2[b].0, s2[i].0));
        } else {
            assert(date_lt(s2[i].0, s2[a].0));
            assert(date_lt(s1[i].0, s1[b].0));
        }
    }
}

/// A day count has exactly one day ordering: the series drawn from it is
/// determined by the count alone.
pub proof fn lemma_day_ordering_unique(
    m: Seq<((int, int, int), nat)>,
    s1: Seq<((int, int, int), nat)>,
    s2: Seq<((int, int, int), nat)>,
)
    requires
        keys_distinct(m),
        is_day_ordering(m, s1),
        is_day_ordering(m, s2),
    ensures
        s1 == s2,
{
    if s1.len() > 0 {
        lemma_day_ordering_agree_upto(m, s1, s2, s1.len() - 1);
    }
    assert(s1 =~= s2);
}

/// The entries of a day count in day order.
pub fn by_day(counts: &DateCount) -> (r: Vec<(CalendarDate, usize)>)
    requires
        counts.wf(),
    ensures
        is_day_ordering(counts@, day_entries_view(r@)),
{
    let n = counts.len();
    let mut sorted: Vec<(CalendarDate, usize)> = Vec::new();
    let mut i: usize = 0;
    while i < n
        invariant
            n == counts@.len(),
            counts.wf(),
            i <= n,
            sorted.len() == i,
            forall|a: int, b: int|
                0 <= a < b < i ==> date_lt(
                    #[trigger] day_entries_view(sorted@)[a].0,
                    #[trigger] day_entries_view(sorted@)[b].0,
                ),
            forall|a: int|
                0 <= a < i ==> exists|j: int| 0 <= j < i && counts@[j] == #[trigger] day_entries_view(sorted@)[a],
            forall|j: int| 0 <= j < i ==> day_entries_view(sorted@).contains(#[trigger] counts@[j]),
        decreases n - i,
    {
        let e = counts.entry(i);
        let ghost x = day_entry_view(e);
        let ghost s = day_entries_view(sorted@);
        let mut p: usize = 0;
        while p < sorted.len() && sorted[p].0.is_before(&e.0)
            invariant
                p <= sorted.len(),
                s == day_entries_view(sorted@),
                x == day_entry_view(e),
                forall|a: int| 0 <= a < p ==> date_lt(#[trigger] s[a].0, x.0),
            decreases sorted.len() - p,
        {
            assert(s[p as int] == day_entry_view(sorted@[p as int]));
            p = p + 1;
        }
        proof {
            assert(x == counts@[i as int]);
            if p < s.len() {
                assert(s[p as int] == day_entry_view(sorted@[p as int]));
                let j = choose|j: int| 0 <= j < i && counts@[j] == #[trigger] s[p as int];
                assert(counts@[j].0 != counts@[i as int].0);
            }
        }
        sorted.insert(p, e);
        proof {
            let s2 = day_entries_view(sorted@);
            assert(s2 =~= s.insert(p as int, x));
            assert forall|a: int| 0 <= a < i + 1 implies exists|j: int|
                0 <= j < i + 1 && counts@[j] == #[trigger] s2[a] by {
                if a < p {
                    let j = choose|j: int| 0 <= j < i && counts@[j] == #[trigger] s[a];
                    assert(counts@[j] == s2[a]);
                } else if a > p {
                    let j = choose|j: int| 0 <= j < i && counts@[j] == #[trigger] s[a - 1];
                    assert(counts@[j] == s2[a]);
                } else {
                    assert(counts@[i as int] == s2[a]);
                }
            }
            assert forall|j: int| 0 <= j < i + 1 implies s2.contains(#[trigger] counts@[j]) by {
                if j < i {
                    assert(s.contains(counts@[j]));
                    let a = choose|a: int| 0 <= a < s.len() && s[a] == counts@[j];
                    if a < p {
                        assert(s2[a] == counts@[j]);
                    } else {
                        assert(s2[a + 1] == counts@[j]);
                    }
                } else {
                    assert(s2[p as int] == counts@[j]);
                }
            }
        }
        i = i + 1;
    }
    sorted
}

/// The plan of a time-series chart of a day count; an empty count gives an
/// empty series on a time axis from 1970-01-01 to 1970-01-01.
pub fn time_series_plan(counts: &DateCount) -> (p: TimeSeriesPlan)
    requires
        counts.wf(),
    ensures
        is_day_ordering(counts@, day_entries_view(p.points@)),
        p.points.len() == 0 ==> p.first@ == (1970int, 1int, 1int) && p.last@ == (1970int, 1int, 1int),
        p.points.len() > 0 ==> p.first == p.points[0].0 && p.last == p.points[p.points.len() - 1].0,
        p.max_count == max_count_of(day_entries_view(p.points@)),
{
    let points = by_day(counts);
    let max_count = largest_day_count(&points);
    let n = points.len();
    if n == 0 {
        TimeSeriesPlan { points, first: CalendarDate::epoch(), last: CalendarDate::epoch(), max_count }
    } else {
        let first = points[0].0;
        let last = points[n - 1].0;
        TimeSeriesPlan { points, first, last, max_count }
    }
}

} // verus!
