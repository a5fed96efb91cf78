use chrono::Datelike;
use vstd::prelude::*;
use crate::record::{matching, CrimeRecord};
use crate::tally::{
    counts_exactly, has_key, keys_distinct, lemma_entry_le_sum, lemma_occurrences_absent, lemma_occurrences_push,
    lemma_sum_bump, lemma_sum_push, lemma_tallies_exact, occurrences, sum_counts, tallies,
};

verus! {

/// A day of the proleptic Gregorian calendar.
#[derive(Clone, Copy, Debug, PartialEq, Eq, Structural, Hash)]
pub struct CalendarDate {
    pub year: i32,
    pub month: u32,
    pub day: u32,
}

impl View for CalendarDate {
    type V = (int, int, int);

    open spec fn view(&self) -> (int, int, int) {
        (self.year as int, self.month as int, self.day as int)
    }
}

/// Gregorian leap years.
pub open spec fn is_leap_year(y: int) -> bool {
    (y % 4 == 0 && y % 100 != 0) || y % 400 == 0
}

/// The number of days of month `m` of year `y`.
pub open spec fn days_in_month(y: int, m: int) -> int {
    if m == 2 {
        if is_leap_year(y) { 29 } else { 28 }
    } else if m == 4 || m == 6 || m == 9 || m == 11 {
        30
    } else {
        31
    }
}

/// Whether (year, month, day) names a day of the calendar.
pub open spec fn is_valid_date(d: (int, int, int)) -> bool {
    1 <= d.1 <= 12 && 1 <= d.2 <= days_in_month(d.0, d.1)
}

/// Chronological order on days.
pub open spec fn date_lt(a: (int, int, int), b: (int, int, int)) -> bool {
    a.0 < b.0 || (a.0 == b.0 && (a.1 < b.1 || (a.1 == b.1 && a.2 < b.2)))
}

impl CalendarDate {
    /// 1970-01-01, the day an empty time axis starts and ends on.
    pub fn epoch() -> (d: CalendarDate)
        ensures
            d@ == (1970int, 1int, 1int),
    {
        CalendarDate { year: 1970, month: 1, day: 1 }
    }

    /// Whether `self` is an earlier day than `other`.
    pub fn is_before(&self, other: &CalendarDate) -> (b: bool)
        ensures
            b == date_lt(self@, other@),
    {
        self.year < other.year || (self.year == other.year && (self.month < other.month || (self.month
            == other.month && self.day < other.day)))
    }
}

/// The day that chrono's date parser reads from a text under a format, or
/// nothing where the text does not match.
pub uninterp spec fn parsed_date(text: Seq<char>, format: Seq<char>) -> Option<(int, int, int)>;

/// Relies on chrono's `NaiveDate::parse_from_str`: it reads the date that the
/// text gives under the format, or fails; a `NaiveDate` is always a valid day.
#[verifier::external_body]
fn parse_date(text: &str, format: &str) -> (r: Option<CalendarDate>)
    ensures
        r is Some <==> parsed_date(text@, format@) is Some,
        r is Some ==> parsed_date(text@, format@) == Some(r->0@),
        r is Some ==> is_valid_date(r->0@),
{
    match chrono::NaiveDate::parse_from_str(text, format) {
        Ok(d) => Some(CalendarDate { year: d.year(), month: d.month(), day: d.day() }),
        Err(_) => None,
    }
}

/// The timestamp format of the incident export: `MM/DD/YYYY hh:mm:ss AM|PM`.
pub open spec fn timestamp_format() -> Seq<char> {
    seq!['%', 'm', '/', '%', 'd', '/', '%', 'Y', ' ', '%', 'I', ':', '%', 'M', ':', '%', 'S', ' ', '%', 'p']
}

/// The day of a record's timestamp, if it parses.
pub open spec fn record_day(r: CrimeRecord) -> Option<(int, int, int)> {
    parsed_date(r.crime_date@, timestamp_format())
}

/// The days present in a sequence of parse results, in order.
pub open spec fn dated(ds: Seq<Option<(int, int, int)>>) -> Seq<(int, int, int)>
    decreases ds.len(),
{
    if ds.len() == 0 {
        Seq::empty()
    } else {
        let rest = dated(ds.drop_last());
        match ds.last() {
            Some(d) => rest.push(d),
            None => rest,
        }
    }
}

/// The days of the records whose timestamps parse, in order.
pub open spec fn record_days(records: Seq<CrimeRecord>) -> Seq<(int, int, int)> {
    dated(records.map_values(|r: CrimeRecord| record_day(r)))
}

/// A parse result, with the day as (year, month, day).
pub open spec fn option_date_view(d: Option<CalendarDate>) -> Option<(int, int, int)> {
    match d {
        Some(x) => Some(x@),
        None => None,
    }
}

/// The day of a record's timestamp, or `None` where it does not parse.
pub fn crime_day(r: &CrimeRecord) -> (d: Option<CalendarDate>)
    ensures
        option_date_view(d) == record_day(*r),
        d is Some ==> is_valid_date(d->0@),
{
    proof {
        reveal_strlit("%m/%d/%Y %I:%M:%S %p");
        assert("%m/%d/%Y %I:%M:%S %p"@ =~= timestamp_format());
    }
    parse_date(r.crime_date.as_str(), "%m/%d/%Y %I:%M:%S %p")
}

/// A count per calendar day: each day that occurs at least once, with how
/// often.
pub struct DateCount {
    entries: Vec<(CalendarDate, usize)>,
}

/// A day count entry, as (year, month, day) and a count.
pub open spec fn day_entry_view(e: (CalendarDate, usize)) -> ((int, int, int), nat) {
    (e.0@, e.1 as nat)
}

/// A list of day count entries, as (year, month, day) and counts.
pub open spec fn day_entries_view(v: Seq<(CalendarDate, usize)>) -> Seq<((int, int, int), nat)> {
    v.map_values(|e: (CalendarDate, usize)| day_entry_view(e))
}

impl View for DateCount {
    type V = Seq<((int, int, int), nat)>;

    closed spec fn view(&self) -> Seq<((int, int, int), nat)> {
        day_entries_view(self.entries@)
    }
}

impl DateCount {
    /// Days are unique and valid, and every count is positive.
    pub open spec fn wf(&self) -> bool {
        &&& keys_distinct(self@)
        &&& forall|j: int| 0 <= j < self@.len() ==> #[trigger] self@[j].1 > 0
        &&& forall|j: int| 0 <= j < self@.len() ==> is_valid_date(#[trigger] self@[j].0)
    }

    /// Adds one occurrence of day `key`: bumps its entry, or appends one
    /// with count 1.
    fn add_one(&mut self, key: CalendarDate)
        requires
            keys_distinct(old(self)@),
            sum_counts(old(self)@) < usize::MAX,
        ensures
            keys_distinct(final(self)@),
            has_key(old(self)@, key@) ==> exists|j: int|
                0 <= j < old(self)@.len() && old(self)@[j].0 == key@
                && final(self)@ == old(self)@.update(j, (key@, old(self)@[j].1 + 1)),
            !has_key(old(self)@, key@) ==> final(self)@ == old(self)@.push((key@, 1nat)),
    {
        let mut j: usize = 0;
        while j < self.entries.len()
            invariant
                j <= self@.len(),
                self@ == old(self)@,
                keys_distinct(old(self)@),
                sum_counts(old(self)@) < usize::MAX,
                forall|t: int| 0 <= t < j ==> self@[t].0 != key@,
            decreases self.entries.len() - j,
        {
            assert(self@[j as int] == day_entry_view(self.entries@[j as int]));
            if self.entries[j].0 == key {
                let c = self.entries[j].1;
                proof {
                    lemma_entry_le_sum(self@, j as int);
                    assert(c as nat == self@[j as int].1);
                }
                let ghost before = self@;
                self.entries[j] = (key, c + 1);
                proof {
                    assert(self@ =~= before.update(j as int, (before[j as int].0, before[j as int].1 + 1)));
                    assert forall|a: int| 0 <= a < self@.len() implies #[trigger] self@[a].0 == before[a].0 by {}
                }
                return;
            }
            j = j + 1;
        }
        let ghost before = self@;
        self.entries.push((key, 1));
        proof {
            assert(self@ =~= before.push((key@, 1nat)));
        }
    }

    /// The number of distinct days.
    pub fn len(&self) -> (n: usize)
        ensures
            n == self@.len(),
    {
        self.entries.len()
    }

    /// The day and count of entry `i`.
    pub fn entry(&self, i: usize) -> (e: (CalendarDate, usize))
        requires
            i < self@.len(),
        ensures
            day_entry_view(e) == self@[i as int],
    {
        self.entries[i]
    }
}

/// Counts the days present among parse results; a `None` is skipped.
pub fn count_dates(days: &Vec<Option<CalendarDate>>) -> (r: DateCount)
    requires
        forall|i: int| 0 <= i < days.len() && #[trigger] days[i] is Some ==> is_valid_date(days[i]->0@),
    ensures
        r.wf(),
        counts_exactly(r@, dated(days@.map_values(|d: Option<CalendarDate>| option_date_view(d)))),
        sum_counts(r@) == dated(days@.map_values(|d: Option<CalendarDate>| option_date_view(d))).len(),
{
    let ghost dv = days@.map_values(|d: Option<CalendarDate>| option_date_view(d));
    let mut out = DateCount { entries: Vec::new() };
    let mut i: usize = 0;
    proof {
        assert(dv.subrange(0, 0).len() == 0);
    }
    while i < days.len()
        invariant
            i <= days.len(),
            dv == days@.map_values(|d: Option<CalendarDate>| option_date_view(d)),
            forall|t: int| 0 <= t < days.len() && #[trigger] days[t] is Some ==> is_valid_date(days[t]->0@),
            tallies(out@, dated(dv.subrange(0, i as int))),
            forall|j: int| 0 <= j < out@.len() ==> is_valid_date(#[trigger] out@[j].0),
            dated(dv.subrange(0, i as int)).len() <= i,
        decreases days.len() - i,
    {
        let ghost old_ks = dated(dv.subrange(0, i as int));
        let ghost old_m = out@;
        proof {
            assert(dv.subrange(0, i + 1).drop_last() =~= dv.subrange(0, i as int));
        }
        match days[i] {
            None => {},
            Some(d) => {
                let ghost kv = d@;
                let ghost ks = old_ks.push(kv);
                assert(dated(dv.subrange(0, i + 1)) == ks);
                out.add_one(d);
                proof {
                    let m = out@;
                    assert forall|k2: (int, int, int)| true implies occurrences(ks, k2) == occurrences(old_ks, k2)
                        + if kv == k2 { 1nat } else { 0nat } by {
                        lemma_occurrences_push(old_ks, kv, k2);
                    }
                    if has_key(old_m, kv) {
                        let j = choose|j: int|
                            0 <= j < old_m.len() && old_m[j].0 == kv
                            && m == old_m.update(j, (kv, old_m[j].1 + 1));
                        lemma_sum_bump(old_m, j);
                        assert(old_m.update(j, (old_m[j].0, old_m[j].1 + 1)) == m);
                        assert forall|t: int| 0 <= t < ks.len() implies has_key(m, #[trigger] ks[t]) by {
                            if t < ks.len() - 1 {
                                assert(old_ks[t] == ks[t]);
                                let w = choose|w: int| 0 <= w < old_m.len() && #[trigger] old_m[w].0 == ks[t];
                                assert(m[w].0 == ks[t]);
                            } else {
                                assert(m[j].0 == ks[t]);
                            }
                        }
                    } else {
                        lemma_sum_push(old_m, (kv, 1nat));
                        assert forall|t: int| 0 <= t < old_ks.len() implies old_ks[t] != kv by {
                            assert(has_key(old_m, old_ks[t]));
                        }
                        lemma_occurrences_absent(old_ks, kv);
                        assert forall|t: int| 0 <= t < ks.len() implies has_key(m, #[trigger] ks[t]) by {
                            if t < ks.len() - 1 {
                                assert(old_ks[t] == ks[t]);
                                let w = choose|w: int| 0 <= w < old_m.len() && #[trigger] old_m[w].0 == ks[t];
                                assert(m[w].0 == ks[t]);
                            } else {
                                assert(m[old_m.len() as int].0 == ks[t]);
                            }
                        }
                    }
                }
            },
        }
        i = i + 1;
    }
    proof {
        assert(dv.subrange(0, i as int) =~= dv);
        lemma_tallies_exact(out@, dated(dv));
    }
    out
}

/// Counts the records by the day of their timestamps; a record whose
/// timestamp does not parse is skipped.
pub fn count_by_date(records: &Vec<CrimeRecord>) -> (r: DateCount)
    ensures
        r.wf(),
        counts_exactly(r@, record_days(records@)),
        sum_counts(r@) == record_days(records@).len(),
{
    let mut days: Vec<Option<CalendarDate>> = Vec::new();
    let mut i: usize = 0;
    while i < records.len()
        invariant
            i <= records.len(),
            days.len() == i,
            forall|t: int| 0 <= t < i ==> option_date_view(#[trigger] days@[t]) == record_day(records@[t]),
            forall|t: int| 0 <= t < i && #[trigger] days@[t] is Some ==> is_valid_date(days@[t]->0@),
        decreases records.len() - i,
    {
        let d = crime_day(&records[i]);
        days.push(d);
        i = i + 1;
    }
    proof {
        assert(days@.map_values(|d: Option<CalendarDate>| option_date_view(d)) =~= records@.map_values(
            |r: CrimeRecord| record_day(r),
        ));
    }
    count_dates(&days)
}

/// Dropping the failed parses keeps at most as many days, and all of them
/// exactly where every parse succeeded.
pub proof fn lemma_dated_len(ds: Seq<Option<(int, int, int)>>)
    ensures
        dated(ds).len() <= ds.len(),
        dated(ds).len() == ds.len() <==> forall|i: int| 0 <= i < ds.len() ==> #[trigger] ds[i] is Some,
    decreases ds.len(),
{
    if ds.len() > 0 {
        lemma_dated_len(ds.drop_last());
        if dated(ds).len() == ds.len() {
            assert forall|i: int| 0 <= i < ds.len() implies #[trigger] ds[i] is Some by {
                if i < ds.len() - 1 {
                    assert(ds.drop_last()[i] == ds[i]);
                }
            }
        } else {
            if forall|i: int| 0 <= i < ds.len() ==> #[trigger] ds[i] is Some {
                assert forall|i: int| 0 <= i < ds.len() - 1 implies #[trigger] ds.drop_last()[i] is Some by {
                    assert(ds[i] is Some);
                }
                assert(ds[ds.len() - 1] is Some);
            }
        }
    }
}

/// Counting the records of one category at one location by day counts at
/// most those records, and exactly those where every one's timestamp parses.
pub proof fn lemma_filtered_day_total(records: Seq<CrimeRecord>, crime: Seq<char>, location: Seq<char>)
    ensures
        record_days(matching(records, crime, location)).len() <= matching(records, crime, location).len(),
        record_days(matching(records, crime, location)).len() == matching(records, crime, location).len()
            <==> forall|i: int|
            0 <= i < matching(records, crime, location).len() ==> #[trigger] record_day(
                matching(records, crime, location)[i],
            ) is Some,
{
    let m = matching(records, crime, location);
    let ds = m.map_values(|r: CrimeRecord| record_day(r));
    lemma_dated_len(ds);
    assert forall|i: int| 0 <= i < m.len() implies #[trigger] ds[i] == record_day(m[i]) by {}
    if forall|i: int| 0 <= i < m.len() ==> #[trigger] record_day(m[i]) is Some {
        assert forall|i: int| 0 <= i < ds.len() implies #[trigger] ds[i] is Some by {
            assert(record_day(m[i]) is Some);
        }
    }
    if forall|i: int| 0 <= i < ds.len() ==> #[trigger] ds[i] is Some {
        assert forall|i: int| 0 <= i < m.len() implies #[trigger] record_day(m[i]) is Some by {
            assert(ds[i] is Some);
        }
    }
}

} // verus!
