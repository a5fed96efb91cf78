use vstd::prelude::*;
use crate::ranking::{
    label_less, lemma_label_lt_irreflexive, lemma_ranks_before_asymmetric, lemma_ranks_before_total,
    lemma_ranks_before_transitive, ranks_before,
};
use crate::record::CrimeRecord;
use crate::tally::{
    counts_exactly, has_key, keys_distinct, lemma_count_for_at, lemma_entry_le_sum, lemma_occurrences_absent,
    lemma_occurrences_push, lemma_sum_bump, lemma_sum_push, lemma_tallies_exact, occurrences, sum_counts,
    tallies, count_for,
};

verus! {

/// A count per label: each label that occurs at least once, with how often.
pub struct CategoryCount {
    entries: Vec<(String, usize)>,
}

/// A labelled count, as a character sequence and a count.
pub open spec fn entry_view(e: (String, usize)) -> (Seq<char>, nat) {
    (e.0@, e.1 as nat)
}

impl View for CategoryCount {
    type V = Seq<(Seq<char>, nat)>;

    closed spec fn view(&self) -> Seq<(Seq<char>, nat)> {
        self.entries@.map_values(|e: (String, usize)| entry_view(e))
    }
}

impl CategoryCount {
    /// Labels are unique and every count is positive.
    pub open spec fn wf(&self) -> bool {
        &&& keys_distinct(self@)
        &&& forall|j: int| 0 <= j < self@.len() ==> #[trigger] self@[j].1 > 0
    }

    /// Adds one occurrence of `key`: bumps its entry, or appends one with
    /// count 1.
    fn add_one(&mut self, key: String)
        requires
            keys_distinct(old(self)@),
            sum_counts(old(self)@) < usize::MAX,
        ensures
            keys_distinct(final(self)@),
            has_key(old(self)@, key@) ==> exists|j: int|
                0 <= j < old(self)@.len() && old(self)@[j].0 == key@
                && final(self)@ == old(self)@.update(j, (key@, old(self)@[j].1 + 1)),
            !has_key(old(self)@, key@) ==> final(self)@ == old(self)@.push((key@, 1nat)),
    {
        let mut j: usize = 0;
        while j < self.entries.len()
            invariant
                j <= self@.len(),
                self@ == old(self)@,
                keys_distinct(old(self)@),
                sum_counts(old(self)@) < usize::MAX,
                forall|t: int| 0 <= t < j ==> self@[t].0 != key@,
            decreases self.entries.len() - j,
        {
            assert(self@[j as int] == entry_view(self.entries@[j as int]));
            if self.entries[j].0 == key {
                let c = self.entries[j].1;
                proof {
                    lemma_entry_le_sum(self@, j as int);
                    assert(c as nat == self@[j as int].1);
                }
                let ghost before = self@;
                self.entries[j] = (key, c + 1);
                proof {
                    assert(self@ =~= before.update(j as int, (before[j as int].0, before[j as int].1 + 1)));
                    assert forall|a: int| 0 <= a < self@.len() implies #[trigger] self@[a].0 == before[a].0 by {}
                }
                return;
            }
            j = j + 1;
        }
        let ghost before = self@;
        let ghost kv = key@;
        self.entries.push((key, 1));
        proof {
            assert(self@ =~= before.push((kv, 1nat)));
        }
    }

    /// The number of distinct labels.
    pub fn len(&self) -> (n: usize)
        ensures
            n == self@.len(),
    {
        self.entries.len()
    }

    /// How many times `key` was counted; 0 for a label never seen.
    pub fn count(&self, key: &str) -> (c: usize)
        requires
            self.wf(),
        ensures
            c == count_for(self@, key@),
    {
        let wanted = String::from_str(key);
        let mut j: usize = 0;
        while j < self.entries.len()
            invariant
                j <= self@.len(),
                wanted@ == key@,
                self.wf(),
                forall|t: int| 0 <= t < j ==> self@[t].0 != key@,
            decreases self.entries.len() - j,
        {
            assert(self@[j as int] == entry_view(self.entries@[j as int]));
            if self.entries[j].0 == wanted {
                proof {
                    lemma_count_for_at(self@, j as int);
                }
                return self.entries[j].1;
            }
            j = j + 1;
        }
        0
    }

    /// The label and count of entry `i`.
    pub fn entry(&self, i: usize) -> (e: (String, usize))
        requires
            i < self@.len(),
        ensures
            entry_view(e) == self@[i as int],
    {
        (self.entries[i].0.clone(), self.entries[i].1)
    }
}

/// The keys that a selector gave, as character sequences.
pub open spec fn key_views(keys: Seq<String>) -> Seq<Seq<char>> {
    keys.map_values(|s: String| s@)
}

/// Counts the records by the label that `key_selector` gives each one.
/// Every record is counted once, so the counts sum to the number of records.
pub fn aggregate_counts<F: Fn(&CrimeRecord) -> String>(records: &Vec<CrimeRecord>, key_selector: F) -> (r: CategoryCount)
    requires
        forall|i: int| 0 <= i < records.len() ==> key_selector.requires((&records@[i],)),
    ensures
        r.wf(),
        sum_counts(r@) == records.len(),
        exists|keys: Seq<String>| {
            &&& keys.len() == records.len()
            &&& forall|i: int| 0 <= i < records.len() ==> key_selector.ensures((&records@[i],), #[trigger] keys[i])
            &&& counts_exactly(r@, key_views(keys))
        },
{
    let mut out = CategoryCount { entries: Vec::new() };
    let ghost mut keys: Seq<String> = Seq::empty();
    let mut i: usize = 0;
    proof {
        assert(key_views(keys) =~= Seq::<Seq<char>>::empty());
    }
    while i < records.len()
        invariant
            i <= records.len(),
            keys.len() == i,
            forall|t: int| 0 <= t < records.len() ==> key_selector.requires((&records@[t],)),
            forall|t: int| 0 <= t < i ==> key_selector.ensures((&records@[t],), #[trigger] keys[t]),
            tallies(out@, key_views(keys)),
        decreases records.len() - i,
    {
        let k = key_selector(&records[i]);
        let ghost old_m = out@;
        let ghost old_ks = key_views(keys);
        let ghost kv = k@;
        proof {
            keys = keys.push(k);
            assert(key_views(keys) =~= old_ks.push(kv));
        }
        out.add_one(k);
        proof {
            let ks = key_views(keys);
            let m = out@;
            assert forall|k2: Seq<char>| true implies occurrences(ks, k2) == occurrences(old_ks, k2)
                + if kv == k2 { 1nat } else { 0nat } by {
                lemma_occurrences_push(old_ks, kv, k2);
            }
            if has_key(old_m, kv) {
                let j = choose|j: int|
                    0 <= j < old_m.len() && old_m[j].0 == kv
                    && m == old_m.update(j, (kv, old_m[j].1 + 1));
                lemma_sum_bump(old_m, j);
                assert(old_m.update(j, (old_m[j].0, old_m[j].1 + 1)) == m);
                assert forall|t: int| 0 <= t < ks.len() implies has_key(m, #[trigger] ks[t]) by {
                    if t < ks.len() - 1 {
                        assert(old_ks[t] == ks[t]);
                        let w = choose|w: int| 0 <= w < old_m.len() && #[trigger] old_m[w].0 == ks[t];
                        assert(m[w].0 == ks[t]);
                    } else {
                        assert(m[j].0 == ks[t]);
                    }
                }
            } else {
                lemma_sum_push(old_m, (kv, 1nat));
                assert forall|t: int| 0 <= t < old_ks.len() implies old_ks[t] != kv by {
                    assert(has_key(old_m, old_ks[t]));
                }
                lemma_occurrences_absent(old_ks, kv);
                assert forall|t: int| 0 <= t < ks.len() implies has_key(m, #[trigger] ks[t]) by {
                    if t < ks.len() - 1 {
                        assert(old_ks[t] == ks[t]);
                        let w = choose|w: int| 0 <= w < old_m.len() && #[trigger] old_m[w].0 == ks[t];
                        assert(m[w].0 == ks[t]);
                    } else {
                        assert(m[old_m.len() as int].0 == ks[t]);
                    }
                }
            }
        }
        i = i + 1;
    }
    proof {
        lemma_tallies_exact(out@, key_views(keys));
    }
    out
}

/// A list of labelled counts, as character sequences and counts.
pub open spec fn entries_view(v: Seq<(String, usize)>) -> Seq<(Seq<char>, nat)> {
    v.map_values(|e: (String, usize)| entry_view(e))
}

/// Whether `r` lists, in rank order, the `k` entries of `m` that rank first
/// (all of them where `m` has fewer).
pub open spec fn is_top_k(m: Seq<(Seq<char>, nat)>, k: nat, r: Seq<(Seq<char>, nat)>) -> bool {
    &&& r.len() == if k < m.len() { k } else { m.len() }
    &&& forall|i: int| 0 <= i < r.len() ==> m.contains(#[trigger] r[i])
    &&& forall|i: int, j: int| 0 <= i < j < r.len() ==> ranks_before(#[trigger] r[i], #[trigger] r[j])
    &&& forall|j: int|
        0 <= j < m.len() ==> r.contains(#[trigger] m[j]) || forall|i: int|
            0 <= i < r.len() ==> ranks_before(#[trigger] r[i], m[j])
}

/// A top-K listing has `min(k, |m|)` entries, its counts never increase from
/// one entry to the next, and each of its labels is a label of `m`.
pub proof fn lemma_top_k_shape(m: Seq<(Seq<char>, nat)>, k: nat, r: Seq<(Seq<char>, nat)>)
    requires
        is_top_k(m, k, r),
    ensures
        r.len() == if k < m.len() { k } else { m.len() },
        forall|i: int, j: int| 0 <= i < j < r.len() ==> #[trigger] r[i].1 >= #[trigger] r[j].1,
        forall|i: int| 0 <= i < r.len() ==> has_key(m, #[trigger] r[i].0),
{
    assert forall|i: int, j: int| 0 <= i < j < r.len() implies #[trigger] r[i].1 >= #[trigger] r[j].1 by {
        assert(ranks_before(r[i], r[j]));
    }
    assert forall|i: int| 0 <= i < r.len() implies has_key(m, #[trigger] r[i].0) by {
        assert(m.contains(r[i]));
        let j = choose|j: int| 0 <= j < m.len() && m[j] == r[i];
        assert(m[j].0 == r[i].0);
    }
}

/// Two top-K listings of one table agree up to any index where they agree
/// below it.
proof fn lemma_top_k_agree_upto(
    m: Seq<(Seq<char>, nat)>,
    k: nat,
    r1: Seq<(Seq<char>, nat)>,
    r2: Seq<(Seq<char>, nat)>,
    i: int,
)
    requires
        keys_distinct(m),
        is_top_k(m, k, r1),
        is_top_k(m, k, r2),
        0 <= i < r1.len(),
    ensures
        forall|j: int| 0 <= j <= i ==> r1[j] == r2[j],
    decreases i,
{
    if i > 0 {
        lemma_top_k_agree_upto(m, k, r1, r2, i - 1);
    }
    let e1 = r1[i];
    let e2 = r2[i];
    if e1 != e2 {
        assert(m.contains(e1));
        assert(m.contains(e2));
        let w1 = choose|w: int| 0 <= w < m.len() && m[w] == e1;
        let w2 = choose|w: int| 0 <= w < m.len() && m[w] == e2;
        assert(e1.0 != e2.0);
        lemma_ranks_before_total(e1, e2);
        lemma_label_lt_irreflexive(e1.0);
        lemma_label_lt_irreflexive(e2.0);
        if ranks_before(e1, e2) {
            lemma_ranks_before_asymmetric(e1, e2);
            assert(r2.contains(m[w1]) || ranks_before(r2[i], m[w1]));
            let a = choose|a: int| 0 <= a < r2.len() && r2[a] == e1;
            if a < i {
                assert(r1[a] == e1);
                assert(ranks_before(r1[a], r1[i]));
            } else {
                assert(ranks_before(r2[i], r2[a]));
            }
        } else {
            lemma_ranks_before_asymmetric(e2, e1);
            assert(r1.contains(m[w2]) || ranks_before(r1[i], m[w2]));
            let a = choose|a: int| 0 <= a < r1.len() && r1[a] == e2;
            if a < i {
                assert(r2[a] == e2);
                assert(ranks_before(r2[a], r2[i]));
            } else {
                assert(ranks_before(r1[i], r1[a]));
            }
        }
    }
}

/// A table has exactly one top-K listing for each `k`: the selection and
/// its order are determined by the table alone.
pub proof fn lemma_top_k_unique(m: Seq<(Seq<char>, nat)>, k: nat, r1: Seq<(Seq<char>, nat)>, r2: Seq<(Seq<char>, nat)>)
    requires
        keys_distinct(m),
        is_top_k(m, k, r1),
        is_top_k(m, k, r2),
    ensures
        r1 == r2,
{
    if r1.len() > 0 {
        lemma_top_k_agree_upto(m, k, r1, r2, r1.len() - 1);
    }
    assert(r1 =~= r2);
}

/// Whether entry `x` ranks before entry `y`.
fn ranks_before_exec(x: &(String, usize), y: &(String, usize)) -> (b: bool)
    ensures
        b == ranks_before(entry_view(*x), entry_view(*y)),
{
    x.1 > y.1 || (x.1 == y.1 && label_less(&x.0, &y.0))
}

/// The `k` labels with the highest counts, highest first; equal counts are
/// listed in label order. Fewer than `k` where the table has fewer labels.
pub fn top_k(counts: &CategoryCount, k: usize) -> (r: Vec<(String, usize)>)
    requires
        counts.wf(),
    ensures
        is_top_k(counts@, k as nat, entries_view(r@)),
{
    let n = counts.len();
    let mut sorted: Vec<(String, usize)> = Vec::new();
    let mut i: usize = 0;
    while i < n
        invariant
            n == counts@.len(),
            counts.wf(),
            i <= n,
            sorted.len() == i,
            forall|a: int, b: int|
                0 <= a < b < i ==> ranks_before(
                    #[trigger] entries_view(sorted@)[a],
                    #[trigger] entries_view(sorted@)[b],
                ),
            forall|a: int|
                0 <= a < i ==> exists|j: int| 0 <= j < i && counts@[j] == #[trigger] entries_view(sorted@)[a],
            forall|j: int| 0 <= j < i ==> entries_view(sorted@).contains(#[trigger] counts@[j]),
        decreases n - i,
    {
        let e = counts.entry(i);
        let ghost x = entry_view(e);
        let ghost s = entries_view(sorted@);
        let mut p: usize = 0;
        while p < sorted.len() && ranks_before_exec(&sorted[p], &e)
            invariant
                p <= sorted.len(),
                s == entries_view(sorted@),
                x == entry_view(e),
                forall|a: int| 0 <= a < p ==> ranks_before(#[trigger] s[a], x),
            decreases sorted.len() - p,
        {
            p = p + 1;
        }
        proof {
            assert(x == counts@[i as int]);
            if p < s.len() {
                assert(!ranks_before(s[p as int], x));
                let j = choose|j: int| 0 <= j < i && counts@[j] == #[trigger] s[p as int];
                assert(counts@[j].0 != counts@[i as int].0);
                lemma_ranks_before_total(x, s[p as int]);
            }
        }
        sorted.insert(p, e);
        proof {
            let s2 = entries_view(sorted@);
            assert(s2 =~= s.insert(p as int, x));
            assert forall|a: int, b: int| 0 <= a < b < i + 1 implies ranks_before(#[trigger] s2[a], #[trigger] s2[b]) by {
                if a == p && b > p && b - 1 > p {
                    lemma_ranks_before_transitive(x, s[p as int], s[b - 1]);
                }
            }
            assert forall|a: int| 0 <= a < i + 1 implies exists|j: int|
                0 <= j < i + 1 && counts@[j] == #[trigger] s2[a] by {
                if a < p {
                    let j = choose|j: int| 0 <= j < i && counts@[j] == #[trigger] s[a];
                    assert(counts@[j] == s2[a]);
                } else if a > p {
                    let j = choose|j: int| 0 <= j < i && counts@[j] == #[trigger] s[a - 1];
                    assert(counts@[j] == s2[a]);
                } else {
                    assert(counts@[i as int] == s2[a]);
                }
            }
            assert forall|j: int| 0 <= j < i + 1 implies s2.contains(#[trigger] counts@[j]) by {
                if j < i {
                    assert(s.contains(counts@[j]));
                    let a = choose|a: int| 0 <= a < s.len() && s[a] == counts@[j];
                    if a < p {
                        assert(s2[a] == counts@[j]);
                    } else {
                        assert(s2[a + 1] == counts@[j]);
                    }
                } else {
                    assert(s2[p as int] == counts@[j]);
                }
            }
        }
        i = i + 1;
    }
    let ghost full = entries_view(sorted@);
    let take = if k < n { k } else { n };
    sorted.truncate(take);
    proof {
        let r = entries_view(sorted@);
        assert(r =~= full.subrange(0, take as int));
        assert forall|t: int| 0 <= t < r.len() implies counts@.contains(#[trigger] r[t]) by {
            let j = choose|j: int| 0 <= j < n && counts@[j] == #[trigger] full[t];
            assert(counts@[j] == r[t]);
        }
        assert forall|j: int| 0 <= j < counts@.len() implies r.contains(#[trigger] counts@[j]) || forall|t: int|
            0 <= t < r.len() ==> ranks_before(#[trigger] r[t], counts@[j]) by {
            assert(full.contains(counts@[j]));
            let a = choose|a: int| 0 <= a < full.len() && full[a] == counts@[j];
            if a < take {
                assert(r[a] == counts@[j]);
            } else {
                assert forall|t: int| 0 <= t < r.len() implies ranks_before(#[trigger] r[t], counts@[j]) by {
                    assert(r[t] == full[t]);
                }
            }
        }
    }
    sorted
}

} // verus!
