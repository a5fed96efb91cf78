use vstd::prelude::*;

verus! {

/// How many times `k` occurs in `ks`.
pub open spec fn occurrences<K>(ks: Seq<K>, k: K) -> nat
    decreases ks.len(),
{
    if ks.len() == 0 {
        0
    } else {
        occurrences(ks.drop_last(), k) + if ks.last() == k { 1nat } else { 0nat }
    }
}

/// No two entries of a count table share a key.
pub open spec fn keys_distinct<K>(m: Seq<(K, nat)>) -> bool {
    forall|i: int, j: int| 0 <= i < m.len() && 0 <= j < m.len() && i != j ==> m[i].0 != m[j].0
}

/// Whether some entry of the table has key `k`.
pub open spec fn has_key<K>(m: Seq<(K, nat)>, k: K) -> bool {
    exists|j: int| 0 <= j < m.len() && #[trigger] m[j].0 == k
}

/// The count that the table gives to `k`: 0 where no entry has that key.
pub open spec fn count_for<K>(m: Seq<(K, nat)>, k: K) -> nat {
    if has_key(m, k) {
        m[choose|j: int| 0 <= j < m.len() && #[trigger] m[j].0 == k].1
    } else {
        0
    }
}

/// The sum of all counts of a table.
pub open spec fn sum_counts<K>(m: Seq<(K, nat)>) -> nat
    decreases m.len(),
{
    if m.len() == 0 {
        0
    } else {
        sum_counts(m.drop_last()) + m.last().1
    }
}

/// A table that counts `ks` exactly: keys unique, each key's count its
/// number of occurrences, and no entry for a key that does not occur.
pub open spec fn counts_exactly<K>(m: Seq<(K, nat)>, ks: Seq<K>) -> bool {
    &&& keys_distinct(m)
    &&& forall|k: K| #[trigger] count_for(m, k) == occurrences(ks, k)
    &&& forall|j: int| 0 <= j < m.len() ==> #[trigger] m[j].1 > 0
}

/// The form in which counting loops keep their table.
pub open spec fn tallies<K>(m: Seq<(K, nat)>, ks: Seq<K>) -> bool {
    &&& keys_distinct(m)
    &&& forall|j: int| 0 <= j < m.len() ==> #[trigger] m[j].1 == occurrences(ks, m[j].0)
    &&& forall|j: int| 0 <= j < m.len() ==> #[trigger] m[j].1 > 0
    &&& forall|i: int| 0 <= i < ks.len() ==> has_key(m, #[trigger] ks[i])
    &&& sum_counts(m) == ks.len()
}

/// Appending `x` adds one occurrence of `x` and none of anything else.
pub proof fn lemma_occurrences_push<K>(ks: Seq<K>, x: K, k: K)
    ensures
        occurrences(ks.push(x), k) == occurrences(ks, k) + if x == k { 1nat } else { 0nat },
{
    assert(ks.push(x).drop_last() =~= ks);
}

/// A key that never occurs has no occurrences.
pub proof fn lemma_occurrences_absent<K>(ks: Seq<K>, k: K)
    requires
        forall|i: int| 0 <= i < ks.len() ==> ks[i] != k,
    ensures
        occurrences(ks, k) == 0,
    decreases ks.len(),
{
    if ks.len() > 0 {
        lemma_occurrences_absent(ks.drop_last(), k);
    }
}

/// With unique keys, the count of an entry's key is that entry's count.
pub proof fn lemma_count_for_at<K>(m: Seq<(K, nat)>, j: int)
    requires
        keys_distinct(m),
        0 <= j < m.len(),
    ensures
        count_for(m, m[j].0) == m[j].1,
{
    assert(has_key(m, m[j].0));
}

/// Appending an entry adds its count to the sum.
pub proof fn lemma_sum_push<K>(m: Seq<(K, nat)>, e: (K, nat))
    ensures
        sum_counts(m.push(e)) == sum_counts(m) + e.1,
{
    assert(m.push(e).drop_last() =~= m);
}

/// Raising one entry's count by one raises the sum by one.
pub proof fn lemma_sum_bump<K>(m: Seq<(K, nat)>, j: int)
    requires
        0 <= j < m.len(),
    ensures
        sum_counts(m.update(j, (m[j].0, m[j].1 + 1))) == sum_counts(m) + 1,
    decreases m.len(),
{
    let u = m.update(j, (m[j].0, m[j].1 + 1));
    if j == m.len() - 1 {
        assert(u.drop_last() =~= m.drop_last());
    } else {
        lemma_sum_bump(m.drop_last(), j);
        assert(u.drop_last() =~= m.drop_last().update(j, (m[j].0, m[j].1 + 1)));
    }
}

/// Each entry's count is at most the table's sum.
pub proof fn lemma_entry_le_sum<K>(m: Seq<(K, nat)>, j: int)
    requires
        0 <= j < m.len(),
    ensures
        m[j].1 <= sum_counts(m),
    decreases m.len(),
{
    if j < m.len() - 1 {
        lemma_entry_le_sum(m.drop_last(), j);
    }
}

/// The loop form of a table, kept for the occurrences `ks`, and the exact
/// form are one and the same where the loop has run to the end.
pub proof fn lemma_tallies_exact<K>(m: Seq<(K, nat)>, ks: Seq<K>)
    requires
        tallies(m, ks),
    ensures
        counts_exactly(m, ks),
{
    assert forall|k: K| #[trigger] count_for(m, k) == occurrences(ks, k) by {
        if has_key(m, k) {
            let j = choose|j: int| 0 <= j < m.len() && #[trigger] m[j].0 == k;
            lemma_count_for_at(m, j);
        } else {
            assert forall|i: int| 0 <= i < ks.len() implies ks[i] != k by {
                assert(has_key(m, ks[i]));
            }
            lemma_occurrences_absent(ks, k);
        }
    }
}

} // verus!
