use vstd::prelude::*;
use vstd::string::*;

verus! {

/// Lexicographic order on labels, character by character by code point; a
/// proper prefix comes first.
pub open spec fn label_lt(a: Seq<char>, b: Seq<char>) -> bool
    decreases a.len(),
{
    if b.len() == 0 {
        false
    } else if a.len() == 0 {
        true
    } else if a[0] != b[0] {
        (a[0] as int) < (b[0] as int)
    } else {
        label_lt(a.drop_first(), b.drop_first())
    }
}

/// The order of a top-K listing: higher count first, and among equal counts
/// the smaller label first.
pub open spec fn ranks_before(x: (Seq<char>, nat), y: (Seq<char>, nat)) -> bool {
    x.1 > y.1 || (x.1 == y.1 && label_lt(x.0, y.0))
}

/// No label comes before itself.
pub proof fn lemma_label_lt_irreflexive(a: Seq<char>)
    ensures
        !label_lt(a, a),
    decreases a.len(),
{
    if a.len() > 0 {
        lemma_label_lt_irreflexive(a.drop_first());
    }
}

/// Label order is transitive.
pub proof fn lemma_label_lt_transitive(a: Seq<char>, b: Seq<char>, c: Seq<char>)
    requires
        label_lt(a, b),
        label_lt(b, c),
    ensures
        label_lt(a, c),
    decreases a.len(),
{
    if a.len() > 0 && b.len() > 0 && c.len() > 0 && a[0] == b[0] && b[0] == c[0] {
        lemma_label_lt_transitive(a.drop_first(), b.drop_first(), c.drop_first());
    }
}

/// Of two different labels, one comes before the other.
pub proof fn lemma_label_lt_total(a: Seq<char>, b: Seq<char>)
    requires
        a != b,
    ensures
        label_lt(a, b) || label_lt(b, a),
    decreases a.len(),
{
    if a.len() > 0 && b.len() > 0 {
        if a[0] == b[0] {
            if a.drop_first() == b.drop_first() {
                assert(a.drop_first().len() == a.len() - 1);
                assert(b.drop_first().len() == b.len() - 1);
                assert(a =~= b) by {
                    assert forall|i: int| 0 <= i < a.len() implies a[i] == b[i] by {
                        if i > 0 {
                            assert(a[i] == a.drop_first()[i - 1]);
                            assert(b[i] == b.drop_first()[i - 1]);
                        }
                    }
                }
            }
            lemma_label_lt_total(a.drop_first(), b.drop_first());
        }
    } else if a.len() == 0 && b.len() == 0 {
        assert(a =~= b);
    }
}

/// Rank order is transitive.
pub proof fn lemma_ranks_before_transitive(x: (Seq<char>, nat), y: (Seq<char>, nat), z: (Seq<char>, nat))
    requires
        ranks_before(x, y),
        ranks_before(y, z),
    ensures
        ranks_before(x, z),
{
    if x.1 == y.1 && y.1 == z.1 {
        lemma_label_lt_transitive(x.0, y.0, z.0);
    }
}

/// No entry ranks before another that ranks before it.
pub proof fn lemma_ranks_before_asymmetric(x: (Seq<char>, nat), y: (Seq<char>, nat))
    requires
        ranks_before(x, y),
    ensures
        !ranks_before(y, x),
{
    if ranks_before(y, x) {
        if x.1 == y.1 {
            lemma_label_lt_transitive(x.0, y.0, x.0);
        }
        lemma_label_lt_irreflexive(x.0);
    }
}

/// Of two entries with different labels, one ranks before the other.
pub proof fn lemma_ranks_before_total(x: (Seq<char>, nat), y: (Seq<char>, nat))
    requires
        x.0 != y.0,
    ensures
        ranks_before(x, y) || ranks_before(y, x),
{
    lemma_label_lt_total(x.0, y.0);
}

/// Whether `a` comes before `b` in label order.
pub fn label_less(a: &String, b: &String) -> (r: bool)
    ensures
        r == label_lt(a@, b@),
{
    let sa = a.as_str();
    let sb = b.as_str();
    let na = sa.unicode_len();
    let nb = sb.unicode_len();
    let mut i: usize = 0;
    assert(a@.subrange(0, na as int) =~= a@);
    assert(b@.subrange(0, nb as int) =~= b@);
    while i < na && i < nb
        invariant
            na == a@.len(),
            nb == b@.len(),
            sa@ == a@,
            sb@ == b@,
            i <= na,
            i <= nb,
            label_lt(a@, b@) == label_lt(a@.subrange(i as int, na as int), b@.subrange(i as int, nb as int)),
        decreases na - i,
    {
        let ca = sa.get_char(i);
        let cb = sb.get_char(i);
        let ghost ra = a@.subrange(i as int, na as int);
        let ghost rb = b@.subrange(i as int, nb as int);
        assert(ra[0] == ca && rb[0] == cb);
        if ca != cb {
            return (ca as u32) < (cb as u32);
        }
        assert(ra.drop_first() =~= a@.subrange(i + 1, na as int));
        assert(rb.drop_first() =~= b@.subrange(i + 1, nb as int));
        i = i + 1;
    }
    i < nb
}

} // verus!
