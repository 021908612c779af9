//! Properties of the aggregation that relate several records or calls.
use vstd::prelude::*;
use crate::provider::Visit;
use crate::tracker::{hour_total, total_of, Tracker, HOURS};

verus! {

broadcast use {vstd::seq_lib::group_to_multiset_ensures, vstd::multiset::group_multiset_axioms};

proof fn lemma_total_remove(s: Seq<Visit>, i: int, d: Seq<char>)
    requires
        0 <= i < s.len(),
    ensures
        total_of(s, d) == total_of(s.remove(i), d) + if s[i].key == d {
            s[i].count
        } else {
            0
        },
    decreases s.len(),
{
    if i == s.len() - 1 {
        assert(s.remove(i) =~= s.drop_last());
    } else {
        lemma_total_remove(s.drop_last(), i, d);
        assert(s.remove(i).drop_last() =~= s.drop_last().remove(i));
        assert(s.remove(i).last() == s.last());
    }
}

proof fn lemma_hour_remove(s: Seq<Visit>, i: int, hr: nat)
    requires
        0 <= i < s.len(),
    ensures
        hour_total(s, hr) == hour_total(s.remove(i), hr) + if s[i].hour == hr {
            s[i].count
        } else {
            0
        },
    decreases s.len(),
{
    if i == s.len() - 1 {
        assert(s.remove(i) =~= s.drop_last());
    } else {
        lemma_hour_remove(s.drop_last(), i, hr);
        assert(s.remove(i).drop_last() =~= s.drop_last().remove(i));
        assert(s.remove(i).last() == s.last());
    }
}

proof fn lemma_permutation(a: Seq<Visit>, b: Seq<Visit>, d: Seq<char>, hr: nat)
    requires
        a.to_multiset() == b.to_multiset(),
    ensures
        total_of(a, d) == total_of(b, d),
        hour_total(a, hr) == hour_total(b, hr),
    decreases a.len(),
{
    if a.len() == 0 {
        assert(b.len() == b.to_multiset().len());
    } else {
        let x = a.last();
        let a0 = a.drop_last();
        assert(a0.push(x) =~= a);
        assert(a.to_multiset().count(x) > 0);
        assert(b.contains(x));
        let i = choose|i: int| 0 <= i < b.len() && b[i] == x;
        let b0 = b.remove(i);
        assert(a0.to_multiset() =~= b0.to_multiset());
        lemma_permutation(a0, b0, d, hr);
        lemma_total_remove(b, i, d);
        lemma_hour_remove(b, i, hr);
    }
}

/// Accumulation does not depend on the order of the records, nor on how they
/// were split into batches: two trackers that ingested the same records, in
/// any order, hold the same total for every domain and the same histogram.
pub proof fn lemma_totals_order_free(t1: &Tracker, t2: &Tracker)
    requires
        t1.history().to_multiset() == t2.history().to_multiset(),
    ensures
        forall|d: Seq<char>| #[trigger] t1.total(d) == t2.total(d),
        forall|hr: nat| #[trigger] hour_total(t1.history(), hr) == hour_total(t2.history(), hr),
{
    assert forall|d: Seq<char>| #[trigger] t1.total(d) == t2.total(d) by {
        lemma_permutation(t1.history(), t2.history(), d, 0);
    }
    assert forall|hr: nat| #[trigger] hour_total(t1.history(), hr) == hour_total(t2.history(), hr) by {
        lemma_permutation(t1.history(), t2.history(), Seq::empty(), hr);
    }
}

/// Ingesting `a` and then `b` leaves the totals that ingesting `a + b` in one
/// run leaves: each domain's total is the sum of its totals over the parts.
pub proof fn lemma_totals_split(a: Seq<Visit>, b: Seq<Visit>, d: Seq<char>)
    ensures
        total_of(a + b, d) == total_of(a, d) + total_of(b, d),
    decreases b.len(),
{
    if b.len() == 0 {
        assert(a + b =~= a);
    } else {
        lemma_totals_split(a, b.drop_last(), d);
        assert((a + b).drop_last() =~= a + b.drop_last());
        assert((a + b).last() == b.last());
    }
}

/// A record whose hour is not below 24 adds nothing to any bucket of the
/// histogram.
pub proof fn lemma_out_of_range_hour(h: Seq<Visit>, v: Visit)
    requires
        v.hour >= HOURS,
    ensures
        forall|hr: nat| hr < HOURS ==> #[trigger] hour_total(h.push(v), hr) == hour_total(h, hr),
{
    assert(h.push(v).drop_last() =~= h);
}

} // verus!
