//! The aggregation engine: per-domain visit totals and an hourly histogram,
//! accumulated record by record, with ranked and filterable read views.
use vstd::prelude::*;
use vstd::string::*;
use crate::domain::{contains_chars, contains_seq, normalize};
use crate::provider::{Visit, VisitRecord};

verus! {

broadcast use vstd::seq_lib::group_to_multiset_ensures;

/// Number of hour-of-day buckets in the histogram.
pub const HOURS: usize = 24;

/// A domain together with its total number of visits.
pub struct RankedEntry {
    pub domain: String,
    pub visits: u32,
}

/// Sum of the counts of the visits in `h` whose key is `d`.
pub open spec fn total_of(h: Seq<Visit>, d: Seq<char>) -> nat
    decreases h.len(),
{
    if h.len() == 0 {
        0
    } else {
        total_of(h.drop_last(), d) + if h.last().key == d {
            h.last().count
        } else {
            0
        }
    }
}

/// Sum of the counts of the visits in `h` that fall in hour `hour`.
pub open spec fn hour_total(h: Seq<Visit>, hour: nat) -> nat
    decreases h.len(),
{
    if h.len() == 0 {
        0
    } else {
        hour_total(h.drop_last(), hour) + if h.last().hour == hour {
            h.last().count
        } else {
            0
        }
    }
}

/// Some visit in `h` has key `d`.
pub open spec fn seen(h: Seq<Visit>, d: Seq<char>) -> bool {
    exists|i: int| 0 <= i < h.len() && h[i].key == d
}

/// Index of the first visit in `h` whose key is `d`; meaningful when `seen(h, d)`.
pub open spec fn first_seen(h: Seq<Visit>, d: Seq<char>) -> int
    decreases h.len(),
{
    if h.len() == 0 {
        0
    } else if seen(h.drop_last(), d) {
        first_seen(h.drop_last(), d)
    } else {
        h.len() - 1
    }
}

proof fn lemma_first_seen_bound(h: Seq<Visit>, d: Seq<char>)
    requires
        seen(h, d),
    ensures
        0 <= first_seen(h, d) < h.len(),
    decreases h.len(),
{
    if seen(h.drop_last(), d) {
        lemma_first_seen_bound(h.drop_last(), d);
    }
}

/// In a ranking of `h`, domain `a` comes before domain `b`: it has more
/// visits, or as many and was seen first.
pub open spec fn comes_before(h: Seq<Visit>, a: Seq<char>, b: Seq<char>) -> bool {
    total_of(h, a) > total_of(h, b) || (total_of(h, a) == total_of(h, b) && first_seen(h, a)
        < first_seen(h, b))
}

/// `d` passes `filter`: there is none, or `d` contains it.
pub open spec fn passes(d: Seq<char>, filter: Option<&str>) -> bool {
    match filter {
        None => true,
        Some(f) => contains_seq(d, f@),
    }
}

/// The largest `visits` in `s`, and never less than 1.
pub open spec fn max_visits_of(s: Seq<RankedEntry>) -> nat
    decreases s.len(),
{
    if s.len() == 0 {
        1
    } else {
        let m = max_visits_of(s.drop_last());
        if s.last().visits > m {
            s.last().visits as nat
        } else {
            m
        }
    }
}

/// The largest value in `s`, and never less than 1.
pub open spec fn max_count_of(s: Seq<u32>) -> nat
    decreases s.len(),
{
    if s.len() == 0 {
        1
    } else {
        let m = max_count_of(s.drop_last());
        if s.last() > m {
            s.last() as nat
        } else {
            m
        }
    }
}

proof fn lemma_push(h: Seq<Visit>, v: Visit)
    ensures
        forall|d: Seq<char>|
            #[trigger] total_of(h.push(v), d) == total_of(h, d) + if v.key == d {
                v.count
            } else {
                0
            },
        forall|hr: nat|
            #[trigger] hour_total(h.push(v), hr) == hour_total(h, hr) + if v.hour == hr {
                v.count
            } else {
                0
            },
        forall|d: Seq<char>| #[trigger] seen(h.push(v), d) == (seen(h, d) || v.key == d),
{
    assert(h.push(v).drop_last() =~= h);
    assert forall|d: Seq<char>| #[trigger] seen(h.push(v), d) == (seen(h, d) || v.key == d) by {
        if seen(h, d) {
            let i = choose|i: int| 0 <= i < h.len() && h[i].key == d;
            assert(h.push(v)[i] == h[i]);
        }
        if v.key == d {
            assert(h.push(v)[h.len() as int] == v);
        }
        if seen(h.push(v), d) {
            let i = choose|i: int| 0 <= i < h.push(v).len() && h.push(v)[i].key == d;
            if i < h.len() {
                assert(h[i] == h.push(v)[i]);
            }
        }
    }
}

proof fn lemma_unseen_total(h: Seq<Visit>, d: Seq<char>)
    requires
        !seen(h, d),
    ensures
        total_of(h, d) == 0,
    decreases h.len(),
{
    if h.len() > 0 {
        assert(h.last() == h[h.len() - 1]);
        assert forall|i: int| 0 <= i < h.drop_last().len() implies h.drop_last()[i].key != d by {
            assert(h.drop_last()[i] == h[i]);
        }
        lemma_unseen_total(h.drop_last(), d);
    }
}

/// Accumulated visit totals per domain and per hour of day.
pub struct Tracker {
    /// One entry per domain, in the order the domains were first seen.
    counts: Vec<RankedEntry>,
    /// Visit totals by hour of day; always `HOURS` long.
    hourly_activity: Vec<u32>,
    /// Every record ingested so far, as counted.
    history: Ghost<Seq<Visit>>,
}

impl Tracker {
    /// The records ingested so far, in order.
    pub closed spec fn history(&self) -> Seq<Visit> {
        self.history@
    }

    /// Total visits of domain `d` so far.
    pub open spec fn total(&self, d: Seq<char>) -> nat {
        total_of(self.history(), d)
    }

    /// The tracker's invariant: its entries and buckets are the totals of its
    /// history, one entry per domain seen, in first-seen order.
    pub closed spec fn wf(&self) -> bool {
        &&& self.hourly_activity@.len() == HOURS
        &&& forall|h: int|
            0 <= h < HOURS ==> #[trigger] self.hourly_activity@[h] == hour_total(
                self.history@,
                h as nat,
            )
        &&& forall|i: int|
            0 <= i < self.counts@.len() ==> #[trigger] self.counts@[i].visits == total_of(
                self.history@,
                self.counts@[i].domain@,
            ) && seen(self.history@, self.counts@[i].domain@)
        &&& forall|i: int, j: int|
            0 <= i < j < self.counts@.len() ==> first_seen(self.history@, #[trigger] self.counts@[i].domain@)
                < first_seen(self.history@, #[trigger] self.counts@[j].domain@)
        &&& forall|i: int, j: int|
            0 <= i < j < self.counts@.len() ==> #[trigger] self.counts@[i].domain@
                != #[trigger] self.counts@[j].domain@
        &&& forall|d: Seq<char>|
            #[trigger] seen(self.history@, d) ==> exists|i: int|
                0 <= i < self.counts@.len() && #[trigger] self.counts@[i].domain@ == d
    }

    /// An empty tracker: no domains, every hour at zero.
    pub fn new() -> (r: Tracker)
        ensures
            r.wf(),
            r.history() == Seq::<Visit>::empty(),
    {
        let mut hourly: Vec<u32> = Vec::new();
        let mut h: usize = 0;
        while h < HOURS
            invariant
                h <= HOURS,
                hourly@.len() == h,
                forall|k: int| 0 <= k < h ==> hourly@[k] == 0,
            decreases HOURS - h,
        {
            hourly.push(0);
            h = h + 1;
        }
        Tracker {
            counts: Vec::new(),
            hourly_activity: hourly,
            history: Ghost(Seq::empty()),
        }
    }

    /// The domain key of `url`.
    pub fn clean_domain(url: &str) -> (r: String)
        ensures
            r@ == crate::domain::domain_key(url@),
    {
        normalize(url)
    }

    /// Index of the entry for `domain`, or the number of entries when there is none.
    fn find_entry(&self, domain: &String) -> (i: usize)
        requires
            self.wf(),
        ensures
            i <= self.counts@.len(),
            i < self.counts@.len() ==> self.counts@[i as int].domain@ == domain@,
            i == self.counts@.len() ==> !seen(self.history@, domain@),
    {
        let n = self.counts.len();
        let mut i: usize = 0;
        while i < n && self.counts[i].domain != *domain
            invariant
                n == self.counts@.len(),
                i <= n,
                forall|k: int| 0 <= k < i ==> self.counts@[k].domain@ != domain@,
            decreases n - i,
        {
            i = i + 1;
        }
        proof {
            if i == n && seen(self.history@, domain@) {
                let j = choose|j: int| 0 <= j < self.counts@.len() && self.counts@[j].domain@ == domain@;
                assert(self.counts@[j].domain@ != domain@);
            }
        }
        i
    }

    /// Total visits of `domain` so far; 0 for a domain never seen.
    pub fn visits_of(&self, domain: &String) -> (r: u32)
        requires
            self.wf(),
        ensures
            r == self.total(domain@),
    {
        let i = self.find_entry(domain);
        if i < self.counts.len() {
            self.counts[i].visits
        } else {
            proof {
                lemma_unseen_total(self.history@, domain@);
            }
            0
        }
    }

    /// Counts `count` visits to the already normalized domain `key` during
    /// hour `hour`: adds them to the domain's total and, when `hour` is below
    /// 24, to that hour's bucket.
    pub fn add_visits(&mut self, key: String, count: u32, hour: usize)
        requires
            old(self).wf(),
            old(self).total(key@) + count <= u32::MAX,
            hour < HOURS ==> hour_total(old(self).history(), hour as nat) + count <= u32::MAX,
        ensures
            final(self).wf(),
            final(self).history() == old(self).history().push(
                Visit { key: key@, count: count as nat, hour: hour as nat },
            ),
            forall|d: Seq<char>|
                #[trigger] final(self).total(d) == old(self).total(d) + if d == key@ {
                    count as nat
                } else {
                    0
                },
            forall|hr: nat|
                #[trigger] hour_total(final(self).history(), hr) == hour_total(old(self).history(), hr)
                    + if hr == hour {
                    count as nat
                } else {
                    0
                },
    {
        let ghost h0 = self.history@;
        let ghost v = Visit { key: key@, count: count as nat, hour: hour as nat };
        proof {
            lemma_push(h0, v);
        }
        let n = self.counts.len();
        let i = self.find_entry(&key);
        proof {
            if i == n {
                lemma_unseen_total(h0, key@);
            }
        }
        let ghost domain = key@;
        if i < n {
            let visits = self.counts[i].visits + count;
            let d = self.counts[i].domain.clone();
            self.counts.set(i, RankedEntry { domain: d, visits });
        } else {
            self.counts.push(RankedEntry { domain: key, visits: count });
        }
        if hour < HOURS {
            let c = self.hourly_activity[hour] + count;
            self.hourly_activity.set(hour, c);
        }
        self.history = Ghost(h0.push(v));
        proof {
            let h1 = h0.push(v);
            assert forall|d: Seq<char>| #[trigger] seen(h1, d) implies exists|k: int|
                0 <= k < self.counts@.len() && #[trigger] self.counts@[k].domain@ == d by {
                if d != domain {
                    let k = choose|k: int|
                        0 <= k < old(self).counts@.len() && old(self).counts@[k].domain@ == d;
                    assert(self.counts@[k].domain@ == d);
                } else if i < n {
                    assert(self.counts@[i as int].domain@ == d);
                } else {
                    assert(self.counts@[n as int].domain@ == d);
                }
            }
            assert(self.hourly_activity@.len() == HOURS);
            assert(forall|hr: int|
                0 <= hr < HOURS ==> #[trigger] self.hourly_activity@[hr] == hour_total(h1, hr as nat));
            assert(h1.drop_last() =~= h0);
            assert forall|a: int, b: int| 0 <= a < b < self.counts@.len() implies first_seen(
                h1,
                #[trigger] self.counts@[a].domain@,
            ) < first_seen(h1, #[trigger] self.counts@[b].domain@) by {
                assert(old(self).counts@[a].visits == total_of(h0, old(self).counts@[a].domain@));
                assert(self.counts@[a].domain@ == old(self).counts@[a].domain@);
                assert(seen(h0, self.counts@[a].domain@));
                lemma_first_seen_bound(h0, self.counts@[a].domain@);
                if b < old(self).counts@.len() {
                    assert(old(self).counts@[b].visits == total_of(h0, old(self).counts@[b].domain@));
                    assert(self.counts@[b].domain@ == old(self).counts@[b].domain@);
                    assert(seen(h0, self.counts@[b].domain@));
                }
            }
            assert forall|k: int| 0 <= k < self.counts@.len() implies #[trigger] self.counts@[k].visits
                == total_of(h1, self.counts@[k].domain@) && seen(h1, self.counts@[k].domain@) by {
                if k < old(self).counts@.len() && k != i {
                    assert(old(self).counts@[k].visits == total_of(h0, old(self).counts@[k].domain@));
                    if i < n {
                        if k < i {
                            assert(old(self).counts@[k].domain@ != old(self).counts@[i as int].domain@);
                        } else {
                            assert(old(self).counts@[i as int].domain@ != old(self).counts@[k].domain@);
                        }
                    }
                    assert(old(self).counts@[k].domain@ != domain);
                    assert(self.counts@[k] == old(self).counts@[k]);
                    assert(old(self).counts@[k].visits == total_of(h0, self.counts@[k].domain@));
                } else if k == i && i < n {
                    assert(old(self).counts@[k].visits == total_of(h0, domain));
                }
            }
            assert(forall|a: int, b: int|
                0 <= a < b < self.counts@.len() ==> #[trigger] self.counts@[a].domain@
                    != #[trigger] self.counts@[b].domain@);
        }
    }

    /// Counts `record`: adds its count to its domain's total and, when its
    /// hour is below 24, to that hour's bucket.
    pub fn process_record(&mut self, record: VisitRecord)
        requires
            old(self).wf(),
            old(self).total(record@.key) + record.count <= u32::MAX,
            record.hour < HOURS ==> hour_total(old(self).history(), record.hour as nat)
                + record.count <= u32::MAX,
        ensures
            final(self).wf(),
            final(self).history() == old(self).history().push(record@),
            forall|d: Seq<char>|
                #[trigger] final(self).total(d) == old(self).total(d) + if d == record@.key {
                    record.count as nat
                } else {
                    0
                },
            forall|hr: nat|
                #[trigger] hour_total(final(self).history(), hr) == hour_total(old(self).history(), hr)
                    + if hr == record.hour {
                    record.count as nat
                } else {
                    0
                },
    {
        let domain = Self::clean_domain(record.url.as_str());
        self.add_visits(domain, record.count, record.hour);
    }

    /// Counts `record` when neither its domain's total nor its hour's bucket
    /// would overflow, and says whether it did; otherwise leaves the tracker
    /// unchanged.
    pub fn try_process_record(&mut self, record: VisitRecord) -> (ok: bool)
        requires
            old(self).wf(),
        ensures
            final(self).wf(),
            ok == (old(self).total(record@.key) + record.count <= u32::MAX && (record.hour < HOURS
                ==> hour_total(old(self).history(), record.hour as nat) + record.count
                <= u32::MAX)),
            ok ==> final(self).history() == old(self).history().push(record@),
            !ok ==> final(self).history() == old(self).history(),
            forall|d: Seq<char>|
                #[trigger] final(self).total(d) == old(self).total(d) + if ok && d == record@.key {
                    record.count as nat
                } else {
                    0
                },
            forall|hr: nat|
                #[trigger] hour_total(final(self).history(), hr) == hour_total(old(self).history(), hr)
                    + if ok && hr == record.hour {
                    record.count as nat
                } else {
                    0
                },
    {
        let domain = Self::clean_domain(record.url.as_str());
        let current = self.visits_of(&domain);
        if current > u32::MAX - record.count {
            return false;
        }
        if record.hour < HOURS && self.hourly_activity[record.hour] > u32::MAX - record.count {
            return false;
        }
        self.process_record(record);
        true
    }

    /// The domains that pass `filter`, most visited first, at most `limit` of
    /// them. A domain is left out only when `limit` entries were returned,
    /// each with at least as many visits as it has. Among equal totals the
    /// domain seen first comes first.
    pub fn rank(&self, limit: usize, filter: Option<&str>) -> (r: Vec<RankedEntry>)
        requires
            self.wf(),
        ensures
            r@.len() <= limit,
            forall|k: int|
                0 <= k < r@.len() ==> seen(self.history(), #[trigger] r@[k].domain@) && passes(
                    r@[k].domain@,
                    filter,
                ) && r@[k].visits == self.total(r@[k].domain@),
            forall|k: int, l: int|
                0 <= k < l < r@.len() ==> #[trigger] r@[k].domain@ != #[trigger] r@[l].domain@,
            forall|k: int, l: int|
                0 <= k < l < r@.len() ==> comes_before(
                    self.history(),
                    #[trigger] r@[k].domain@,
                    #[trigger] r@[l].domain@,
                ),
            forall|d: Seq<char>|
                #[trigger] seen(self.history(), d) && passes(d, filter) && !(exists|k: int|
                    0 <= k < r@.len() && #[trigger] r@[k].domain@ == d) ==> r@.len() == limit
                    && forall|k: int|
                    0 <= k < r@.len() ==> #[trigger] r@[k].visits >= self.total(d) && comes_before(
                        self.history(),
                        r@[k].domain@,
                        d,
                    ),
    {
        let n = self.counts.len();
        let mut ok: Vec<bool> = Vec::new();
        let mut taken: Vec<bool> = Vec::new();
        let mut j: usize = 0;
        while j < n
            invariant
                n == self.counts@.len(),
                j <= n,
                ok@.len() == j,
                taken@.len() == j,
                forall|k: int| 0 <= k < j ==> #[trigger] ok@[k] == passes(self.counts@[k].domain@, filter),
                forall|k: int| 0 <= k < j ==> !#[trigger] taken@[k],
            decreases n - j,
        {
            let pass = match filter {
                None => true,
                Some(f) => contains_chars(self.counts[j].domain.as_str(), f),
            };
            ok.push(pass);
            taken.push(false);
            j = j + 1;
        }
        let mut r: Vec<RankedEntry> = Vec::new();
        let ghost mut ix: Seq<int> = Seq::empty();
        let mut exhausted = false;
        while r.len() < limit && !exhausted
            invariant
                self.wf(),
                n == self.counts@.len(),
                ok@.len() == n,
                taken@.len() == n,
                forall|k: int| 0 <= k < n ==> #[trigger] ok@[k] == passes(self.counts@[k].domain@, filter),
                r@.len() <= limit,
                ix.len() == r@.len(),
                forall|t: int|
                    0 <= t < ix.len() ==> 0 <= #[trigger] ix[t] < n && taken@[ix[t]] && ok@[ix[t]]
                        && r@[t].domain@ == self.counts@[ix[t]].domain@ && r@[t].visits
                        == self.counts@[ix[t]].visits,
                forall|k: int| 0 <= k < n && #[trigger] taken@[k] ==> exists|t: int| 0 <= t < ix.len() && ix[t] == k,
                forall|t: int, u: int| 0 <= t < u < ix.len() ==> #[trigger] ix[t] != #[trigger] ix[u],
                forall|t: int, u: int|
                    0 <= t < u < r@.len() ==> #[trigger] r@[t].visits > #[trigger] r@[u].visits || (
                    r@[t].visits == r@[u].visits && ix[t] < ix[u]),
                forall|k: int, t: int|
                    0 <= k < n && ok@[k] && !taken@[k] && 0 <= t < r@.len() ==> #[trigger] r@[t].visits
                        > #[trigger] self.counts@[k].visits || (r@[t].visits == self.counts@[k].visits
                        && ix[t] < k),
                exhausted ==> forall|k: int| 0 <= k < n ==> !(ok@[k] && !#[trigger] taken@[k]),
            decreases limit - r@.len() + if exhausted { 0int } else { 1int },
        {
            let mut best: Option<usize> = None;
            let mut j: usize = 0;
            while j < n
                invariant
                    n == self.counts@.len(),
                    ok@.len() == n,
                    taken@.len() == n,
                    j <= n,
                    best is None ==> forall|k: int| 0 <= k < j ==> !(ok@[k] && !#[trigger] taken@[k]),
                    best matches Some(b) ==> b < j && ok@[b as int] && !taken@[b as int] && forall|k: int|
                        0 <= k < j && ok@[k] && !taken@[k] ==> #[trigger] self.counts@[k].visits
                            < self.counts@[b as int].visits || (self.counts@[k].visits
                            == self.counts@[b as int].visits && b <= k),
                decreases n - j,
            {
                if ok[j] && !taken[j] {
                    match best {
                        None => {
                            best = Some(j);
                        },
                        Some(b) => {
                            if self.counts[j].visits > self.counts[b].visits {
                                best = Some(j);
                            }
                        },
                    }
                }
                j = j + 1;
            }
            match best {
                None => {
                    exhausted = true;
                },
                Some(b) => {
                    proof {
                        assert forall|t: int| 0 <= t < ix.len() implies ix[t] != b by {
                            assert(taken@[ix[t]]);
                        }
                    }
                    taken.set(b, true);
                    r.push(
                        RankedEntry {
                            domain: self.counts[b].domain.clone(),
                            visits: self.counts[b].visits,
                        },
                    );
                    proof {
                        let ix0 = ix;
                        ix = ix.push(b as int);
                        assert forall|k: int| 0 <= k < n && #[trigger] taken@[k] implies exists|t: int|
                            0 <= t < ix.len() && ix[t] == k by {
                            if k == b {
                                assert(ix[ix0.len() as int] == k);
                            } else {
                                let t = choose|t: int| 0 <= t < ix0.len() && ix0[t] == k;
                                assert(ix[t] == k);
                            }
                        }
                    }
                },
            }
        }
        proof {
            let h = self.history@;
            assert forall|t: int, u: int| 0 <= t < u < r@.len() implies #[trigger] r@[t].domain@
                != #[trigger] r@[u].domain@ by {
                assert(ix[t] != ix[u]);
                if ix[t] < ix[u] {
                    assert(self.counts@[ix[t]].domain@ != self.counts@[ix[u]].domain@);
                } else {
                    assert(self.counts@[ix[u]].domain@ != self.counts@[ix[t]].domain@);
                }
            }
            assert forall|t: int| 0 <= t < r@.len() implies seen(h, #[trigger] r@[t].domain@)
                && passes(r@[t].domain@, filter) && r@[t].visits == total_of(h, r@[t].domain@) by {
                assert(ok@[ix[t]]);
                assert(self.counts@[ix[t]].visits == total_of(h, self.counts@[ix[t]].domain@));
            }
            assert forall|t: int, u: int| 0 <= t < u < r@.len() implies comes_before(
                h,
                #[trigger] r@[t].domain@,
                #[trigger] r@[u].domain@,
            ) by {
                assert(self.counts@[ix[t]].visits == total_of(h, self.counts@[ix[t]].domain@));
                assert(self.counts@[ix[u]].visits == total_of(h, self.counts@[ix[u]].domain@));
                if r@[t].visits == r@[u].visits {
                    assert(first_seen(h, self.counts@[ix[t]].domain@) < first_seen(h, self.counts@[ix[u]].domain@));
                }
            }
            assert forall|d: Seq<char>|
                #[trigger] seen(h, d) && passes(d, filter) && !(exists|k: int|
                    0 <= k < r@.len() && #[trigger] r@[k].domain@ == d) implies r@.len() == limit
                    && forall|k: int|
                    0 <= k < r@.len() ==> #[trigger] r@[k].visits >= total_of(h, d) && comes_before(
                        h,
                        r@[k].domain@,
                        d,
                    ) by {
                let i = choose|i: int| 0 <= i < self.counts@.len() && #[trigger] self.counts@[i].domain@ == d;
                assert(ok@[i]);
                assert(self.counts@[i].visits == total_of(h, d));
                if taken@[i] {
                    let t = choose|t: int| 0 <= t < ix.len() && ix[t] == i;
                    assert(r@[t].domain@ == d);
                }
                assert(!taken@[i]);
                assert forall|k: int| 0 <= k < r@.len() implies #[trigger] r@[k].visits >= total_of(h, d)
                    && comes_before(h, r@[k].domain@, d) by {
                    assert(self.counts@[ix[k]].visits == total_of(h, self.counts@[ix[k]].domain@));
                    if r@[k].visits == self.counts@[i].visits {
                        assert(ix[k] < i);
                        assert(first_seen(h, self.counts@[ix[k]].domain@) < first_seen(h, self.counts@[i].domain@));
                    }
                }
            }
        }
        r
    }

    /// The top `n` domains with no filter, as the report's chart shows them.
    pub fn top_for_render(&self, n: usize) -> (r: Vec<RankedEntry>)
        requires
            self.wf(),
        ensures
            r@.len() <= n,
            forall|k: int|
                0 <= k < r@.len() ==> seen(self.history(), #[trigger] r@[k].domain@)
                    && r@[k].visits == self.total(r@[k].domain@),
            forall|k: int, l: int|
                0 <= k < l < r@.len() ==> #[trigger] r@[k].domain@ != #[trigger] r@[l].domain@,
            forall|k: int, l: int|
                0 <= k < l < r@.len() ==> comes_before(
                    self.history(),
                    #[trigger] r@[k].domain@,
                    #[trigger] r@[l].domain@,
                ),
            forall|d: Seq<char>|
                #[trigger] seen(self.history(), d) && !(exists|k: int|
                    0 <= k < r@.len() && #[trigger] r@[k].domain@ == d) ==> r@.len() == n
                    && forall|k: int|
                    0 <= k < r@.len() ==> #[trigger] r@[k].visits >= self.total(d) && comes_before(
                        self.history(),
                        r@[k].domain@,
                        d,
                    ),
    {
        self.rank(n, None)
    }

    /// A copy of the hourly histogram: bucket `h` holds the visits of hour `h`.
    pub fn hourly_histogram(&self) -> (r: Vec<u32>)
        requires
            self.wf(),
        ensures
            r@.len() == HOURS,
            forall|h: int| 0 <= h < HOURS ==> #[trigger] r@[h] == hour_total(self.history(), h as nat),
    {
        let mut r: Vec<u32> = Vec::new();
        let mut h: usize = 0;
        while h < HOURS
            invariant
                self.wf(),
                h <= HOURS,
                r@.len() == h,
                forall|k: int| 0 <= k < h ==> #[trigger] r@[k] == hour_total(self.history@, k as nat),
            decreases HOURS - h,
        {
            r.push(self.hourly_activity[h]);
            h = h + 1;
        }
        r
    }
}

/// The largest `visits` among `ranked`, or 1 when that is 0 or `ranked` is
/// empty, so that bars can be scaled against it.
pub fn max_visits(ranked: &Vec<RankedEntry>) -> (r: u32)
    ensures
        r == max_visits_of(ranked@),
        r >= 1,
        forall|k: int| 0 <= k < ranked@.len() ==> #[trigger] ranked@[k].visits <= r,
        ranked@.len() == 0 ==> r == 1,
{
    let mut m: u32 = 1;
    let mut i: usize = 0;
    while i < ranked.len()
        invariant
            i <= ranked@.len(),
            m == max_visits_of(ranked@.subrange(0, i as int)),
            m >= 1,
            forall|k: int| 0 <= k < i ==> #[trigger] ranked@[k].visits <= m,
        decreases ranked@.len() - i,
    {
        assert(ranked@.subrange(0, i + 1).drop_last() =~= ranked@.subrange(0, i as int));
        if ranked[i].visits > m {
            m = ranked[i].visits;
        }
        i = i + 1;
    }
    assert(ranked@.subrange(0, ranked@.len() as int) =~= ranked@);
    m
}

/// The largest of `values`, or 1 when that is 0 or `values` is empty.
pub fn max_count(values: &Vec<u32>) -> (r: u32)
    ensures
        r == max_count_of(values@),
        r >= 1,
        forall|k: int| 0 <= k < values@.len() ==> #[trigger] values@[k] <= r,
        values@.len() == 0 ==> r == 1,
{
    let mut m: u32 = 1;
    let mut i: usize = 0;
    while i < values.len()
        invariant
            i <= values@.len(),
            m == max_count_of(values@.subrange(0, i as int)),
            m >= 1,
            forall|k: int| 0 <= k < i ==> #[trigger] values@[k] <= m,
        decreases values@.len() - i,
    {
        assert(values@.subrange(0, i + 1).drop_last() =~= values@.subrange(0, i as int));
        if values[i] > m {
            m = values[i];
        }
        i = i + 1;
    }
    assert(values@.subrange(0, values@.len() as int) =~= values@);
    m
}

/// Length of the bar drawn for `visits` when `max` gets a bar `width` long.
pub fn bar_length(visits: u32, max: u32, width: u32) -> (r: u64)
    requires
        max >= 1,
    ensures
        r == (visits as nat * width as nat) / max as nat,
{
    assert(visits as u64 * width as u64 <= 0xffff_ffff_ffff_ffffu64) by (nonlinear_arith)
        requires
            visits <= 0xffff_ffffu32,
            width <= 0xffff_ffffu32,
    ;
    let p = visits as u64 * width as u64;
    p / max as u64
}

} // verus!
