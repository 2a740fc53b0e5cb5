//! Per-fingerprint running statistics of query times.
//!
//! The average is kept by a running recurrence that truncates at each step, so it
//! depends on the order of the updates. Updates are applied strictly in the order of
//! the input records; callers that work on records in parallel keep that order.
use vstd::prelude::*;
use crate::log_parser::{entries_view, LogEntry};
use crate::normalize::NormalizedLogEntry;

verus! {

/// The statistics of one fingerprint, as values.
pub struct Stats {
    pub count: int,
    pub total: int,
    pub avg: int,
    pub max: int,
}

/// The statistics after the first query time `t`.
pub open spec fn first_stats(t: int) -> Stats {
    Stats { count: 1, total: t, avg: t, max: t }
}

/// The statistics after one more query time `t`. The average follows the running
/// recurrence `(avg * count + t) / (count + 1)`, truncating at each step.
pub open spec fn updated(s: Stats, t: int) -> Stats {
    Stats {
        count: s.count + 1,
        total: s.total + t,
        avg: (s.avg * s.count + t) / (s.count + 1),
        max: if t > s.max {
            t
        } else {
            s.max
        },
    }
}

/// The statistics of a sequence of `(fingerprint, microseconds)` pairs, applied in order.
pub open spec fn aggregate_spec(items: Seq<(Seq<char>, int)>) -> Map<Seq<char>, Stats>
    decreases items.len(),
{
    if items.len() == 0 {
        Map::empty()
    } else {
        let m = aggregate_spec(items.drop_last());
        let (k, t) = items.last();
        if m.contains_key(k) {
            m.insert(k, updated(m[k], t))
        } else {
            m.insert(k, first_stats(t))
        }
    }
}

/// The aggregated statistics of one fingerprint; times are in microseconds.
#[derive(Clone, Debug)]
pub struct AggregateLogEntry {
    pub query: String,
    pub count: i64,
    pub total_query_time: i128,
    pub avg_query_time: i128,
    pub max_query_time: i128,
}

pub open spec fn stats_of(e: AggregateLogEntry) -> Stats {
    Stats {
        count: e.count as int,
        total: e.total_query_time as int,
        avg: e.avg_query_time as int,
        max: e.max_query_time as int,
    }
}

impl AggregateLogEntry {
    /// Counts at least one query, the average and the maximum are within the range of
    /// query times, and the average times the count does not exceed the total.
    pub open spec fn wf(&self) -> bool {
        &&& 1 <= self.count
        &&& 0 <= self.avg_query_time <= self.max_query_time <= i64::MAX
        &&& self.max_query_time <= self.total_query_time
        &&& self.avg_query_time * self.count <= self.total_query_time
        &&& self.total_query_time <= self.count * i64::MAX
    }

    /// The statistics of one query that ran for `query_time` microseconds.
    pub fn new(query: String, query_time: i128) -> (r: AggregateLogEntry)
        requires
            0 <= query_time <= i64::MAX,
        ensures
            r.query@ == query@,
            stats_of(r) == first_stats(query_time as int),
            r.wf(),
    {
        AggregateLogEntry {
            query,
            count: 1,
            total_query_time: query_time,
            avg_query_time: query_time,
            max_query_time: query_time,
        }
    }

    /// Adds one more query that ran for `query_time` microseconds.
    pub fn update_with(&mut self, query_time: i128)
        requires
            old(self).wf(),
            old(self).count < i64::MAX,
            0 <= query_time <= i64::MAX,
        ensures
            final(self).query == old(self).query,
            stats_of(*final(self)) == updated(stats_of(*old(self)), query_time as int),
            final(self).wf(),
    {
        let c = self.count as i128;
        let avg = self.avg_query_time;
        let max = self.max_query_time;
        let total = self.total_query_time;
        let big: i128 = 9_223_372_036_854_775_807;
        assert(avg * c <= big * big) by (nonlinear_arith)
            requires 0 <= avg <= big, 1 <= c <= big;
        assert(c * big + big <= big * big + big) by (nonlinear_arith)
            requires 1 <= c < big;
        let new_total = total + query_time;
        let new_max = if query_time > max {
            query_time
        } else {
            max
        };
        let new_avg = (avg * c + query_time) / (c + 1);
        proof {
            assert(avg * c + query_time <= (c + 1) * new_max) by (nonlinear_arith)
                requires avg <= new_max, query_time <= new_max, 0 <= avg, 1 <= c;
            assert(new_avg <= new_max) by (nonlinear_arith)
                requires new_avg == (avg * c + query_time) / (c + 1), avg * c + query_time <= (c
                    + 1) * new_max, 1 <= c;
            assert(new_avg * (c + 1) <= avg * c + query_time) by (nonlinear_arith)
                requires new_avg == (avg * c + query_time) / (c + 1), 1 <= c, 0 <= avg, 0
                    <= query_time;
            assert(0 <= new_avg) by (nonlinear_arith)
                requires new_avg == (avg * c + query_time) / (c + 1), 1 <= c, 0 <= avg, 0
                    <= query_time;
            assert(new_total <= (c + 1) * big) by (nonlinear_arith)
                requires new_total == total + query_time, total <= c * big, query_time <= big;
        }
        self.total_query_time = new_total;
        self.max_query_time = new_max;
        self.avg_query_time = new_avg;
        self.count = self.count + 1;
    }
}

pub open spec fn keys_unique(s: Seq<AggregateLogEntry>) -> bool {
    forall|i: int, j: int|
        0 <= i < s.len() && 0 <= j < s.len() && i != j ==> #[trigger] s[i].query@
            != #[trigger] s[j].query@
}

/// The statistics of each fingerprint in `s`.
pub open spec fn map_of(s: Seq<AggregateLogEntry>) -> Map<Seq<char>, Stats>
    decreases s.len(),
{
    if s.len() == 0 {
        Map::empty()
    } else {
        map_of(s.drop_last()).insert(s.last().query@, stats_of(s.last()))
    }
}

/// The number of queries counted in `s`.
pub open spec fn count_sum(s: Seq<AggregateLogEntry>) -> int
    decreases s.len(),
{
    if s.len() == 0 {
        0
    } else {
        count_sum(s.drop_last()) + s.last().count
    }
}

proof fn lemma_map_of_missing(s: Seq<AggregateLogEntry>, k: Seq<char>)
    requires
        forall|i: int| 0 <= i < s.len() ==> s[i].query@ != k,
    ensures
        !map_of(s).contains_key(k),
    decreases s.len(),
{
    if s.len() > 0 {
        lemma_map_of_missing(s.drop_last(), k);
    }
}

proof fn lemma_map_of_at(s: Seq<AggregateLogEntry>, i: int)
    requires
        keys_unique(s),
        0 <= i < s.len(),
    ensures
        map_of(s).contains_key(s[i].query@),
        map_of(s)[s[i].query@] == stats_of(s[i]),
    decreases s.len(),
{
    if i < s.len() - 1 {
        assert(keys_unique(s.drop_last()));
        lemma_map_of_at(s.drop_last(), i);
        assert(s[i].query@ != s[s.len() - 1].query@);
    }
}

proof fn lemma_map_of_update(s: Seq<AggregateLogEntry>, i: int, e: AggregateLogEntry)
    requires
        keys_unique(s),
        0 <= i < s.len(),
        e.query@ == s[i].query@,
    ensures
        map_of(s.update(i, e)) == map_of(s).insert(e.query@, stats_of(e)),
        count_sum(s.update(i, e)) == count_sum(s) - s[i].count + e.count,
    decreases s.len(),
{
    let t = s.update(i, e);
    if i == s.len() - 1 {
        assert(t.drop_last() =~= s.drop_last());
        assert(map_of(t) =~= map_of(s).insert(e.query@, stats_of(e)));
    } else {
        assert(keys_unique(s.drop_last()));
        lemma_map_of_update(s.drop_last(), i, e);
        assert(t.drop_last() =~= s.drop_last().update(i, e));
        assert(s[i].query@ != s.last().query@);
        assert(map_of(t) =~= map_of(s).insert(e.query@, stats_of(e)));
    }
}

proof fn lemma_count_le_sum(s: Seq<AggregateLogEntry>, i: int)
    requires
        0 <= i < s.len(),
        forall|j: int| 0 <= j < s.len() ==> #[trigger] s[j].count >= 0,
    ensures
        s[i].count <= count_sum(s),
    decreases s.len(),
{
    lemma_count_sum_nonneg(s.drop_last());
    if i < s.len() - 1 {
        lemma_count_le_sum(s.drop_last(), i);
    }
}

proof fn lemma_count_sum_nonneg(s: Seq<AggregateLogEntry>)
    requires
        forall|j: int| 0 <= j < s.len() ==> #[trigger] s[j].count >= 0,
    ensures
        count_sum(s) >= 0,
    decreases s.len(),
{
    if s.len() > 0 {
        lemma_count_sum_nonneg(s.drop_last());
    }
}

/// A map from fingerprint to statistics.
pub struct Aggregates {
    entries: Vec<AggregateLogEntry>,
}

impl View for Aggregates {
    type V = Map<Seq<char>, Stats>;

    closed spec fn view(&self) -> Map<Seq<char>, Stats> {
        map_of(self.entries@)
    }
}

impl Aggregates {
    /// Fingerprints are unique, each entry is well formed, and the queries counted
    /// fit in an `i64`.
    pub closed spec fn wf(&self) -> bool {
        &&& keys_unique(self.entries@)
        &&& forall|i: int| 0 <= i < self.entries@.len() ==> (#[trigger] self.entries@[i]).wf()
        &&& count_sum(self.entries@) <= i64::MAX
    }

    /// The number of queries counted.
    pub closed spec fn records(&self) -> int {
        count_sum(self.entries@)
    }

    /// The entries, in the order their fingerprints first came.
    pub closed spec fn entry_list(&self) -> Seq<AggregateLogEntry> {
        self.entries@
    }

    pub proof fn lemma_entry_list(&self)
        requires
            self.wf(),
        ensures
            self.records() == count_sum(self.entry_list()),
            self.records() <= i64::MAX,
            self@.dom().len() == self.entry_list().len(),
            forall|i: int|
                0 <= i < self.entry_list().len() ==> (#[trigger] self.entry_list()[i]).wf(),
    {
        self.lemma_dom_len();
    }

    pub fn new() -> (r: Aggregates)
        ensures
            r.wf(),
            r@ == Map::<Seq<char>, Stats>::empty(),
            r.records() == 0,
    {
        Aggregates { entries: Vec::new() }
    }

    /// The number of fingerprints.
    pub fn len(&self) -> (r: usize)
        requires
            self.wf(),
        ensures
            r == self@.dom().len(),
    {
        proof {
            self.lemma_dom_len();
        }
        self.entries.len()
    }

    proof fn lemma_dom_len(&self)
        requires
            self.wf(),
        ensures
            self@.dom().len() == self.entries@.len(),
            self@.dom().finite(),
    {
        lemma_dom_len_of(self.entries@);
    }

    /// The entries, one per fingerprint, in the order their fingerprints first came.
    pub fn values(&self) -> (r: &Vec<AggregateLogEntry>)
        requires
            self.wf(),
        ensures
            r@ == self.entry_list(),
            r@.len() == self@.dom().len(),
            forall|i: int|
                0 <= i < r@.len() ==> self@.contains_key((#[trigger] r@[i]).query@) && self@[r@[i].query@]
                    == stats_of(r@[i]) && r@[i].wf(),
    {
        proof {
            self.lemma_dom_len();
            assert forall|i: int| 0 <= i < self.entries@.len() implies self@.contains_key(
                (#[trigger] self.entries@[i]).query@,
            ) && self@[self.entries@[i].query@] == stats_of(self.entries@[i]) by {
                lemma_map_of_at(self.entries@, i);
            }
        }
        &self.entries
    }

    fn find(&self, key: &str) -> (r: Option<usize>)
        requires
            self.wf(),
        ensures
            r matches Some(i) ==> i < self.entries@.len() && self.entries@[i as int].query@ == key@,
            r is None ==> forall|i: int|
                0 <= i < self.entries@.len() ==> self.entries@[i].query@ != key@,
    {
        let mut i: usize = 0;
        while i < self.entries.len()
            invariant
                i <= self.entries@.len(),
                forall|j: int| 0 <= j < i ==> self.entries@[j].query@ != key@,
            decreases self.entries@.len() - i,
        {
            if crate::text::same_text(self.entries[i].query.as_str(), key) {
                return Some(i);
            }
            i = i + 1;
        }
        None
    }

    /// The statistics of `key`, if it was seen.
    pub fn get(&self, key: &str) -> (r: Option<&AggregateLogEntry>)
        requires
            self.wf(),
        ensures
            r is Some <==> self@.contains_key(key@),
            r matches Some(e) ==> e.query@ == key@ && stats_of(*e) == self@[key@] && e.wf(),
    {
        match self.find(key) {
            Some(i) => {
                proof {
                    lemma_map_of_at(self.entries@, i as int);
                }
                Some(&self.entries[i])
            },
            None => {
                proof {
                    lemma_map_of_missing(self.entries@, key@);
                }
                None
            },
        }
    }

    /// Counts one more query of fingerprint `key` that ran for `query_time` microseconds.
    pub fn add(&mut self, key: String, query_time: i128)
        requires
            old(self).wf(),
            old(self).records() < i64::MAX,
            0 <= query_time <= i64::MAX,
        ensures
            final(self).wf(),
            final(self).records() == old(self).records() + 1,
            final(self)@ == (if old(self)@.contains_key(key@) {
                old(self)@.insert(key@, updated(old(self)@[key@], query_time as int))
            } else {
                old(self)@.insert(key@, first_stats(query_time as int))
            }),
    {
        proof {
            assert forall|j: int| 0 <= j < self.entries@.len() implies #[trigger] self.entries@[j].count >= 0 by {
                assert(self.entries@[j].wf());
            }
        }
        match self.find(key.as_str()) {
            Some(i) => {
                let ghost s = self.entries@;
                proof {
                    lemma_map_of_at(s, i as int);
                    lemma_count_le_sum(s, i as int);
                }
                self.entries[i].update_with(query_time);
                proof {
                    lemma_map_of_update(s, i as int, self.entries@[i as int]);
                    assert(self.entries@ =~= s.update(i as int, self.entries@[i as int]));
                }
            },
            None => {
                proof {
                    lemma_map_of_missing(self.entries@, key@);
                }
                let e = AggregateLogEntry::new(key, query_time);
                let ghost s = self.entries@;
                self.entries.push(e);
                assert(self.entries@.drop_last() =~= s);
            },
        }
    }
}

proof fn lemma_dom_len_of(s: Seq<AggregateLogEntry>)
    requires
        keys_unique(s),
    ensures
        map_of(s).dom().len() == s.len(),
        map_of(s).dom().finite(),
    decreases s.len(),
{
    if s.len() > 0 {
        assert(keys_unique(s.drop_last()));
        lemma_dom_len_of(s.drop_last());
        lemma_map_of_missing(s.drop_last(), s.last().query@);
    }
}

/// The `(fingerprint, microseconds)` pairs of raw entries, keyed by their query text.
pub open spec fn query_pairs(es: Seq<crate::log_parser::EntryView>) -> Seq<(Seq<char>, int)> {
    es.map_values(|e: crate::log_parser::EntryView| (e.query, e.query_time as int))
}

/// Aggregates entries by their exact query text, in order.
pub fn aggregate_entries(entries: Vec<LogEntry>) -> (r: Aggregates)
    requires
        entries@.len() < i64::MAX,
    ensures
        r.wf(),
        r@ == aggregate_spec(query_pairs(entries_view(entries@))),
        r.records() == entries@.len(),
{
    let ghost pairs = query_pairs(entries_view(entries@));
    let mut agg = Aggregates::new();
    let mut i: usize = 0;
    while i < entries.len()
        invariant
            i <= entries@.len() < i64::MAX,
            pairs == query_pairs(entries_view(entries@)),
            agg.wf(),
            agg.records() == i,
            agg@ == aggregate_spec(pairs.take(i as int)),
        decreases entries@.len() - i,
    {
        let e = &entries[i];
        let t = e.query_time.whole_microseconds();
        proof {
            crate::duration::Duration::lemma_bounded(e.query_time);
        }
        agg.add(e.query.clone(), t);
        assert(pairs.take(i + 1).drop_last() =~= pairs.take(i as int));
        i = i + 1;
    }
    assert(pairs.take(i as int) =~= pairs);
    agg
}

/// The `(fingerprint, microseconds)` pairs of normalized entries.
pub open spec fn normalized_pairs(es: Seq<NormalizedLogEntry>) -> Seq<(Seq<char>, int)> {
    es.map_values(|e: NormalizedLogEntry| (e.normalized_query@, e.entry.query_time@ as int))
}

/// Aggregates entries by their fingerprints, in order.
pub fn aggregate_normalized(entries: Vec<NormalizedLogEntry>) -> (r: Aggregates)
    requires
        entries@.len() < i64::MAX,
    ensures
        r.wf(),
        r@ == aggregate_spec(normalized_pairs(entries@)),
        r.records() == entries@.len(),
{
    let ghost pairs = normalized_pairs(entries@);
    let mut agg = Aggregates::new();
    let mut i: usize = 0;
    while i < entries.len()
        invariant
            i <= entries@.len() < i64::MAX,
            pairs == normalized_pairs(entries@),
            agg.wf(),
            agg.records() == i,
            agg@ == aggregate_spec(pairs.take(i as int)),
        decreases entries@.len() - i,
    {
        let e = &entries[i];
        let t = e.entry.query_time.whole_microseconds();
        proof {
            crate::duration::Duration::lemma_bounded(e.entry.query_time);
        }
        agg.add(e.normalized_query.clone(), t);
        assert(pairs.take(i + 1).drop_last() =~= pairs.take(i as int));
        i = i + 1;
    }
    assert(pairs.take(i as int) =~= pairs);
    agg
}

/// How many pairs have fingerprint `k`.
pub open spec fn occurrences(items: Seq<(Seq<char>, int)>, k: Seq<char>) -> int
    decreases items.len(),
{
    if items.len() == 0 {
        0
    } else {
        occurrences(items.drop_last(), k) + if items.last().0 == k {
            1int
        } else {
            0int
        }
    }
}

/// The sum of the times of fingerprint `k`.
pub open spec fn time_sum(items: Seq<(Seq<char>, int)>, k: Seq<char>) -> int
    decreases items.len(),
{
    if items.len() == 0 {
        0
    } else {
        time_sum(items.drop_last(), k) + if items.last().0 == k {
            items.last().1
        } else {
            0
        }
    }
}

/// The largest time of fingerprint `k`; 0 where it has none.
pub open spec fn time_max(items: Seq<(Seq<char>, int)>, k: Seq<char>) -> int
    decreases items.len(),
{
    if items.len() == 0 {
        0
    } else {
        let m = time_max(items.drop_last(), k);
        if items.last().0 == k && items.last().1 > m {
            items.last().1
        } else {
            m
        }
    }
}

/// A fingerprint is in the aggregate exactly when it occurs, and then its count,
/// total and maximum are the number, the sum and the largest of its times.
pub proof fn lemma_aggregate_totals(items: Seq<(Seq<char>, int)>, k: Seq<char>)
    requires
        forall|i: int| 0 <= i < items.len() ==> (#[trigger] items[i]).1 >= 0,
    ensures
        aggregate_spec(items).contains_key(k) <==> occurrences(items, k) > 0,
        aggregate_spec(items).contains_key(k) ==> aggregate_spec(items)[k].count == occurrences(
            items,
            k,
        ) && aggregate_spec(items)[k].total == time_sum(items, k) && aggregate_spec(items)[k].max
            == time_max(items, k),
    decreases items.len(),
{
    if items.len() > 0 {
        let rest = items.drop_last();
        assert forall|i: int| 0 <= i < rest.len() implies (#[trigger] rest[i]).1 >= 0 by {
            assert(items[i].1 >= 0);
        }
        lemma_aggregate_totals(rest, k);
        lemma_occurrences_nonneg(rest, k);
        lemma_time_max_nonneg(rest, k);
        assert(items[items.len() - 1].1 >= 0);
        if !aggregate_spec(rest).contains_key(k) {
            lemma_no_occurrence(rest, k);
        }
    }
}

proof fn lemma_occurrences_nonneg(items: Seq<(Seq<char>, int)>, k: Seq<char>)
    ensures
        occurrences(items, k) >= 0,
    decreases items.len(),
{
    if items.len() > 0 {
        lemma_occurrences_nonneg(items.drop_last(), k);
    }
}

proof fn lemma_time_max_nonneg(items: Seq<(Seq<char>, int)>, k: Seq<char>)
    ensures
        time_max(items, k) >= 0,
    decreases items.len(),
{
    if items.len() > 0 {
        lemma_time_max_nonneg(items.drop_last(), k);
    }
}

proof fn lemma_no_occurrence(items: Seq<(Seq<char>, int)>, k: Seq<char>)
    requires
        occurrences(items, k) == 0,
    ensures
        time_sum(items, k) == 0,
        time_max(items, k) == 0,
    decreases items.len(),
{
    if items.len() > 0 {
        lemma_occurrences_nonneg(items.drop_last(), k);
        lemma_no_occurrence(items.drop_last(), k);
    }
}

/// No pairs give no fingerprints.
pub proof fn lemma_empty_aggregate()
    ensures
        aggregate_spec(Seq::empty()) == Map::<Seq<char>, Stats>::empty(),
{
}

} // verus!
