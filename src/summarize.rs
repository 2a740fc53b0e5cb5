//! A summary over all aggregated fingerprints.
use vstd::prelude::*;
use crate::aggregate::{count_sum, AggregateLogEntry, Aggregates};
use crate::duration::Duration;

verus! {

/// Totals over all fingerprints; times are durations.
pub struct Summary {
    pub total_queries: i64,
    pub unique_queries: i64,
    pub max_execution_time: Duration,
    pub avg_execution_time: Duration,
}

/// The sum of average times count over the entries.
pub open spec fn weighted_sum(s: Seq<AggregateLogEntry>) -> int
    decreases s.len(),
{
    if s.len() == 0 {
        0
    } else {
        weighted_sum(s.drop_last()) + s.last().avg_query_time * s.last().count
    }
}

/// The largest maximum time over the entries; 0 where there are none.
pub open spec fn max_of(s: Seq<AggregateLogEntry>) -> int
    decreases s.len(),
{
    if s.len() == 0 {
        0
    } else {
        let m = max_of(s.drop_last());
        if s.last().max_query_time > m {
            s.last().max_query_time as int
        } else {
            m
        }
    }
}

proof fn lemma_prefix_count(s: Seq<AggregateLogEntry>, k: int)
    requires
        0 <= k <= s.len(),
        forall|j: int| 0 <= j < s.len() ==> (#[trigger] s[j]).wf(),
    ensures
        0 <= count_sum(s.take(k)) <= count_sum(s),
    decreases s.len() - k,
{
    if k < s.len() {
        lemma_prefix_count(s, k + 1);
        assert(s.take(k + 1).drop_last() =~= s.take(k));
        assert(s.take(k + 1).last() == s[k]);
        assert(s[k].wf());
        lemma_count_nonneg(s.take(k));
    } else {
        assert(s.take(k) =~= s);
        lemma_count_nonneg(s);
    }
}

proof fn lemma_count_nonneg(s: Seq<AggregateLogEntry>)
    requires
        forall|j: int| 0 <= j < s.len() ==> (#[trigger] s[j]).wf(),
    ensures
        count_sum(s) >= 0,
    decreases s.len(),
{
    if s.len() > 0 {
        assert(s[s.len() - 1].wf());
        lemma_count_nonneg(s.drop_last());
    }
}

proof fn lemma_len_le_count(s: Seq<AggregateLogEntry>)
    requires
        forall|j: int| 0 <= j < s.len() ==> (#[trigger] s[j]).wf(),
    ensures
        s.len() <= count_sum(s),
    decreases s.len(),
{
    if s.len() > 0 {
        assert(s[s.len() - 1].wf());
        lemma_len_le_count(s.drop_last());
    }
}

/// Totals over all fingerprints. Over no queries every figure is zero.
pub fn summarize_aggregates(entries: &Aggregates) -> (r: Summary)
    requires
        entries.wf(),
    ensures
        r.total_queries == entries.records(),
        r.unique_queries == entries@.dom().len(),
        r.max_execution_time@ == max_of(entries.entry_list()),
        r.avg_execution_time@ == (if entries.records() == 0 {
            0
        } else {
            weighted_sum(entries.entry_list()) / entries.records()
        }),
        entries.records() == 0 ==> r.unique_queries == 0 && r.max_execution_time@ == 0,
{
    proof {
        entries.lemma_entry_list();
    }
    let v = entries.values();
    let ghost s = v@;
    let big: i128 = 9_223_372_036_854_775_807;
    let mut total: i128 = 0;
    let mut weighted: i128 = 0;
    let mut max: i128 = 0;
    let mut i: usize = 0;
    while i < v.len()
        invariant
            s == v@,
            big == 9_223_372_036_854_775_807,
            s == entries.entry_list(),
            count_sum(s) <= big,
            forall|j: int| 0 <= j < s.len() ==> (#[trigger] s[j]).wf(),
            i <= s.len(),
            total == count_sum(s.take(i as int)),
            weighted == weighted_sum(s.take(i as int)),
            max == max_of(s.take(i as int)),
            0 <= weighted <= total * big,
            0 <= max <= big,
        decreases s.len() - i,
    {
        let e = &v[i];
        assert(e.wf());
        proof {
            lemma_prefix_count(s, i + 1);
        }
        assert(s.take(i + 1).drop_last() =~= s.take(i as int));
        let c = e.count as i128;
        let a = e.avg_query_time;
        assert(a * c <= c * big) by (nonlinear_arith)
            requires 0 <= a <= big, 1 <= c;
        assert(0 <= a * c) by (nonlinear_arith)
            requires 0 <= a, 1 <= c;
        assert((total + c) * big == total * big + c * big) by (nonlinear_arith);
        assert(total + c <= big);
        assert((total + c) * big <= big * big) by (nonlinear_arith)
            requires total + c <= big, 0 <= total + c;
        weighted = weighted + a * c;
        total = total + c;
        if e.max_query_time > max {
            max = e.max_query_time;
        }
        i = i + 1;
    }
    assert(s.take(i as int) =~= s);
    let avg: i128 = if total == 0 {
        0
    } else {
        assert(weighted / total <= big) by (nonlinear_arith)
            requires 0 <= weighted <= total * big, total > 0;
        assert(weighted / total >= 0) by (nonlinear_arith)
            requires 0 <= weighted, total > 0;
        weighted / total
    };
    let n = v.len();
    proof {
        lemma_len_le_count(s);
    }
    Summary {
        total_queries: total as i64,
        unique_queries: n as i64,
        max_execution_time: Duration::microseconds(max as i64),
        avg_execution_time: Duration::microseconds(avg as i64),
    }
}

} // verus!
