//! Which entries a report shows, and in what order: the largest first, at most a
//! given number of them.
use vstd::prelude::*;
use crate::aggregate::{AggregateLogEntry, Aggregates};
use crate::log_parser::LogEntry;
use crate::opt::SortOrder;

verus! {

pub open spec fn distinct(s: Seq<usize>) -> bool {
    forall|i: int, j: int| 0 <= i < j < s.len() ==> s[i] != s[j]
}

pub open spec fn selected(s: Seq<usize>, idx: int) -> bool {
    exists|j: int| 0 <= j < s.len() && s[j] == idx
}

/// `r` picks the `min(limit, keys.len())` largest keys, largest first: valid and
/// distinct indices, non-increasing keys, and no index left out has a larger key
/// than the last one picked.
pub open spec fn is_top(keys: Seq<i128>, limit: nat, r: Seq<usize>) -> bool {
    &&& r.len() == (if limit < keys.len() {
        limit
    } else {
        keys.len()
    })
    &&& forall|j: int| 0 <= j < r.len() ==> r[j] < keys.len()
    &&& distinct(r)
    &&& forall|i: int, j: int| 0 <= i < j < r.len() ==> keys[r[i] as int] >= keys[r[j] as int]
    &&& r.len() > 0 ==> forall|idx: int|
        0 <= idx < keys.len() && !selected(r, idx) ==> keys[idx] <= keys[r.last() as int]
}

/// The indices of the `limit` largest keys, largest first.
pub fn top_indices(keys: &Vec<i128>, limit: usize) -> (r: Vec<usize>)
    ensures
        is_top(keys@, limit as nat, r@),
{
    let n = keys.len();
    let mut rest: Vec<usize> = Vec::new();
    let mut i: usize = 0;
    while i < n
        invariant
            i <= n == keys@.len(),
            rest@.len() == i,
            forall|k: int| 0 <= k < i ==> rest@[k] == k,
        decreases n - i,
    {
        rest.push(i);
        i = i + 1;
    }
    let mut r: Vec<usize> = Vec::new();
    assert forall|idx: int| 0 <= idx < n implies selected(r@, idx) || selected(rest@, idx) by {
        assert(rest@[idx] == idx);
    }
    while r.len() < limit && rest.len() > 0
        invariant
            n == keys@.len(),
            r@.len() + rest@.len() == n,
            r@.len() <= limit,
            forall|j: int| 0 <= j < r@.len() ==> r@[j] < n,
            forall|k: int| 0 <= k < rest@.len() ==> rest@[k] < n,
            distinct(r@),
            distinct(rest@),
            forall|j: int, k: int| 0 <= j < r@.len() && 0 <= k < rest@.len() ==> r@[j] != rest@[k],
            forall|a: int, b: int|
                0 <= a < b < r@.len() ==> keys@[r@[a] as int] >= keys@[r@[b] as int],
            r@.len() > 0 ==> forall|k: int|
                0 <= k < rest@.len() ==> keys@[rest@[k] as int] <= keys@[r@.last() as int],
            forall|idx: int| 0 <= idx < n ==> selected(r@, idx) || selected(rest@, idx),
        decreases rest@.len(),
    {
        let mut best: usize = 0;
        let mut k: usize = 1;
        while k < rest.len()
            invariant
                0 < rest@.len(),
                best < k <= rest@.len() || (best == 0 && k == 1),
                best < rest@.len(),
                forall|k: int| 0 <= k < rest@.len() ==> rest@[k] < keys@.len(),
                forall|t: int|
                    0 <= t < k && t < rest@.len() ==> keys@[rest@[t] as int] <= keys@[rest@[best as int] as int],
            decreases rest@.len() - k,
        {
            if keys[rest[k]] > keys[rest[best]] {
                best = k;
            }
            k = k + 1;
        }
        let ghost old_r = r@;
        let ghost old_rest = rest@;
        let c = rest.remove(best);
        r.push(c);
        proof {
            let p = best as int;
            assert(c == old_rest[p]);
            assert forall|k: int| 0 <= k < rest@.len() implies rest@[k] == (if k < p {
                old_rest[k]
            } else {
                old_rest[k + 1]
            }) by {}
            assert forall|a: int, b: int| 0 <= a < b < r@.len() implies keys@[r@[a] as int]
                >= keys@[r@[b] as int] by {
                if b == r@.len() - 1 && a < b {
                    assert(keys@[old_r.last() as int] >= keys@[c as int] || old_r.len() == 0);
                    if old_r.len() > 0 && a < old_r.len() - 1 {
                        assert(keys@[old_r[a] as int] >= keys@[old_r.last() as int]);
                    }
                }
            }
            assert forall|k: int| 0 <= k < rest@.len() implies keys@[rest@[k] as int]
                <= keys@[r@.last() as int] by {
                if k < p {
                    assert(keys@[old_rest[k] as int] <= keys@[old_rest[p] as int]);
                } else {
                    assert(keys@[old_rest[k + 1] as int] <= keys@[old_rest[p] as int]);
                }
            }
            assert forall|idx: int| 0 <= idx < n implies selected(r@, idx) || selected(
                rest@,
                idx,
            ) by {
                if selected(old_r, idx) {
                    let j = choose|j: int| 0 <= j < old_r.len() && old_r[j] == idx;
                    assert(r@[j] == idx);
                } else {
                    let k = choose|k: int| 0 <= k < old_rest.len() && old_rest[k] == idx;
                    if k == p {
                        assert(r@[r@.len() - 1] == idx);
                    } else if k < p {
                        assert(rest@[k] == idx);
                    } else {
                        assert(rest@[k - 1] == idx);
                    }
                }
            }
        }
    }
    proof {
        if r@.len() > 0 {
            assert forall|idx: int| 0 <= idx < keys@.len() && !selected(r@, idx) implies keys@[idx]
                <= keys@[r@.last() as int] by {
                let k = choose|k: int| 0 <= k < rest@.len() && rest@[k] == idx;
            }
        }
    }
    r
}

/// The key entries are ordered by.
pub open spec fn aggregate_key(e: AggregateLogEntry, order: SortOrder) -> int {
    match order {
        SortOrder::Count => e.count as int,
        SortOrder::TotalTime => e.total_query_time as int,
        SortOrder::MaxTime => e.max_query_time as int,
        SortOrder::AvgTime => e.avg_query_time as int,
    }
}

/// The indices, in reverse, of the last `limit` of `n` items.
pub open spec fn last_in_reverse(n: nat, limit: nat, r: Seq<usize>) -> bool {
    &&& r.len() == (if limit < n {
        limit
    } else {
        n
    })
    &&& forall|j: int| 0 <= j < r.len() ==> r[j] == n - 1 - j
}

fn reversed_indices(n: usize, limit: usize) -> (r: Vec<usize>)
    ensures
        last_in_reverse(n as nat, limit as nat, r@),
{
    let mut r: Vec<usize> = Vec::new();
    while r.len() < limit && r.len() < n
        invariant
            r@.len() <= n,
            r@.len() <= limit,
            forall|j: int| 0 <= j < r@.len() ==> r@[j] == n - 1 - j,
        decreases n - r@.len(),
    {
        let j = r.len();
        r.push(n - 1 - j);
    }
    r
}

/// Which aggregated entries a report shows, as indices into `values()`: with an
/// order, the `limit` largest by its key, largest first; without one, the last
/// `limit` entries, last first.
pub fn rank_aggregates(entries: &Aggregates, order: Option<SortOrder>, limit: usize) -> (r: Vec<
    usize,
>)
    requires
        entries.wf(),
    ensures
        match order {
            Some(o) => is_top(
                entries.entry_list().map_values(|e: AggregateLogEntry| aggregate_key(e, o) as i128),
                limit as nat,
                r@,
            ),
            None => last_in_reverse(entries.entry_list().len(), limit as nat, r@),
        },
{
    let v = entries.values();
    match order {
        None => reversed_indices(v.len(), limit),
        Some(o) => {
            let mut keys: Vec<i128> = Vec::new();
            let mut i: usize = 0;
            while i < v.len()
                invariant
                    i <= v@.len(),
                    keys@ =~= v@.take(i as int).map_values(
                        |e: AggregateLogEntry| aggregate_key(e, o) as i128,
                    ),
                decreases v@.len() - i,
            {
                let e = &v[i];
                let key = match o {
                    SortOrder::Count => e.count as i128,
                    SortOrder::TotalTime => e.total_query_time,
                    SortOrder::MaxTime => e.max_query_time,
                    SortOrder::AvgTime => e.avg_query_time,
                };
                keys.push(key);
                i = i + 1;
            }
            assert(v@.take(i as int) =~= v@);
            top_indices(&keys, limit)
        },
    }
}

/// Which individual entries a report shows, as indices: ordered by any time order,
/// the `limit` longest-running first; otherwise the last `limit` entries, last first.
pub fn rank_entries(entries: &Vec<LogEntry>, order: Option<SortOrder>, limit: usize) -> (r: Vec<
    usize,
>)
    ensures
        match order {
            Some(SortOrder::Count) | None => last_in_reverse(entries@.len(), limit as nat, r@),
            Some(_) => is_top(
                entries@.map_values(|e: LogEntry| e.query_time@ as i128),
                limit as nat,
                r@,
            ),
        },
{
    match order {
        Some(SortOrder::Count) | None => reversed_indices(entries.len(), limit),
        Some(_) => {
            let mut keys: Vec<i128> = Vec::new();
            let mut i: usize = 0;
            while i < entries.len()
                invariant
                    i <= entries@.len(),
                    keys@ =~= entries@.take(i as int).map_values(
                        |e: LogEntry| e.query_time@ as i128,
                    ),
                decreases entries@.len() - i,
            {
                keys.push(entries[i].query_time.whole_microseconds());
                i = i + 1;
            }
            assert(entries@.take(i as int) =~= entries@);
            top_indices(&keys, limit)
        },
    }
}

} // verus!
