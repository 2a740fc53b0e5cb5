use slowlog::aggregate::aggregate_entries;
use slowlog::duration::Duration;
use slowlog::log_parser::LogEntry;
use slowlog::opt::SortOrder;
use slowlog::report::{rank_aggregates, rank_entries, top_indices};
use slowlog::timestamp::Timestamp;

fn entry(micros: i64, query: &str) -> LogEntry {
    LogEntry {
        timestamp: Timestamp { unix_nanos: 0, offset_seconds: 0 },
        user: "u".to_string(),
        host: "h".to_string(),
        query_time: Duration::microseconds(micros),
        lock_time: Duration::microseconds(0),
        rows_sent: 0,
        rows_examined: 0,
        query: query.to_string(),
    }
}

#[test]
fn largest_keys_come_first() {
    let keys = vec![5, 1, 9, 5, 7];
    let r = top_indices(&keys, 3);
    let picked: Vec<i128> = r.iter().map(|&i| keys[i]).collect();
    assert_eq!(vec![9, 7, 5], picked);
    assert_eq!(5, top_indices(&keys, 10).len());
    assert!(top_indices(&keys, 0).is_empty());
    assert!(top_indices(&Vec::new(), 3).is_empty());
}

#[test]
fn aggregates_are_ranked_by_the_chosen_key() {
    let agg = aggregate_entries(vec![
        entry(10, "a"),
        entry(500, "b"),
        entry(20, "a"),
        entry(30, "a"),
        entry(100, "c"),
    ]);
    let values = agg.values();
    let by_count: Vec<&str> = rank_aggregates(&agg, Some(SortOrder::Count), 10)
        .into_iter()
        .map(|i| values[i].query.as_str())
        .collect();
    assert_eq!("a", by_count[0]);
    let by_max: Vec<&str> = rank_aggregates(&agg, Some(SortOrder::MaxTime), 2)
        .into_iter()
        .map(|i| values[i].query.as_str())
        .collect();
    assert_eq!(vec!["b", "c"], by_max);
    let unordered = rank_aggregates(&agg, None, 2);
    assert_eq!(vec![2, 1], unordered);
}

#[test]
fn individual_entries_by_query_time() {
    let entries = vec![entry(10, "a"), entry(500, "b"), entry(20, "c")];
    assert_eq!(vec![1, 2], rank_entries(&entries, Some(SortOrder::AvgTime), 2));
    assert_eq!(vec![2, 1, 0], rank_entries(&entries, None, 5));
    assert_eq!(vec![2], rank_entries(&entries, Some(SortOrder::Count), 1));
}
