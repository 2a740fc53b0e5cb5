use slowlog::aggregate::{aggregate_entries, aggregate_normalized, AggregateLogEntry, Aggregates};
use slowlog::duration::Duration;
use slowlog::log_parser::LogEntry;
use slowlog::normalize::{normalize, LiteralKind, NodeKind, SqlNode};
use slowlog::summarize::summarize_aggregates;
use slowlog::timestamp::Timestamp;

fn entry(micros: i64, query: &str) -> LogEntry {
    LogEntry {
        timestamp: Timestamp { unix_nanos: 0, offset_seconds: 0 },
        user: "u".to_string(),
        host: "h".to_string(),
        query_time: Duration::microseconds(micros),
        lock_time: Duration::microseconds(0),
        rows_sent: 0,
        rows_examined: 0,
        query: query.to_string(),
    }
}

#[test]
fn two_updates_follow_the_recurrence() {
    let mut agg = Aggregates::new();
    agg.add("f".to_string(), 100);
    agg.add("f".to_string(), 300);
    let e = agg.get("f").unwrap();
    assert_eq!(2, e.count);
    assert_eq!(400, e.total_query_time);
    assert_eq!(300, e.max_query_time);
    assert_eq!(200, e.avg_query_time);
    assert_eq!(1, agg.len());
}

#[test]
fn running_average_truncates_at_each_step() {
    let mut e = AggregateLogEntry::new("q".to_string(), 1);
    e.update_with(2);
    assert_eq!(1, e.avg_query_time);
    e.update_with(2);
    assert_eq!(1, e.avg_query_time);
    assert_eq!(5, e.total_query_time);
    assert_eq!(3, e.count);
    assert_eq!(2, e.max_query_time);
}

#[test]
fn entries_are_grouped_by_query() {
    let agg = aggregate_entries(vec![entry(10, "a"), entry(30, "b"), entry(20, "a")]);
    assert_eq!(2, agg.len());
    let a = agg.get("a").unwrap();
    assert_eq!((2, 30, 15, 20), (a.count, a.total_query_time, a.avg_query_time, a.max_query_time));
    let b = agg.get("b").unwrap();
    assert_eq!((1, 30, 30, 30), (b.count, b.total_query_time, b.avg_query_time, b.max_query_time));
    assert!(agg.get("c").is_none());
    assert_eq!(2, agg.values().len());
}

#[test]
fn normalized_entries_are_grouped_by_fingerprint() {
    let tree = |n: &str| {
        Ok(vec![SqlNode::Node {
            kind: NodeKind::Query,
            parts: vec![
                SqlNode::Text("SELECT * FROM t WHERE id = ".to_string()),
                SqlNode::Literal(LiteralKind::Number, n.to_string()),
            ],
        }])
    };
    let n1 = normalize(entry(100, "SELECT * FROM t WHERE id = 1"), tree("1"));
    let n2 = normalize(entry(300, "SELECT * FROM t WHERE id = 2"), tree("2"));
    let agg = aggregate_normalized(vec![n1, n2]);
    assert_eq!(1, agg.len());
    let e = agg.get("SELECT * FROM t WHERE id = 0;").unwrap();
    assert_eq!((2, 400, 200, 300), (e.count, e.total_query_time, e.avg_query_time, e.max_query_time));
}

#[test]
fn empty_input_aggregates_to_nothing() {
    let agg = aggregate_entries(Vec::new());
    assert_eq!(0, agg.len());
    let s = summarize_aggregates(&agg);
    assert_eq!(0, s.total_queries);
    assert_eq!(0, s.unique_queries);
    assert_eq!(0, s.max_execution_time.whole_microseconds());
    assert_eq!(0, s.avg_execution_time.whole_microseconds());
}

#[test]
fn summary_over_fingerprints() {
    let agg = aggregate_entries(vec![entry(10, "a"), entry(30, "b"), entry(20, "a")]);
    let s = summarize_aggregates(&agg);
    assert_eq!(3, s.total_queries);
    assert_eq!(2, s.unique_queries);
    assert_eq!(30, s.max_execution_time.whole_microseconds());
    assert_eq!(20, s.avg_execution_time.whole_microseconds());
}
