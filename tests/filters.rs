use slowlog::duration::Duration;
use slowlog::filters::{
    all_match, create_filter, parse_filter, retain_matching, AnyFilter, Filter, FilterError, Not,
    QueryMatches, QueryTimeGreaterThan, QueryTimeLessThan, UserEquals, UserMatches,
};
use slowlog::log_parser::LogEntry;
use slowlog::timestamp::Timestamp;

fn entry(user: &str, micros: i64, query: &str) -> LogEntry {
    LogEntry {
        timestamp: Timestamp { unix_nanos: 0, offset_seconds: 0 },
        user: user.to_string(),
        host: "localhost".to_string(),
        query_time: Duration::microseconds(micros),
        lock_time: Duration::microseconds(0),
        rows_sent: 0,
        rows_examined: 0,
        query: query.to_string(),
    }
}

#[test]
fn query_time_lower_bound_is_inclusive() {
    let f = QueryTimeGreaterThan::new(500);
    assert!(f.matches(&entry("u", 500_000, "q")));
    assert!(f.matches(&entry("u", 500_999, "q")));
    assert!(f.matches(&entry("u", 2_000_000, "q")));
    assert!(!f.matches(&entry("u", 499_999, "q")));
}

#[test]
fn query_time_upper_bound_is_inclusive() {
    let f = QueryTimeLessThan::new(500);
    assert!(f.matches(&entry("u", 500_999, "q")));
    assert!(f.matches(&entry("u", 0, "q")));
    assert!(!f.matches(&entry("u", 501_000, "q")));
}

#[test]
fn query_time_filter_reads_seconds() {
    let f = parse_filter("query_time>0.5").unwrap();
    assert!(f.matches(&entry("u", 500_000, "q")));
    assert!(!f.matches(&entry("u", 499_999, "q")));
    let g = create_filter("query_time", "<=", "1.25").unwrap();
    assert!(g.matches(&entry("u", 1_250_999, "q")));
    assert!(!g.matches(&entry("u", 1_251_000, "q")));
}

#[test]
fn user_filters() {
    assert!(UserEquals::new("foo".to_string()).matches(&entry("foo", 1, "q")));
    assert!(!UserEquals::new("foo".to_string()).matches(&entry("food", 1, "q")));
    let not = Not::new(AnyFilter::UserEquals(UserEquals::new("foo".to_string())));
    assert!(!not.matches(&entry("foo", 1, "q")));
    assert!(not.matches(&entry("bar", 1, "q")));
    let re = UserMatches::new("^fo+$".to_string()).unwrap();
    assert!(re.matches(&entry("fooo", 1, "q")));
    assert!(!re.matches(&entry("bar", 1, "q")));
}

#[test]
fn query_pattern_filter() {
    let f = QueryMatches::new("SELECT .* FROM users".to_string()).unwrap();
    assert!(f.matches(&entry("u", 1, "SELECT id FROM users WHERE id = 1;")));
    assert!(!f.matches(&entry("u", 1, "DELETE FROM users;")));
}

#[test]
fn parsed_definitions() {
    let f = parse_filter("user!=foo").unwrap();
    assert!(!f.matches(&entry("foo", 1, "q")));
    assert!(f.matches(&entry("bar", 1, "q")));
    let g = parse_filter("query ~= SELECT foo").unwrap();
    assert!(g.matches(&entry("x", 1, "SELECT foo FROM t")));
    assert!(!g.matches(&entry("x", 1, "SELECT bar FROM t")));
}

#[test]
fn filter_errors() {
    assert_eq!(Some(FilterError::InvalidName), parse_filter("host=foo").err());
    assert_eq!(Some(FilterError::InvalidOperator), parse_filter("user<foo").err());
    assert_eq!(Some(FilterError::InvalidOperator), parse_filter("query=foo").err());
    assert_eq!(Some(FilterError::InvalidOperator), parse_filter("query_time~=1").err());
    assert_eq!(Some(FilterError::InvalidPattern), parse_filter("user~=(").err());
    assert_eq!(Some(FilterError::InvalidPattern), UserMatches::new("[".to_string()).err());
    assert_eq!(Some(FilterError::InvalidNumber), parse_filter("query_time>abc").err());
    assert_eq!(Some(FilterError::InvalidFormat), parse_filter("user").err());
    assert_eq!(Some(FilterError::InvalidFormat), parse_filter("=foo").err());
}

#[test]
fn all_filters_must_match_and_order_is_kept() {
    let filters = vec![
        parse_filter("user=foo").unwrap(),
        parse_filter("query_time>=1").unwrap(),
    ];
    let entries = vec![
        entry("foo", 2_000_000, "a"),
        entry("bar", 2_000_000, "b"),
        entry("foo", 10, "c"),
        entry("foo", 1_000_000, "d"),
    ];
    assert!(all_match(&filters, &entries[0]));
    assert!(!all_match(&filters, &entries[1]));
    let kept = retain_matching(entries, &filters);
    let queries: Vec<&str> = kept.iter().map(|e| e.query.as_str()).collect();
    assert_eq!(vec!["a", "d"], queries);
}

#[test]
fn no_filters_keep_everything() {
    let filters: Vec<AnyFilter> = Vec::new();
    let entries = vec![entry("a", 1, "x"), entry("b", 2, "y")];
    assert_eq!(2, retain_matching(entries, &filters).len());
}

#[test]
fn query_time_thresholds_take_signs_and_exponents() {
    let at_least = |v: &str| create_filter("query_time", ">", v).unwrap();
    let f = at_least("1e3");
    assert!(f.matches(&entry("u", 1_000_000_000, "q")));
    assert!(!f.matches(&entry("u", 999_999_999, "q")));
    let g = at_least("+0.5");
    assert!(g.matches(&entry("u", 500_000, "q")));
    assert!(!g.matches(&entry("u", 499_999, "q")));
    let h = at_least("5E-1");
    assert!(h.matches(&entry("u", 500_000, "q")));
    assert!(!h.matches(&entry("u", 499_999, "q")));
    let i = at_least("1.5e2");
    assert!(i.matches(&entry("u", 150_000_000, "q")));
    assert!(!i.matches(&entry("u", 149_999_999, "q")));
    assert!(at_least("-1").matches(&entry("u", 0, "q")));
    assert!(!at_least("1e30").matches(&entry("u", i64::MAX, "q")));
    let below = create_filter("query_time", "<", "1e-4").unwrap();
    assert!(below.matches(&entry("u", 999, "q")));
    assert!(!below.matches(&entry("u", 1_000, "q")));
    for bad in ["abc", "1e", ".", "", "1.2.3", "e5", "--1", "1e+"] {
        assert_eq!(Some(FilterError::InvalidNumber), create_filter("query_time", ">", bad).err(), "{}", bad);
    }
}

#[test]
fn unicode_user_names() {
    let f = parse_filter("user=josé").unwrap();
    assert!(f.matches(&entry("josé", 1, "q")));
    let g = parse_filter("user~=^jos.$").unwrap();
    assert!(g.matches(&entry("josé", 1, "q")));
}

#[test]
fn definitions_with_nothing_after_the_operator() {
    let f = parse_filter("user==").unwrap();
    assert!(f.matches(&entry("=", 1, "q")));
    assert!(!f.matches(&entry("foo", 1, "q")));
    let g = parse_filter("user= ").unwrap();
    assert!(g.matches(&entry(" ", 1, "q")));
    assert_eq!(Some(FilterError::InvalidFormat), parse_filter("user=").err());
    assert_eq!(Some(FilterError::InvalidFormat), parse_filter("user=\n").err());
    assert_eq!(Some(FilterError::InvalidFormat), parse_filter("user=a\nb").err());
}
