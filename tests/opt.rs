use slowlog::duration::Duration;
use slowlog::filters::{Filter, FilterError};
use slowlog::log_parser::LogEntry;
use slowlog::timestamp::Timestamp;
use slowlog::opt::{parse_opts, ConfigError, Opt, OptError, SortOrder};

#[test]
fn it_parses_filters() {
    let opt: Opt = Opt::parse_from(&["test", "-Fuser!=foo", "--filter", "query~=SELECT foo"]).unwrap();
    assert_eq!(opt.filters.len(), 2);
    let first = opt.filters.first().unwrap();
    assert_eq!(first, "user!=foo");
    let second = opt.filters.last().unwrap();
    assert_eq!(second, "query~=SELECT foo");
}

#[test]
fn options_and_defaults() {
    let opt = Opt::parse_from(&["prog"]).unwrap();
    assert_eq!(10, opt.limit);
    assert!(!opt.aggregate && !opt.normalize && !opt.version);
    assert!(opt.filename.is_none() && opt.order.is_none());

    let opt = Opt::parse_from(&["prog", "-a", "--normalize", "-l", "3", "--order=max-time", "-islow.log"]).unwrap();
    assert!(opt.aggregate && opt.normalize);
    assert_eq!(3, opt.limit);
    assert_eq!(Some(SortOrder::MaxTime), opt.order);
    assert_eq!(Some("slow.log".to_string()), opt.filename);
}

#[test]
fn option_errors() {
    assert_eq!(Some(OptError::UnknownArgument), Opt::parse_from(&["prog", "file.log"]).err());
    assert_eq!(Some(OptError::MissingValue), Opt::parse_from(&["prog", "-F"]).err());
    assert_eq!(Some(OptError::UnexpectedValue), Opt::parse_from(&["prog", "--aggregate=yes"]).err());
    assert_eq!(Some(OptError::InvalidValue), Opt::parse_from(&["prog", "-o", "fastest"]).err());
    assert_eq!(Some(OptError::InvalidValue), Opt::parse_from(&["prog", "--limit", "ten"]).err());
}

#[test]
fn options_come_with_their_filters() {
    let (opt, filters) = parse_opts(&["prog", "-F", "user=foo", "--filter=query_time<2"]).unwrap();
    assert_eq!(2, opt.filters.len());
    assert_eq!(2, filters.len());
    let foo = LogEntry {
        timestamp: Timestamp { unix_nanos: 0, offset_seconds: 0 },
        user: "foo".to_string(),
        host: String::new(),
        query_time: Duration::microseconds(1_500_000),
        lock_time: Duration::zero(),
        rows_sent: 0,
        rows_examined: 0,
        query: String::new(),
    };
    assert!(filters.iter().all(|f| f.matches(&foo)));

    let bad = parse_opts(&["prog", "-Fuser=foo", "-Fhost=bar", "-Fuser~=("]).err();
    assert_eq!(Some(ConfigError::Filter(FilterError::InvalidName)), bad);
    let bad = parse_opts(&["prog", "--bogus"]).err();
    assert_eq!(Some(ConfigError::Options(OptError::UnknownArgument)), bad);
}
