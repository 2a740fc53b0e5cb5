use slowlog::log_parser::{parse_log, parse_timed_lines, LogFormatError};
use slowlog::timestamp::Timestamp;

fn lines(ls: &[&str]) -> String {
    let mut s = String::new();
    for l in ls {
        s.push_str(l);
        s.push('\n');
    }
    s
}

const RDS_PREAMBLE: [&str; 3] = [
    "/rdsdbbin/oscar/bin/mysqld, Version: 5.7.12-log (MySQL Community Server (GPL)). started with:",
    "Tcp port: 3306  Unix socket: /tmp/mysql.sock",
    "Time                 Id Command    Argument",
];

#[test]
fn it_parses_logs_correctly() {
    let log = lines(&[
        "# Time: 2019-07-30T13:01:34.887103Z",
        "# User@Host: foo[bar] @  [127.0.0.1]  Id: 1337",
        "# Query_time: 1.289039  Lock_time: 0.000061 Rows_sent: 50000  Rows_examined: 100000",
        "use foo;",
        "SET timestamp=1000000000;",
        "SELECT * FROM baz WHERE quux = 1;",
        "# Time: 2019-07-30T13:01:34.887103Z",
        "# User@Host: foo[bar] @  [127.0.0.1]  Id: 1337",
        "# Query_time: 0.123456  Lock_time: 0.000009 Rows_sent: 1  Rows_examined: 1",
        "SET timestamp=1000000001;",
        "UPDATE baz SET quux = 2 WHERE id = 42;",
    ]);
    let entries = parse_log(&log).unwrap();
    assert_eq!(2, entries.len());

    let e1 = entries.first().expect("we know this exists");
    assert_eq!("foo", e1.user);
    assert_eq!("127.0.0.1", e1.host);
    assert_eq!(1289039, e1.query_time.whole_microseconds());
    assert_eq!(61, e1.lock_time.whole_microseconds());
    assert_eq!(50000, e1.rows_sent);
    assert_eq!(100000, e1.rows_examined);
    assert_eq!("SELECT * FROM baz WHERE quux = 1;", e1.query);

    let e2 = entries.last().expect("we also know this exists");
    assert_eq!("UPDATE baz SET quux = 2 WHERE id = 42;", e2.query);
}

#[test]
fn it_skips_additional_lines_at_the_start() {
    let mut ls: Vec<&str> = RDS_PREAMBLE.to_vec();
    ls.extend_from_slice(&[
        "# Time: 2019-07-30T13:01:34.887103Z",
        "# User@Host: foo[bar] @  [127.0.0.1]  Id: 1337",
        "# Query_time: 1.289039  Lock_time: 0.000061 Rows_sent: 50000  Rows_examined: 100000",
        "SELECT * FROM baz WHERE quux = 1;",
    ]);
    let entries = parse_log(&lines(&ls)).unwrap();
    assert_eq!(1, entries.len());

    let e1 = entries.first().expect("we know this exists");
    assert_eq!("SELECT * FROM baz WHERE quux = 1;", e1.query);
}

#[test]
fn it_handles_empty_logs() {
    let entries = parse_log("").unwrap();
    assert_eq!(0, entries.len());
}

#[test]
fn it_handles_nonempty_files_without_log_entries() {
    let entries = parse_log(&lines(&RDS_PREAMBLE)).unwrap();
    assert_eq!(0, entries.len());
}

#[test]
fn it_handles_concatenated_log_files() {
    let mut ls: Vec<&str> = RDS_PREAMBLE.to_vec();
    ls.extend_from_slice(&[
        "# Time: 2021-05-11T07:00:13.212839Z",
        "# User@Host: foo[foo] @  [127.0.0.1]  Id: 127461241",
        "# Query_time: 0.778443  Lock_time: 0.000027 Rows_sent: 1  Rows_examined: 1801663",
        "use foo;",
        "SET timestamp=1620716413;",
        "SELECT foo FROM bar WHERE baz = 'quux';",
    ]);
    ls.extend_from_slice(&RDS_PREAMBLE);
    ls.extend_from_slice(&RDS_PREAMBLE);
    ls.extend_from_slice(&[
        "# Time: 2021-05-11T08:00:13.307203Z",
        "# User@Host: foo[foo] @  [127.0.0.1]  Id: 127563196",
        "# Query_time: 2.150780  Lock_time: 0.000046 Rows_sent: 25  Rows_examined: 9233384",
        "use foo;",
        "SET timestamp=1620720013;",
        "SELECT foo FROM bar WHERE baz = 'quux';",
    ]);
    ls.extend_from_slice(&RDS_PREAMBLE);
    ls.extend_from_slice(&RDS_PREAMBLE);
    let entries = parse_log(&lines(&ls)).unwrap();
    assert_eq!(2, entries.len());

    entries.iter().for_each(|entry| {
        assert_eq!(entry.query, "SELECT foo FROM bar WHERE baz = 'quux';");
    });
}

#[test]
fn it_handles_multiline_queries() {
    let mut ls: Vec<&str> = RDS_PREAMBLE.to_vec();
    ls.extend_from_slice(&[
        "# Time: 2019-07-30T13:01:34.887103Z",
        "# User@Host: foo[bar] @  [127.0.0.1]  Id: 1337",
        "# Query_time: 1.289039  Lock_time: 0.000061 Rows_sent: 50000  Rows_examined: 100000",
        "SELECT *",
        "    FROM baz",
        "    WHERE quux = 1;",
    ]);
    let entries = parse_log(&lines(&ls)).unwrap();
    assert_eq!(1, entries.len());

    let e1 = entries.first().expect("we know this exists");
    assert_eq!("SELECT * FROM baz WHERE quux = 1;", e1.query);
}

const HEADER: [&str; 3] = [
    "# Time: 2019-07-30T13:01:34.887103Z",
    "# User@Host: foo[bar] @  [127.0.0.1]  Id: 1337",
    "# Query_time: 0.5  Lock_time: 0 Rows_sent: 1  Rows_examined: 2",
];

#[test]
fn continuation_lines_join_with_one_space() {
    let log = "# Time: 2019-07-30T13:01:34.887103Z\n# User@Host: foo[bar] @  [127.0.0.1]  Id: 1337\n# Query_time: 0.5  Lock_time: 0 Rows_sent: 1  Rows_examined: 2\nSELECT *\n FROM t\n WHERE x=1;";
    let entries = parse_log(log).unwrap();
    assert_eq!(1, entries.len());
    assert_eq!("SELECT * FROM t WHERE x=1;", entries[0].query);
}

#[test]
fn digits_wrapped_across_lines_are_joined() {
    let mut ls: Vec<&str> = HEADER.to_vec();
    ls.extend_from_slice(&["SELECT 12", "34 FROM t;"]);
    let entries = parse_log(&lines(&ls)).unwrap();
    assert_eq!("SELECT 1234 FROM t;", entries[0].query);
}

#[test]
fn tabs_and_space_runs_collapse() {
    let mut ls: Vec<&str> = HEADER.to_vec();
    ls.extend_from_slice(&["SELECT\ta,   b  FROM t;"]);
    let entries = parse_log(&lines(&ls)).unwrap();
    assert_eq!("SELECT a, b FROM t;", entries[0].query);
}

#[test]
fn header_fields_are_read() {
    let mut ls: Vec<&str> = HEADER.to_vec();
    ls.extend_from_slice(&["SELECT 1;"]);
    let entries = parse_log(&lines(&ls)).unwrap();
    let e = &entries[0];
    assert_eq!(500000, e.query_time.whole_microseconds());
    assert_eq!(500, e.query_time.whole_milliseconds());
    assert_eq!(0, e.lock_time.whole_microseconds());
    assert_eq!(1, e.rows_sent);
    assert_eq!(2, e.rows_examined);
    assert_eq!(1564491694887103000, e.timestamp.unix_nanos);
    assert_eq!(0, e.timestamp.offset_seconds);
}

#[test]
fn named_host_is_preferred_over_address() {
    let log = lines(&[
        "# Time: 2019-07-30T13:01:34Z",
        "# User@Host: app-user[app] @ dbhost [10.0.0.1]  Id: 7",
        "# Query_time: 0.000001  Lock_time: 0.0000019 Rows_sent: 0  Rows_examined: 0",
        "SELECT 1;",
    ]);
    let entries = parse_log(&log).unwrap();
    assert_eq!("app-user", entries[0].user);
    assert_eq!("dbhost", entries[0].host);
    assert_eq!(1, entries[0].query_time.whole_microseconds());
    assert_eq!(1, entries[0].lock_time.whole_microseconds());
}

#[test]
fn partial_record_at_end_is_dropped() {
    let mut ls: Vec<&str> = HEADER.to_vec();
    ls.extend_from_slice(&["SELECT 1;"]);
    ls.extend_from_slice(&HEADER);
    ls.extend_from_slice(&["SELECT 2"]);
    let entries = parse_log(&lines(&ls)).unwrap();
    assert_eq!(1, entries.len());
    assert_eq!("SELECT 1;", entries[0].query);
}

#[test]
fn malformed_user_line_is_fatal() {
    let log = lines(&[
        "noise",
        "# Time: 2019-07-30T13:01:34Z",
        "# User: nobody",
        "# Query_time: 0.5  Lock_time: 0 Rows_sent: 1  Rows_examined: 2",
        "SELECT 1;",
    ]);
    assert_eq!(Err(LogFormatError::MalformedUserHost { line: 3 }), parse_log(&log).map(|v| v.len()));
}

#[test]
fn malformed_metrics_line_is_fatal() {
    let log = lines(&[
        "# Time: 2019-07-30T13:01:34Z",
        "# User@Host: foo[bar] @  [127.0.0.1]  Id: 1337",
        "# Query_time: 1.2.3  Lock_time: 0 Rows_sent: 1  Rows_examined: 2",
        "SELECT 1;",
    ]);
    assert_eq!(Err(LogFormatError::MalformedMetrics { line: 3 }), parse_log(&log).map(|v| v.len()));
}

#[test]
fn malformed_time_line_is_fatal() {
    let log = lines(&["# Time: yesterday", "# User@Host: foo[bar] @  [127.0.0.1]"]);
    assert_eq!(Err(LogFormatError::MalformedTime { line: 1 }), parse_log(&log).map(|v| v.len()));
}

#[test]
fn crlf_line_endings_are_accepted() {
    let log = "# Time: 2019-07-30T13:01:34Z\r\n# User@Host: foo[bar] @  [127.0.0.1]  Id: 1\r\n# Query_time: 0.5  Lock_time: 0 Rows_sent: 1  Rows_examined: 2\r\nSELECT 1;\r\n";
    let entries = parse_log(log).unwrap();
    assert_eq!("SELECT 1;", entries[0].query);
}

#[test]
fn unicode_user_and_host_names_are_read() {
    let log = lines(&[
        "# Time: 2019-07-30T13:01:34Z",
        "# User@Host: josé[josé] @ hôte [10.0.0.1]  Id: 7",
        "# Query_time: 0.5\u{a0} Lock_time: 0 Rows_sent: 1  Rows_examined: 2",
        "SELECT 1;",
    ]);
    let entries = parse_log(&log).unwrap();
    assert_eq!("josé", entries[0].user);
    assert_eq!("hôte", entries[0].host);
}

#[test]
fn whitespace_runs_with_tabs_become_one_space() {
    let mut ls: Vec<&str> = HEADER.to_vec();
    ls.extend_from_slice(&["SELECT a\t\tb,\tc \td\t e FROM t;"]);
    let entries = parse_log(&lines(&ls)).unwrap();
    assert_eq!("SELECT a b, c d e FROM t;", entries[0].query);
}

#[test]
fn records_from_lines_and_their_times() {
    let ls: Vec<String> = vec![
        "noise".to_string(),
        "# Time: whenever".to_string(),
        "# User@Host: foo[bar] @  [127.0.0.1]  Id: 1".to_string(),
        "# Query_time: 0.25  Lock_time: 0 Rows_sent: 1  Rows_examined: 2".to_string(),
        "SELECT 1;".to_string(),
    ];
    let t = Timestamp { unix_nanos: 42, offset_seconds: 3600 };
    let times = vec![None, Some(t), None, None, None];
    let entries = parse_timed_lines(&ls, &times).unwrap();
    assert_eq!(1, entries.len());
    assert_eq!(t, entries[0].timestamp);
    assert_eq!(250_000, entries[0].query_time.whole_microseconds());
    let no_times = vec![None; 5];
    assert_eq!(
        Err(LogFormatError::MalformedTime { line: 2 }),
        parse_timed_lines(&ls, &no_times).map(|v| v.len())
    );
}
