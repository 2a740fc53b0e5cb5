//! The record extractor: a state machine over the lines of a slow-query log.
use vstd::prelude::*;
use crate::duration::Duration;
use crate::number::{copy_range, count_value, parse_count, parse_seconds, seconds_to_micros};
use crate::scan::{
    has_at, is_digit, is_digit_char, is_space, is_space_char, lemma_run_end, lit_at,
    run_end, scan_run, starts_with, take_lit, CharClass,
};
use crate::text::{chars_of, push_char, string_of};
use crate::timestamp::{iso8601_instant, parse_iso8601, Timestamp};

verus! {

/// One executed query, as the log records it.
#[derive(Clone, Debug)]
pub struct LogEntry {
    pub timestamp: Timestamp,
    pub user: String,
    pub host: String,
    pub query_time: Duration,
    pub lock_time: Duration,
    pub rows_sent: i32,
    pub rows_examined: i32,
    pub query: String,
}

/// The values of a `LogEntry`.
pub struct EntryView {
    pub timestamp: (int, int),
    pub user: Seq<char>,
    pub host: Seq<char>,
    pub query_time: nat,
    pub lock_time: nat,
    pub rows_sent: int,
    pub rows_examined: int,
    pub query: Seq<char>,
}

impl View for LogEntry {
    type V = EntryView;

    open spec fn view(&self) -> EntryView {
        EntryView {
            timestamp: (self.timestamp.unix_nanos as int, self.timestamp.offset_seconds as int),
            user: self.user@,
            host: self.host@,
            query_time: self.query_time@,
            lock_time: self.lock_time@,
            rows_sent: self.rows_sent as int,
            rows_examined: self.rows_examined as int,
            query: self.query@,
        }
    }
}

/// A header line that does not have the required form, once a record has begun.
/// `line` counts the log's lines from 1.
#[derive(Clone, Copy, Debug, PartialEq, Eq, Structural)]
pub enum LogFormatError {
    /// The `# Time:` line holds no ISO 8601 date-time.
    MalformedTime { line: usize },
    /// The line after the time is not a `# User@Host:` line.
    MalformedUserHost { line: usize },
    /// The line after the user is not a `# Query_time:` line.
    MalformedMetrics { line: usize },
}

/// The fields of a `# Query_time:` line.
pub struct Metrics {
    pub query_time: nat,
    pub lock_time: nat,
    pub rows_sent: int,
    pub rows_examined: int,
}

/// Whether a line opens a record.
pub open spec fn is_time_header(l: Seq<char>) -> bool {
    starts_with(l, "# Time"@)
}

/// The date-time token of a `# Time: <token>` line.
pub open spec fn time_token(l: Seq<char>) -> Option<Seq<char>> {
    let a = "# Time: "@.len() as int;
    let b = run_end(l, a, CharClass::NotSpace);
    if starts_with(l, "# Time: "@) && b > a {
        Some(l.subrange(a, b))
    } else {
        None
    }
}

/// The instant a `# Time:` line gives.
pub open spec fn header_time(l: Seq<char>) -> Option<(int, int)> {
    match time_token(l) {
        Some(tok) => iso8601_instant(tok),
        None => None,
    }
}

/// User and host of `# User@Host: <user>[<name>] @ <host> [<ip>]`, the host being
/// `<host>` where it is not empty and `<ip>` otherwise.
pub open spec fn user_host(l: Seq<char>) -> Option<(Seq<char>, Seq<char>)> {
    let a = "# User@Host: "@.len() as int;
    let b = run_end(l, a, CharClass::WordOrDash);
    let c = run_end(l, b + 1, CharClass::NotCloseBracket);
    let d = c + 1 + " @ "@.len();
    let e = run_end(l, d, CharClass::Word);
    let f = e + " ["@.len();
    let g = run_end(l, f, CharClass::DigitOrDot);
    if starts_with(l, "# User@Host: "@) && b > a && b < l.len() && l[b] == '[' && c > b + 1
        && c < l.len() && l[c] == ']' && has_at(l, c + 1, " @ "@) && has_at(l, e, " ["@) && g
        < l.len() && l[g] == ']' {
        Some(
            (
                l.subrange(a, b),
                if e > d {
                    l.subrange(d, e)
                } else {
                    l.subrange(f, g)
                },
            ),
        )
    } else {
        None
    }
}

/// The fields of
/// `# Query_time: <s>  Lock_time: <s>  Rows_sent: <n>  Rows_examined: <n>`.
pub open spec fn metrics(l: Seq<char>) -> Option<Metrics> {
    let a = "# Query_time: "@.len() as int;
    let b = run_end(l, a, CharClass::DigitOrDot);
    let c = run_end(l, b, CharClass::Space);
    let d = c + "Lock_time: "@.len();
    let e = run_end(l, d, CharClass::DigitOrDot);
    let f = run_end(l, e, CharClass::Space);
    let g = f + "Rows_sent: "@.len();
    let h = run_end(l, g, CharClass::Digit);
    let k = run_end(l, h, CharClass::Space);
    let m = k + "Rows_examined: "@.len();
    let n = run_end(l, m, CharClass::Digit);
    let qt = seconds_to_micros(l.subrange(a, b));
    let lt = seconds_to_micros(l.subrange(d, e));
    let rs = count_value(l.subrange(g, h));
    let re = count_value(l.subrange(m, n));
    if starts_with(l, "# Query_time: "@) && b > a && c > b && has_at(l, c, "Lock_time: "@) && e
        > d && f > e && has_at(l, f, "Rows_sent: "@) && h > g && k > h && has_at(
        l,
        k,
        "Rows_examined: "@,
    ) && n > m {
        match (qt, lt, rs, re) {
            (Some(qt), Some(lt), Some(rs), Some(re)) => Some(
                Metrics { query_time: qt, lock_time: lt, rows_sent: rs, rows_examined: re },
            ),
            _ => None,
        }
    } else {
        None
    }
}

/// Reads the date-time of a `# Time:` line.
fn parse_time_line(l: &Vec<char>) -> (r: Option<Timestamp>)
    ensures
        r matches Some(t) ==> header_time(l@) == Some(
            (t.unix_nanos as int, t.offset_seconds as int),
        ),
        r is None ==> header_time(l@) is None,
{
    let a = match take_lit(l, 0, "# Time: ") {
        Some(a) => a,
        None => {
            return None;
        },
    };
    if a > l.len() {
        return None;
    }
    let b = scan_run(l, a, CharClass::NotSpace);
    if b == a {
        return None;
    }
    let token = string_of(l, a, b);
    parse_iso8601(token.as_str())
}

/// Reads user and host from a `# User@Host:` line.
fn parse_user_line(l: &Vec<char>) -> (r: Option<(String, String)>)
    ensures
        r matches Some(uh) ==> user_host(l@) == Some((uh.0@, uh.1@)),
        r is None ==> user_host(l@) is None,
{
    let a = match take_lit(l, 0, "# User@Host: ") {
        Some(a) => a,
        None => {
            return None;
        },
    };
    if a > l.len() {
        return None;
    }
    let b = scan_run(l, a, CharClass::WordOrDash);
    if b == a || b >= l.len() || l[b] != '[' {
        return None;
    }
    let c = scan_run(l, b + 1, CharClass::NotCloseBracket);
    if c == b + 1 || c >= l.len() || l[c] != ']' {
        return None;
    }
    let d = match take_lit(l, c + 1, " @ ") {
        Some(d) => d,
        None => {
            return None;
        },
    };
    if d > l.len() {
        return None;
    }
    let e = scan_run(l, d, CharClass::Word);
    let f = match take_lit(l, e, " [") {
        Some(f) => f,
        None => {
            return None;
        },
    };
    if f > l.len() {
        return None;
    }
    let g = scan_run(l, f, CharClass::DigitOrDot);
    if g >= l.len() || l[g] != ']' {
        return None;
    }
    let user = string_of(l, a, b);
    let host = if e > d {
        string_of(l, d, e)
    } else {
        string_of(l, f, g)
    };
    Some((user, host))
}

/// The exec form of `Metrics`.
struct MetricValues {
    query_time: i64,
    lock_time: i64,
    rows_sent: i32,
    rows_examined: i32,
}

/// Reads the fields of a `# Query_time:` line.
fn parse_metrics_line(l: &Vec<char>) -> (r: Option<MetricValues>)
    ensures
        r matches Some(m) ==> metrics(l@) matches Some(v) && v.query_time == m.query_time
            && v.lock_time == m.lock_time && v.rows_sent == m.rows_sent && v.rows_examined
            == m.rows_examined,
        r is None ==> metrics(l@) is None,
{
    let n = l.len();
    let a = match take_lit(l, 0, "# Query_time: ") {
        Some(a) => a,
        None => {
            return None;
        },
    };
    if a > n {
        return None;
    }
    let b = scan_run(l, a, CharClass::DigitOrDot);
    let c = scan_run(l, b, CharClass::Space);
    if b == a || c == b {
        return None;
    }
    let d = match take_lit(l, c, "Lock_time: ") {
        Some(d) => d,
        None => {
            return None;
        },
    };
    if d > n {
        return None;
    }
    let e = scan_run(l, d, CharClass::DigitOrDot);
    let f = scan_run(l, e, CharClass::Space);
    if e == d || f == e {
        return None;
    }
    let g = match take_lit(l, f, "Rows_sent: ") {
        Some(g) => g,
        None => {
            return None;
        },
    };
    if g > n {
        return None;
    }
    let h = scan_run(l, g, CharClass::Digit);
    let k = scan_run(l, h, CharClass::Space);
    if h == g || k == h {
        return None;
    }
    let m = match take_lit(l, k, "Rows_examined: ") {
        Some(m) => m,
        None => {
            return None;
        },
    };
    if m > n {
        return None;
    }
    let end = scan_run(l, m, CharClass::Digit);
    if end == m {
        return None;
    }
    let qt = match parse_seconds(&copy_range(l, a, b)) {
        Some(v) => v,
        None => {
            return None;
        },
    };
    let lt = match parse_seconds(&copy_range(l, d, e)) {
        Some(v) => v,
        None => {
            return None;
        },
    };
    let rs = match parse_count(&copy_range(l, g, h)) {
        Some(v) => v,
        None => {
            return None;
        },
    };
    let re = match parse_count(&copy_range(l, m, end)) {
        Some(v) => v,
        None => {
            return None;
        },
    };
    Some(MetricValues { query_time: qt, lock_time: lt, rows_sent: rs, rows_examined: re })
}

/// Whitespace in a query, from position `i`: every run of whitespace that holds a
/// tab or is two or more characters long becomes one space.
pub open spec fn collapse_from(s: Seq<char>, i: int) -> Seq<char>
    decreases s.len() - i, 0int,
{
    if i < 0 || i >= s.len() {
        Seq::empty()
    } else if s[i] == '\t' {
        seq![' '] + skip_space(s, i + 1)
    } else if is_space(s[i]) && i + 1 < s.len() && is_space(s[i + 1]) {
        seq![' '] + skip_space(s, i + 2)
    } else {
        seq![s[i]] + collapse_from(s, i + 1)
    }
}

/// What `collapse_from` gives after the rest of a whitespace run starting at `i`.
pub open spec fn skip_space(s: Seq<char>, i: int) -> Seq<char>
    decreases s.len() - i, 1int,
{
    if 0 <= i < s.len() && is_space(s[i]) {
        skip_space(s, i + 1)
    } else {
        collapse_from(s, i)
    }
}

/// A query with its whitespace runs collapsed.
pub open spec fn collapse(s: Seq<char>) -> Seq<char> {
    collapse_from(s, 0)
}

fn collapse_whitespace(s: &Vec<char>) -> (r: String)
    ensures
        r@ == collapse(s@),
{
    let mut out = String::new();
    let mut i: usize = 0;
    let mut skipping = false;
    while i < s.len()
        invariant
            i <= s@.len(),
            skipping ==> out@ + skip_space(s@, i as int) == collapse(s@),
            !skipping ==> out@ + collapse_from(s@, i as int) == collapse(s@),
        decreases s@.len() - i,
    {
        let c = s[i];
        if skipping && is_space_char(c) {
            i = i + 1;
        } else if c == '\t' {
            push_char(&mut out, ' ');
            assert(out@ + skip_space(s@, i + 1) =~= collapse(s@));
            skipping = true;
            i = i + 1;
        } else if is_space_char(c) && i + 1 < s.len() && is_space_char(s[i + 1]) {
            push_char(&mut out, ' ');
            assert(out@ + skip_space(s@, i + 2) =~= collapse(s@));
            skipping = true;
            i = i + 2;
        } else {
            if skipping {
                assert(skip_space(s@, i as int) == collapse_from(s@, i as int));
            }
            assert(collapse_from(s@, i as int) == seq![c] + collapse_from(s@, i + 1));
            push_char(&mut out, c);
            assert(out@ + collapse_from(s@, i + 1) =~= collapse(s@));
            skipping = false;
            i = i + 1;
        }
    }
    assert(collapse_from(s@, i as int) =~= Seq::<char>::empty());
    assert(skip_space(s@, i as int) =~= Seq::<char>::empty());
    assert(out@ =~= collapse(s@));
    out
}

/// No tab, and no two whitespace characters side by side.
pub open spec fn is_collapsed(t: Seq<char>) -> bool {
    &&& forall|j: int| 0 <= j < t.len() ==> t[j] != '\t'
    &&& forall|j: int| 0 <= j < t.len() - 1 ==> !(is_space(#[trigger] t[j]) && is_space(t[j + 1]))
}

proof fn lemma_cons_collapsed(x: char, t: Seq<char>)
    requires
        is_collapsed(t),
        x != '\t',
        t.len() > 0 ==> !(is_space(x) && is_space(t[0])),
    ensures
        is_collapsed(seq![x] + t),
        (seq![x] + t)[0] == x,
{
    let u = seq![x] + t;
    assert forall|j: int| 0 <= j < u.len() implies u[j] != '\t' by {
        if j > 0 {
            assert(u[j] == t[j - 1]);
        }
    }
    assert forall|j: int| 0 <= j < u.len() - 1 implies !(is_space(#[trigger] u[j]) && is_space(u[j + 1])) by {
        if j > 0 {
            assert(u[j] == t[j - 1]);
            assert(u[j + 1] == t[j]);
        } else {
            assert(u[1] == t[0]);
        }
    }
}

proof fn lemma_collapse_from(s: Seq<char>, i: int)
    ensures
        is_collapsed(collapse_from(s, i)),
        0 <= i < s.len() && !is_space(s[i]) ==> collapse_from(s, i)[0] == s[i],
    decreases s.len() - i, 0int,
{
    if 0 <= i < s.len() {
        if s[i] == '\t' {
            lemma_skip_space(s, i + 1);
            lemma_cons_collapsed(' ', skip_space(s, i + 1));
        } else if is_space(s[i]) && i + 1 < s.len() && is_space(s[i + 1]) {
            lemma_skip_space(s, i + 2);
            lemma_cons_collapsed(' ', skip_space(s, i + 2));
        } else {
            lemma_collapse_from(s, i + 1);
            lemma_cons_collapsed(s[i], collapse_from(s, i + 1));
        }
    }
}

proof fn lemma_skip_space(s: Seq<char>, i: int)
    ensures
        is_collapsed(skip_space(s, i)),
        skip_space(s, i).len() > 0 ==> !is_space(skip_space(s, i)[0]),
    decreases s.len() - i, 1int,
{
    if 0 <= i < s.len() && is_space(s[i]) {
        lemma_skip_space(s, i + 1);
    } else {
        lemma_collapse_from(s, i);
    }
}

/// A collapsed query holds no tab and no two whitespace characters side by side.
pub proof fn lemma_collapse_is_collapsed(s: Seq<char>)
    ensures
        is_collapsed(collapse(s)),
{
    lemma_collapse_from(s, 0);
}

/// A line of the preamble between the header and the query.
pub open spec fn is_preamble(l: Seq<char>) -> bool {
    starts_with(l, "SET timestamp"@) || starts_with(l, "use"@)
}

/// The first line at or after `i` that is not preamble.
pub open spec fn preamble_end(lines: Seq<Seq<char>>, i: int) -> int
    decreases lines.len() - i,
{
    if 0 <= i < lines.len() && is_preamble(lines[i]) {
        preamble_end(lines, i + 1)
    } else {
        i
    }
}

/// Whether a line ends a statement.
pub open spec fn ends_statement(l: Seq<char>) -> bool {
    l.len() > 0 && l.last() == ';'
}

/// The first line at or after `i` that ends a statement.
pub open spec fn statement_end(lines: Seq<Seq<char>>, i: int) -> Option<int>
    decreases lines.len() - i,
{
    if i < 0 || i >= lines.len() {
        None
    } else if ends_statement(lines[i]) {
        Some(i)
    } else {
        statement_end(lines, i + 1)
    }
}

/// What joins two lines of one query: nothing between two digits, else a space.
pub open spec fn separator(prev: Seq<char>, next: Seq<char>) -> Seq<char> {
    if prev.len() > 0 && is_digit(prev.last()) && next.len() > 0 && is_digit(next[0]) {
        Seq::empty()
    } else {
        seq![' ']
    }
}

/// Lines `q..=j` joined into one query.
pub open spec fn joined(lines: Seq<Seq<char>>, q: int, j: int) -> Seq<char>
    decreases j - q,
{
    if j <= q {
        lines[q]
    } else {
        let p = joined(lines, q, j - 1);
        p + separator(p, lines[j]) + lines[j]
    }
}

/// What reading one record from a `# Time` line on gives.
pub enum BlockOutcome {
    /// The record, and the line after it.
    Record(EntryView, int),
    /// The log ends before the record is complete.
    Truncated,
    /// A header line is malformed.
    Fatal(LogFormatError),
}

/// The instant that each line gives as a `# Time` line.
pub open spec fn header_times(lines: Seq<Seq<char>>) -> Seq<Option<(int, int)>> {
    Seq::new(lines.len(), |k: int| header_time(lines[k]))
}

/// The record whose `# Time` line is line `i`.
pub open spec fn block_outcome(lines: Seq<Seq<char>>, i: int) -> BlockOutcome {
    block_outcome_timed(lines, header_times(lines), i)
}

/// The record whose `# Time` line is line `i`, where `times[i]` is the instant that
/// line gives, if any.
pub open spec fn block_outcome_timed(
    lines: Seq<Seq<char>>,
    times: Seq<Option<(int, int)>>,
    i: int,
) -> BlockOutcome {
    match times[i] {
        None => BlockOutcome::Fatal(LogFormatError::MalformedTime { line: (i + 1) as usize }),
        Some(ts) => if i + 1 >= lines.len() {
            BlockOutcome::Truncated
        } else {
            match user_host(lines[i + 1]) {
                None => BlockOutcome::Fatal(
                    LogFormatError::MalformedUserHost { line: (i + 2) as usize },
                ),
                Some(uh) => if i + 2 >= lines.len() {
                    BlockOutcome::Truncated
                } else {
                    match metrics(lines[i + 2]) {
                        None => BlockOutcome::Fatal(
                            LogFormatError::MalformedMetrics { line: (i + 3) as usize },
                        ),
                        Some(m) => {
                            let q = preamble_end(lines, i + 3);
                            match statement_end(lines, q) {
                                None => BlockOutcome::Truncated,
                                Some(j) => BlockOutcome::Record(
                                    EntryView {
                                        timestamp: ts,
                                        user: uh.0,
                                        host: uh.1,
                                        query_time: m.query_time,
                                        lock_time: m.lock_time,
                                        rows_sent: m.rows_sent,
                                        rows_examined: m.rows_examined,
                                        query: collapse(joined(lines, q, j)),
                                    },
                                    j + 1,
                                ),
                            }
                        },
                    }
                },
            }
        },
    }
}

/// The records of the log from line `i` on: lines before a `# Time` line are
/// skipped, a record cut short by the end of the log is dropped, and a malformed
/// header line fails the whole log.
pub open spec fn extract_from(lines: Seq<Seq<char>>, i: int) -> Result<
    Seq<EntryView>,
    LogFormatError,
> {
    extract_timed(lines, header_times(lines), i)
}

/// `extract_from`, where `times[k]` is the instant that line `k` gives as a
/// `# Time` line, if any.
pub open spec fn extract_timed(lines: Seq<Seq<char>>, times: Seq<Option<(int, int)>>, i: int) -> Result<
    Seq<EntryView>,
    LogFormatError,
>
    decreases lines.len() - i,
{
    if i < 0 || i >= lines.len() {
        Ok(Seq::empty())
    } else if !is_time_header(lines[i]) {
        extract_timed(lines, times, i + 1)
    } else {
        match block_outcome_timed(lines, times, i) {
            BlockOutcome::Record(e, j) => if i < j <= lines.len() {
                match extract_timed(lines, times, j) {
                    Ok(rest) => Ok(seq![e] + rest),
                    Err(x) => Err(x),
                }
            } else {
                Ok(Seq::empty())
            },
            BlockOutcome::Truncated => Ok(Seq::empty()),
            BlockOutcome::Fatal(x) => Err(x),
        }
    }
}

pub open spec fn lines_view(lines: Seq<Vec<char>>) -> Seq<Seq<char>> {
    lines.map_values(|l: Vec<char>| l@)
}

pub open spec fn entries_view(entries: Seq<LogEntry>) -> Seq<EntryView> {
    entries.map_values(|e: LogEntry| e@)
}

/// The exec form of `BlockOutcome`.
enum ParsedBlock {
    Record(LogEntry, usize),
    Truncated,
    Fatal(LogFormatError),
}

spec fn parsed_view(p: ParsedBlock) -> BlockOutcome {
    match p {
        ParsedBlock::Record(e, j) => BlockOutcome::Record(e@, j as int),
        ParsedBlock::Truncated => BlockOutcome::Truncated,
        ParsedBlock::Fatal(x) => BlockOutcome::Fatal(x),
    }
}

fn append_chars(buf: &mut Vec<char>, src: &Vec<char>)
    ensures
        final(buf)@ == old(buf)@ + src@,
{
    let mut i: usize = 0;
    while i < src.len()
        invariant
            i <= src@.len(),
            buf@ == old(buf)@ + src@.subrange(0, i as int),
        decreases src@.len() - i,
    {
        buf.push(src[i]);
        i = i + 1;
        assert(buf@ =~= old(buf)@ + src@.subrange(0, i as int));
    }
    assert(src@.subrange(0, i as int) =~= src@);
}

fn is_preamble_line(l: &Vec<char>) -> (r: bool)
    ensures
        r == is_preamble(l@),
{
    lit_at(l, 0, "SET timestamp") || lit_at(l, 0, "use")
}

fn ends_statement_line(l: &Vec<char>) -> (r: bool)
    ensures
        r == ends_statement(l@),
{
    l.len() > 0 && l[l.len() - 1] == ';'
}

/// Reads the query of a record: lines `q..` up to the one that ends the statement.
fn read_query(lines: &Vec<Vec<char>>, q: usize) -> (r: Option<(String, usize)>)
    requires
        q < lines@.len(),
    ensures
        r matches Some(p) ==> statement_end(lines_view(lines@), q as int) == Some(p.1 as int)
            && p.0@ == collapse(joined(lines_view(lines@), q as int, p.1 as int)),
        r is None ==> statement_end(lines_view(lines@), q as int) is None,
{
    let ghost lv = lines_view(lines@);
    let n = lines.len();
    let mut buf = copy_range(&lines[q], 0, lines[q].len());
    assert(lines[q as int]@.subrange(0, lines[q as int]@.len() as int) =~= lines[q as int]@);
    let mut k = q;
    while !ends_statement_line(&lines[k])
        invariant
            lv == lines_view(lines@),
            n == lines@.len(),
            q <= k < n,
            buf@ == joined(lv, q as int, k as int),
            statement_end(lv, q as int) == statement_end(lv, k as int),
        decreases n - k,
    {
        k = k + 1;
        if k >= n {
            return None;
        }
        let next = &lines[k];
        assert(next@ == lv[k as int]);
        if !(buf.len() > 0 && is_digit_char(buf[buf.len() - 1]) && next.len() > 0
            && is_digit_char(next[0])) {
            buf.push(' ');
        }
        append_chars(&mut buf, next);
        assert(buf@ =~= joined(lv, q as int, k as int));
    }
    let query = collapse_whitespace(&buf);
    Some((query, k))
}

proof fn lemma_statement_end_bounds(lines: Seq<Seq<char>>, i: int)
    ensures
        statement_end(lines, i) matches Some(j) ==> i <= j < lines.len(),
    decreases lines.len() - i,
{
    if 0 <= i < lines.len() && !ends_statement(lines[i]) {
        lemma_statement_end_bounds(lines, i + 1);
    }
}

pub open spec fn time_view(t: Option<Timestamp>) -> Option<(int, int)> {
    match t {
        Some(t) => Some((t.unix_nanos as int, t.offset_seconds as int)),
        None => None,
    }
}

pub open spec fn times_view(times: Seq<Option<Timestamp>>) -> Seq<Option<(int, int)>> {
    times.map_values(|t: Option<Timestamp>| time_view(t))
}

/// Reads the record whose `# Time` line is line `i`.
fn parse_block(lines: &Vec<Vec<char>>, times: &Vec<Option<Timestamp>>, i: usize) -> (r: ParsedBlock)
    requires
        i < lines@.len(),
        times@.len() == lines@.len(),
    ensures
        parsed_view(r) == block_outcome_timed(lines_view(lines@), times_view(times@), i as int),
{
    let ghost lv = lines_view(lines@);
    let n = lines.len();
    let timestamp = match times[i] {
        Some(t) => t,
        None => {
            return ParsedBlock::Fatal(LogFormatError::MalformedTime { line: i + 1 });
        },
    };
    if i + 1 >= n {
        return ParsedBlock::Truncated;
    }
    let (user, host) = match parse_user_line(&lines[i + 1]) {
        Some(uh) => uh,
        None => {
            return ParsedBlock::Fatal(LogFormatError::MalformedUserHost { line: i + 2 });
        },
    };
    if i + 2 >= n {
        return ParsedBlock::Truncated;
    }
    let m = match parse_metrics_line(&lines[i + 2]) {
        Some(m) => m,
        None => {
            return ParsedBlock::Fatal(LogFormatError::MalformedMetrics { line: i + 3 });
        },
    };
    let mut q = i + 3;
    while q < n && is_preamble_line(&lines[q])
        invariant
            lv == lines_view(lines@),
            n == lines@.len(),
            i + 3 <= q <= n,
            preamble_end(lv, q as int) == preamble_end(lv, i + 3),
        decreases n - q,
    {
        q = q + 1;
    }
    if q >= n {
        return ParsedBlock::Truncated;
    }
    match read_query(lines, q) {
        None => ParsedBlock::Truncated,
        Some((query, j)) => {
            proof {
                lemma_statement_end_bounds(lv, q as int);
            }
            let entry = LogEntry {
                timestamp,
                user,
                host,
                query_time: Duration::microseconds(m.query_time),
                lock_time: Duration::microseconds(m.lock_time),
                rows_sent: m.rows_sent,
                rows_examined: m.rows_examined,
                query,
            };
            ParsedBlock::Record(entry, j + 1)
        },
    }
}

proof fn lemma_block_advances(lines: Seq<Seq<char>>, times: Seq<Option<(int, int)>>, i: int)
    requires
        0 <= i < lines.len(),
        times.len() == lines.len(),
    ensures
        block_outcome_timed(lines, times, i) matches BlockOutcome::Record(_, j) ==> i < j
            <= lines.len(),
{
    lemma_statement_end_bounds(lines, preamble_end(lines, i + 3));
    lemma_preamble_end_bounds(lines, i + 3);
}

proof fn lemma_preamble_end_bounds(lines: Seq<Seq<char>>, i: int)
    ensures
        preamble_end(lines, i) >= i,
    decreases lines.len() - i,
{
    if 0 <= i < lines.len() && is_preamble(lines[i]) {
        lemma_preamble_end_bounds(lines, i + 1);
    }
}

/// The result of `extract_from` with `done` in front of what it finds.
pub open spec fn after(done: Seq<EntryView>, r: Result<Seq<EntryView>, LogFormatError>) -> Result<
    Seq<EntryView>,
    LogFormatError,
> {
    match r {
        Ok(rest) => Ok(done + rest),
        Err(x) => Err(x),
    }
}

/// Extracts the records of a log given as lines and the instants of its `# Time` lines.
fn parse_lines(lines: &Vec<Vec<char>>, times: &Vec<Option<Timestamp>>) -> (r: Result<
    Vec<LogEntry>,
    LogFormatError,
>)
    requires
        times@.len() == lines@.len(),
    ensures
        match r {
            Ok(v) => extract_timed(lines_view(lines@), times_view(times@), 0) == Ok::<
                Seq<EntryView>,
                LogFormatError,
            >(entries_view(v@)),
            Err(x) => extract_timed(lines_view(lines@), times_view(times@), 0) == Err::<
                Seq<EntryView>,
                LogFormatError,
            >(x),
        },
{
    let ghost lv = lines_view(lines@);
    let ghost tv = times_view(times@);
    let n = lines.len();
    let mut out: Vec<LogEntry> = Vec::new();
    let mut i: usize = 0;
    while i < n
        invariant
            lv == lines_view(lines@),
            n == lines@.len(),
            i <= n,
            tv == times_view(times@),
            times@.len() == n,
            extract_timed(lv, tv, 0) == after(entries_view(out@), extract_timed(lv, tv, i as int)),
        decreases n - i,
    {
        assert(lines[i as int]@ == lv[i as int]);
        if !lit_at(&lines[i], 0, "# Time") {
            i = i + 1;
        } else {
            proof {
                lemma_block_advances(lv, tv, i as int);
            }
            match parse_block(lines, times, i) {
                ParsedBlock::Record(e, j) => {
                    let ghost before = entries_view(out@);
                    out.push(e);
                    assert(entries_view(out@) =~= before + seq![e@]);
                    proof {
                        match extract_timed(lv, tv, j as int) {
                            Ok(rest) => {
                                assert(before + (seq![e@] + rest) =~= entries_view(out@) + rest);
                            },
                            Err(_) => {},
                        }
                    }
                    i = j;
                },
                ParsedBlock::Truncated => {
                    assert(entries_view(out@) + Seq::empty() =~= entries_view(out@));
                    return Ok(out);
                },
                ParsedBlock::Fatal(x) => {
                    return Err(x);
                },
            }
        }
    }
    assert(entries_view(out@) + Seq::empty() =~= entries_view(out@));
    Ok(out)
}

/// A line without the carriage return that may end it.
pub open spec fn strip_cr(l: Seq<char>) -> Seq<char> {
    if l.len() > 0 && l.last() == '\r' {
        l.drop_last()
    } else {
        l
    }
}

/// The lines of `s` from position `i`: split at line feeds, each without a trailing
/// carriage return, and no empty line after a final line feed.
pub open spec fn lines_from(s: Seq<char>, i: int) -> Seq<Seq<char>>
    decreases s.len() - i,
{
    if i < 0 || i >= s.len() {
        Seq::empty()
    } else {
        let e = run_end(s, i, CharClass::NotNewline);
        if e >= s.len() {
            seq![strip_cr(s.subrange(i, e))]
        } else if e >= i {
            seq![strip_cr(s.subrange(i, e))] + lines_from(s, e + 1)
        } else {
            Seq::empty()
        }
    }
}

/// The lines of a log.
pub open spec fn log_lines(s: Seq<char>) -> Seq<Seq<char>> {
    lines_from(s, 0)
}

/// The records of a log, or the first malformed header line.
pub open spec fn extract(s: Seq<char>) -> Result<Seq<EntryView>, LogFormatError> {
    extract_from(log_lines(s), 0)
}

fn split_lines(cs: &Vec<char>) -> (r: Vec<Vec<char>>)
    ensures
        lines_view(r@) == log_lines(cs@),
{
    let n = cs.len();
    let mut out: Vec<Vec<char>> = Vec::new();
    let mut i: usize = 0;
    while i < n
        invariant
            n == cs@.len(),
            i <= n,
            lines_view(out@) + lines_from(cs@, i as int) == log_lines(cs@),
        decreases n - i,
    {
        let e = scan_run(cs, i, CharClass::NotNewline);
        proof {
            lemma_run_end(cs@, i as int, CharClass::NotNewline);
        }
        let end = if e > i && cs[e - 1] == '\r' {
            e - 1
        } else {
            e
        };
        let line = copy_range(cs, i, end);
        assert(line@ == strip_cr(cs@.subrange(i as int, e as int))) by {
            if e > i && cs@[e - 1] == '\r' {
                assert(cs@.subrange(i as int, e as int).drop_last() =~= line@);
            }
        }
        let ghost before = lines_view(out@);
        out.push(line);
        assert(lines_view(out@) =~= before + seq![line@]);
        if e >= n {
            assert(lines_view(out@) =~= log_lines(cs@));
            return out;
        }
        assert(lines_view(out@) + lines_from(cs@, e + 1) =~= before + lines_from(cs@, i as int));
        i = e + 1;
    }
    assert(lines_view(out@) + lines_from(cs@, i as int) =~= lines_view(out@));
    out
}

/// Extracts the records of a slow-query log.
pub fn parse_log(log: &str) -> (r: Result<Vec<LogEntry>, LogFormatError>)
    ensures
        match r {
            Ok(v) => extract(log@) == Ok::<Seq<EntryView>, LogFormatError>(entries_view(v@)),
            Err(x) => extract(log@) == Err::<Seq<EntryView>, LogFormatError>(x),
        },
{
    let cs = chars_of(log);
    let lines = split_lines(&cs);
    let ghost lv = lines_view(lines@);
    let mut times: Vec<Option<Timestamp>> = Vec::new();
    let mut k: usize = 0;
    while k < lines.len()
        invariant
            k <= lines@.len(),
            lv == lines_view(lines@),
            times_view(times@) =~= header_times(lv).take(k as int),
        decreases lines@.len() - k,
    {
        let t = parse_time_line(&lines[k]);
        assert(lines[k as int]@ == lv[k as int]);
        assert(time_view(t) == header_times(lv)[k as int]);
        let ghost before = times@;
        times.push(t);
        assert(times@ =~= before.push(t));
        assert(times_view(times@) =~= times_view(before).push(time_view(t)));
        k = k + 1;
    }
    assert(times_view(times@) =~= header_times(lv));
    parse_lines(&lines, &times)
}

pub open spec fn strings_view(lines: Seq<String>) -> Seq<Seq<char>> {
    lines.map_values(|l: String| l@)
}

/// Extracts the records of a log given as its lines and, for each line, the instant
/// it gives as a `# Time` line (`None` where it gives none): what follows reading
/// the times.
pub fn parse_timed_lines(lines: &Vec<String>, times: &Vec<Option<Timestamp>>) -> (r: Result<
    Vec<LogEntry>,
    LogFormatError,
>)
    requires
        times@.len() == lines@.len(),
    ensures
        match r {
            Ok(v) => extract_timed(strings_view(lines@), times_view(times@), 0) == Ok::<
                Seq<EntryView>,
                LogFormatError,
            >(entries_view(v@)),
            Err(x) => extract_timed(strings_view(lines@), times_view(times@), 0) == Err::<
                Seq<EntryView>,
                LogFormatError,
            >(x),
        },
{
    let mut cs: Vec<Vec<char>> = Vec::new();
    let mut k: usize = 0;
    while k < lines.len()
        invariant
            k <= lines@.len(),
            lines_view(cs@) =~= strings_view(lines@).take(k as int),
        decreases lines@.len() - k,
    {
        let l = chars_of(lines[k].as_str());
        let ghost before = cs@;
        cs.push(l);
        assert(lines_view(cs@) =~= lines_view(before).push(lines@[k as int]@));
        k = k + 1;
    }
    assert(lines_view(cs@) =~= strings_view(lines@));
    parse_lines(&cs, times)
}

/// Lines `o..o + b.len()` of `lines` are the lines of `b`.
pub open spec fn window(lines: Seq<Seq<char>>, b: Seq<Seq<char>>, o: int) -> bool {
    0 <= o && o + b.len() <= lines.len() && forall|t: int| 0 <= t < b.len() ==> lines[o + t] == b[t]
}

proof fn lemma_preamble_window(lines: Seq<Seq<char>>, b: Seq<Seq<char>>, o: int, j: int)
    requires
        window(lines, b, o),
        0 <= j,
        preamble_end(b, j) < b.len(),
    ensures
        preamble_end(lines, o + j) == o + preamble_end(b, j),
    decreases b.len() - j,
{
    if j < b.len() {
        assert(lines[o + j] == b[j]);
        if is_preamble(b[j]) {
            lemma_preamble_window(lines, b, o, j + 1);
        }
    }
}

proof fn lemma_statement_window(lines: Seq<Seq<char>>, b: Seq<Seq<char>>, o: int, q: int)
    requires
        window(lines, b, o),
        0 <= q,
    ensures
        statement_end(b, q) matches Some(j) ==> statement_end(lines, o + q) == Some(o + j),
    decreases b.len() - q,
{
    if q < b.len() {
        assert(lines[o + q] == b[q]);
        if !ends_statement(b[q]) {
            lemma_statement_window(lines, b, o, q + 1);
        }
    }
}

proof fn lemma_joined_window(lines: Seq<Seq<char>>, b: Seq<Seq<char>>, o: int, q: int, j: int)
    requires
        window(lines, b, o),
        0 <= q <= j < b.len(),
    ensures
        joined(lines, o + q, o + j) == joined(b, q, j),
    decreases j - q,
{
    assert(lines[o + j] == b[j]);
    assert(lines[o + q] == b[q]);
    if j > q {
        lemma_joined_window(lines, b, o, q, j - 1);
    }
}

proof fn lemma_block_window(lines: Seq<Seq<char>>, b: Seq<Seq<char>>, o: int, e: EntryView)
    requires
        window(lines, b, o),
        block_outcome(b, 0) == BlockOutcome::Record(e, b.len() as int),
    ensures
        block_outcome(lines, o) == BlockOutcome::Record(e, o + b.len()),
{
    lemma_preamble_end_bounds(b, 3);
    let q = preamble_end(b, 3);
    lemma_statement_end_bounds(b, q);
    let j = statement_end(b, q)->0;
    assert(lines[o] == b[0]);
    assert(lines[o + 1] == b[1]);
    assert(lines[o + 2] == b[2]);
    lemma_preamble_window(lines, b, o, 3);
    lemma_statement_window(lines, b, o, q);
    lemma_joined_window(lines, b, o, q, j);
}

proof fn lemma_skip_noise(lines: Seq<Seq<char>>, o: int, noise: Seq<Seq<char>>)
    requires
        window(lines, noise, o),
        forall|t: int| 0 <= t < noise.len() ==> !is_time_header(#[trigger] noise[t]),
    ensures
        extract_from(lines, o) == extract_from(lines, o + noise.len()),
    decreases noise.len(),
{
    if noise.len() > 0 {
        assert(lines[o] == noise[0]);
        assert(!is_time_header(noise[0]));
        let rest = noise.drop_first();
        assert forall|t: int| 0 <= t < rest.len() implies lines[o + 1 + t] == rest[t] by {
            assert(lines[o + (t + 1)] == noise[t + 1]);
        }
        assert forall|t: int| 0 <= t < rest.len() implies !is_time_header(#[trigger] rest[t]) by {
            assert(!is_time_header(noise[t + 1]));
        }
        lemma_skip_noise(lines, o + 1, rest);
    }
}

/// A log of blocks, each preceded by its lines of noise.
pub open spec fn log_of(noise: Seq<Seq<Seq<char>>>, blocks: Seq<Seq<Seq<char>>>) -> Seq<Seq<char>>
    decreases blocks.len(),
{
    if blocks.len() == 0 || noise.len() == 0 {
        Seq::empty()
    } else {
        noise[0] + blocks[0] + log_of(noise.drop_first(), blocks.drop_first())
    }
}

/// A complete block: its first line opens a record, and reading it yields `e` and
/// ends exactly at its last line.
pub open spec fn block_yields(b: Seq<Seq<char>>, e: EntryView) -> bool {
    b.len() > 0 && is_time_header(b[0]) && block_outcome(b, 0) == BlockOutcome::Record(
        e,
        b.len() as int,
    )
}

/// Lines none of which opens a record.
pub open spec fn is_noise(n: Seq<Seq<char>>) -> bool {
    forall|t: int| 0 <= t < n.len() ==> !is_time_header(#[trigger] n[t])
}

#[verifier::rlimit(40)]
proof fn lemma_blocks_from(
    pre: Seq<Seq<char>>,
    noise: Seq<Seq<Seq<char>>>,
    blocks: Seq<Seq<Seq<char>>>,
    tail: Seq<Seq<char>>,
    records: Seq<EntryView>,
)
    requires
        noise.len() == blocks.len() == records.len(),
        forall|k: int| 0 <= k < noise.len() ==> is_noise(#[trigger] noise[k]),
        forall|k: int| 0 <= k < blocks.len() ==> block_yields(#[trigger] blocks[k], records[k]),
        is_noise(tail),
    ensures
        extract_from(pre + log_of(noise, blocks) + tail, pre.len() as int) == Ok::<
            Seq<EntryView>,
            LogFormatError,
        >(records),
    decreases blocks.len(),
{
    let lines = pre + log_of(noise, blocks) + tail;
    if blocks.len() == 0 {
        assert(lines =~= pre + tail);
        assert(window(lines, tail, pre.len() as int)) by {
            assert forall|t: int| 0 <= t < tail.len() implies lines[pre.len() + t] == tail[t] by {}
        }
        lemma_skip_noise(lines, pre.len() as int, tail);
        assert(records =~= Seq::<EntryView>::empty());
    } else {
        let n0 = noise[0];
        let b0 = blocks[0];
        assert(is_noise(n0));
        assert(block_yields(b0, records[0]));
        let rest = log_of(noise.drop_first(), blocks.drop_first());
        let pre2 = pre + n0 + b0;
        assert forall|k: int| 0 <= k < noise.drop_first().len() implies is_noise(
            #[trigger] noise.drop_first()[k],
        ) by {
            assert(is_noise(noise[k + 1]));
        }
        assert forall|k: int| 0 <= k < blocks.drop_first().len() implies block_yields(
            #[trigger] blocks.drop_first()[k],
            records.drop_first()[k],
        ) by {
            assert(block_yields(blocks[k + 1], records[k + 1]));
        }
        lemma_blocks_from(pre2, noise.drop_first(), blocks.drop_first(), tail, records.drop_first());
        assert(pre2 + rest + tail =~= lines);
        let o = (pre.len() + n0.len()) as int;
        assert(window(lines, n0, pre.len() as int)) by {
            assert forall|t: int| 0 <= t < n0.len() implies lines[pre.len() + t] == n0[t] by {}
        }
        lemma_skip_noise(lines, pre.len() as int, n0);
        assert(window(lines, b0, o)) by {
            assert forall|t: int| 0 <= t < b0.len() implies lines[o + t] == b0[t] by {}
        }
        lemma_block_window(lines, b0, o, records[0]);
        assert(lines[o] == b0[0]);
        assert(o + b0.len() == pre2.len());
        assert(seq![records[0]] + records.drop_first() =~= records);
    }
}

/// One record per block, in the order of the blocks: a log made of blocks, each
/// preceded by lines that do not open a record, and followed by more such lines,
/// yields exactly the blocks' records.
pub proof fn lemma_records_in_order(
    noise: Seq<Seq<Seq<char>>>,
    blocks: Seq<Seq<Seq<char>>>,
    tail: Seq<Seq<char>>,
    records: Seq<EntryView>,
)
    requires
        noise.len() == blocks.len() == records.len(),
        forall|k: int| 0 <= k < noise.len() ==> is_noise(#[trigger] noise[k]),
        forall|k: int| 0 <= k < blocks.len() ==> block_yields(#[trigger] blocks[k], records[k]),
        is_noise(tail),
    ensures
        extract_from(log_of(noise, blocks) + tail, 0) == Ok::<Seq<EntryView>, LogFormatError>(
            records,
        ),
{
    lemma_blocks_from(Seq::empty(), noise, blocks, tail, records);
    assert(Seq::<Seq<char>>::empty() + log_of(noise, blocks) + tail =~= log_of(noise, blocks)
        + tail);
}

/// Noise lines do not change what a log yields: two logs with the same blocks, in
/// the same order, but different noise around them, yield the same records.
pub proof fn lemma_noise_ignored(
    noise1: Seq<Seq<Seq<char>>>,
    noise2: Seq<Seq<Seq<char>>>,
    blocks: Seq<Seq<Seq<char>>>,
    tail1: Seq<Seq<char>>,
    tail2: Seq<Seq<char>>,
    records: Seq<EntryView>,
)
    requires
        noise1.len() == noise2.len() == blocks.len() == records.len(),
        forall|k: int| 0 <= k < noise1.len() ==> is_noise(#[trigger] noise1[k]),
        forall|k: int| 0 <= k < noise2.len() ==> is_noise(#[trigger] noise2[k]),
        forall|k: int| 0 <= k < blocks.len() ==> block_yields(#[trigger] blocks[k], records[k]),
        is_noise(tail1),
        is_noise(tail2),
    ensures
        extract_from(log_of(noise1, blocks) + tail1, 0) == extract_from(
            log_of(noise2, blocks) + tail2,
            0,
        ),
{
    lemma_records_in_order(noise1, blocks, tail1, records);
    lemma_records_in_order(noise2, blocks, tail2, records);
}

/// An empty log holds no records.
pub proof fn lemma_empty_log()
    ensures
        extract(Seq::empty()) == Ok::<Seq<EntryView>, LogFormatError>(Seq::empty()),
{
}

} // verus!
