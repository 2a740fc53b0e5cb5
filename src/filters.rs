//! Predicates over one log entry, and their construction from `name op value`.
use vstd::prelude::*;
use crate::log_parser::{entries_view, EntryView, LogEntry};
use crate::number::{parse_millis, seconds_to_millis};
use crate::scan::{run_end, scan_run, CharClass};
use crate::text::{chars_of, same_text, string_of};

verus! {

#[verifier::external_type_specification]
#[verifier::external_body]
pub struct ExRegex(regex::Regex);

#[verifier::external_type_specification]
#[verifier::external_body]
pub struct ExRegexError(regex::Error);

/// Whether `p` is a regular expression that the `regex` crate compiles.
pub uninterp spec fn regex_accepts(p: Seq<char>) -> bool;

/// Whether the regular expression `p` matches somewhere in `t`.
pub uninterp spec fn regex_finds(p: Seq<char>, t: Seq<char>) -> bool;

/// Relies on `regex::Regex::new`: it succeeds exactly on the patterns of the
/// crate's syntax (within its default, fixed size limit).
#[verifier::external_body]
fn compile_regex(source: &str) -> (r: Result<regex::Regex, regex::Error>)
    ensures
        r is Ok <==> regex_accepts(source@),
{
    regex::Regex::new(source)
}

/// A compiled regular expression together with its source text.
pub struct Pattern {
    source: String,
    compiled: regex::Regex,
}

impl View for Pattern {
    type V = Seq<char>;

    closed spec fn view(&self) -> Seq<char> {
        self.source@
    }
}

/// Relies on `regex::Regex::is_match`: whether the expression matches somewhere in
/// `text`. `compiled` is built from `source` in `Pattern::compile` and nowhere else.
#[verifier::external_body]
fn pattern_is_match(p: &Pattern, text: &str) -> (r: bool)
    ensures
        r == regex_finds(p@, text@),
{
    p.compiled.is_match(text)
}

impl Pattern {
    /// Compiles `source`; `None` where it is not a valid expression.
    pub fn compile(source: String) -> (r: Option<Pattern>)
        ensures
            r is Some <==> regex_accepts(source@),
            r matches Some(p) ==> p@ == source@,
    {
        match compile_regex(source.as_str()) {
            Ok(compiled) => Some(Pattern { source, compiled }),
            Err(_) => None,
        }
    }

    pub fn is_match(&self, text: &str) -> (r: bool)
        ensures
            r == regex_finds(self@, text@),
    {
        pattern_is_match(self, text)
    }
}

/// A predicate over log entries.
pub trait Filter {
    spec fn holds(&self, e: EntryView) -> bool;

    fn matches(&self, entry: &LogEntry) -> (r: bool)
        ensures
            r == self.holds(entry@),
    ;
}

/// The entries of one user.
pub struct UserEquals {
    pub name: String,
}

impl UserEquals {
    pub fn new(name: String) -> (r: UserEquals)
        ensures
            r.name@ == name@,
    {
        UserEquals { name }
    }
}

impl Filter for UserEquals {
    open spec fn holds(&self, e: EntryView) -> bool {
        e.user == self.name@
    }

    fn matches(&self, entry: &LogEntry) -> (r: bool) {
        self.name == entry.user
    }
}

/// The entries whose user matches a regular expression.
pub struct UserMatches {
    pub pattern: Pattern,
}

/// Why a filter could not be built.
#[derive(Clone, Copy, Debug, PartialEq, Eq, Structural)]
pub enum FilterError {
    /// The definition is not of the form `name op value`.
    InvalidFormat,
    /// No filter has this name.
    InvalidName,
    /// The filter does not take this operator.
    InvalidOperator,
    /// The value is not a valid regular expression.
    InvalidPattern,
    /// The value is not a number of seconds.
    InvalidNumber,
}

impl UserMatches {
    pub fn new(pattern: String) -> (r: Result<UserMatches, FilterError>)
        ensures
            r is Ok <==> regex_accepts(pattern@),
            r matches Ok(f) ==> f.pattern@ == pattern@,
            r matches Err(x) ==> x == FilterError::InvalidPattern,
    {
        match Pattern::compile(pattern) {
            Some(p) => Ok(UserMatches { pattern: p }),
            None => Err(FilterError::InvalidPattern),
        }
    }
}

impl Filter for UserMatches {
    open spec fn holds(&self, e: EntryView) -> bool {
        regex_finds(self.pattern@, e.user)
    }

    fn matches(&self, entry: &LogEntry) -> (r: bool) {
        self.pattern.is_match(entry.user.as_str())
    }
}

/// The entries whose query matches a regular expression.
pub struct QueryMatches {
    pub pattern: Pattern,
}

impl QueryMatches {
    pub fn new(pattern: String) -> (r: Result<QueryMatches, FilterError>)
        ensures
            r is Ok <==> regex_accepts(pattern@),
            r matches Ok(f) ==> f.pattern@ == pattern@,
            r matches Err(x) ==> x == FilterError::InvalidPattern,
    {
        match Pattern::compile(pattern) {
            Some(p) => Ok(QueryMatches { pattern: p }),
            None => Err(FilterError::InvalidPattern),
        }
    }
}

impl Filter for QueryMatches {
    open spec fn holds(&self, e: EntryView) -> bool {
        regex_finds(self.pattern@, e.query)
    }

    fn matches(&self, entry: &LogEntry) -> (r: bool) {
        self.pattern.is_match(entry.query.as_str())
    }
}

/// The entries that ran for at least `msec` whole milliseconds.
pub struct QueryTimeGreaterThan {
    pub msec: i64,
}

impl QueryTimeGreaterThan {
    pub fn new(msec: i64) -> (r: QueryTimeGreaterThan)
        ensures
            r.msec == msec,
    {
        QueryTimeGreaterThan { msec }
    }
}

impl Filter for QueryTimeGreaterThan {
    open spec fn holds(&self, e: EntryView) -> bool {
        e.query_time / 1000 >= self.msec
    }

    fn matches(&self, entry: &LogEntry) -> (r: bool) {
        entry.query_time.whole_milliseconds() >= self.msec as i128
    }
}

/// The entries that ran for at most `msec` whole milliseconds.
pub struct QueryTimeLessThan {
    pub msec: i64,
}

impl QueryTimeLessThan {
    pub fn new(msec: i64) -> (r: QueryTimeLessThan)
        ensures
            r.msec == msec,
    {
        QueryTimeLessThan { msec }
    }
}

impl Filter for QueryTimeLessThan {
    open spec fn holds(&self, e: EntryView) -> bool {
        e.query_time / 1000 <= self.msec
    }

    fn matches(&self, entry: &LogEntry) -> (r: bool) {
        entry.query_time.whole_milliseconds() <= self.msec as i128
    }
}

/// Any one of the filters.
pub enum AnyFilter {
    UserEquals(UserEquals),
    UserMatches(UserMatches),
    QueryMatches(QueryMatches),
    QueryTimeGreaterThan(QueryTimeGreaterThan),
    QueryTimeLessThan(QueryTimeLessThan),
    Not(Not),
}

/// The entries that another filter rejects.
pub struct Not {
    pub filter: Box<AnyFilter>,
}

impl Not {
    pub fn new(filter: AnyFilter) -> (r: Not)
        ensures
            *r.filter == filter,
    {
        Not { filter: Box::new(filter) }
    }
}

/// Whether filter `f` accepts entry `e`.
pub open spec fn filter_holds(f: AnyFilter, e: EntryView) -> bool
    decreases f,
{
    match f {
        AnyFilter::UserEquals(x) => x.holds(e),
        AnyFilter::UserMatches(x) => x.holds(e),
        AnyFilter::QueryMatches(x) => x.holds(e),
        AnyFilter::QueryTimeGreaterThan(x) => x.holds(e),
        AnyFilter::QueryTimeLessThan(x) => x.holds(e),
        AnyFilter::Not(x) => !filter_holds(*x.filter, e),
    }
}

impl Filter for Not {
    open spec fn holds(&self, e: EntryView) -> bool {
        !filter_holds(*self.filter, e)
    }

    fn matches(&self, entry: &LogEntry) -> (r: bool) {
        !self.filter.matches(entry)
    }
}

impl Filter for AnyFilter {
    open spec fn holds(&self, e: EntryView) -> bool {
        filter_holds(*self, e)
    }

    fn matches(&self, entry: &LogEntry) -> (r: bool)
        decreases self,
    {
        match self {
            AnyFilter::UserEquals(x) => x.matches(entry),
            AnyFilter::UserMatches(x) => x.matches(entry),
            AnyFilter::QueryMatches(x) => x.matches(entry),
            AnyFilter::QueryTimeGreaterThan(x) => x.matches(entry),
            AnyFilter::QueryTimeLessThan(x) => x.matches(entry),
            AnyFilter::Not(x) => !x.filter.matches(entry),
        }
    }
}

/// What a filter tests, as a value.
pub enum FilterSpec {
    UserIs(Seq<char>),
    UserLike(Seq<char>),
    QueryLike(Seq<char>),
    AtLeastMs(int),
    AtMostMs(int),
    Negated(Box<FilterSpec>),
}

pub open spec fn filter_spec(f: AnyFilter) -> FilterSpec
    decreases f,
{
    match f {
        AnyFilter::UserEquals(x) => FilterSpec::UserIs(x.name@),
        AnyFilter::UserMatches(x) => FilterSpec::UserLike(x.pattern@),
        AnyFilter::QueryMatches(x) => FilterSpec::QueryLike(x.pattern@),
        AnyFilter::QueryTimeGreaterThan(x) => FilterSpec::AtLeastMs(x.msec as int),
        AnyFilter::QueryTimeLessThan(x) => FilterSpec::AtMostMs(x.msec as int),
        AnyFilter::Not(x) => FilterSpec::Negated(Box::new(filter_spec(*x.filter))),
    }
}

/// The filter that `name op value` defines. `query_time` takes a number of seconds,
/// possibly signed and with an exponent, and compares whole milliseconds, inclusively.
pub open spec fn defined_filter(name: Seq<char>, op: Seq<char>, value: Seq<char>) -> Result<
    FilterSpec,
    FilterError,
> {
    if name == "user"@ {
        if op == "="@ {
            Ok(FilterSpec::UserIs(value))
        } else if op == "!="@ {
            Ok(FilterSpec::Negated(Box::new(FilterSpec::UserIs(value))))
        } else if op == "~="@ {
            if regex_accepts(value) {
                Ok(FilterSpec::UserLike(value))
            } else {
                Err(FilterError::InvalidPattern)
            }
        } else {
            Err(FilterError::InvalidOperator)
        }
    } else if name == "query"@ {
        if op == "~="@ {
            if regex_accepts(value) {
                Ok(FilterSpec::QueryLike(value))
            } else {
                Err(FilterError::InvalidPattern)
            }
        } else {
            Err(FilterError::InvalidOperator)
        }
    } else if name == "query_time"@ {
        match seconds_to_millis(value) {
            None => Err(FilterError::InvalidNumber),
            Some(ms) => if op == "<"@ || op == "<="@ {
                Ok(FilterSpec::AtMostMs(ms))
            } else if op == ">"@ || op == ">="@ {
                Ok(FilterSpec::AtLeastMs(ms))
            } else {
                Err(FilterError::InvalidOperator)
            },
        }
    } else {
        Err(FilterError::InvalidName)
    }
}

pub open spec fn filter_result_spec(r: Result<AnyFilter, FilterError>) -> Result<
    FilterSpec,
    FilterError,
> {
    match r {
        Ok(f) => Ok(filter_spec(f)),
        Err(x) => Err(x),
    }
}

/// Builds the filter `name op value`.
pub fn create_filter(name: &str, op: &str, value: &str) -> (r: Result<AnyFilter, FilterError>)
    ensures
        filter_result_spec(r) == defined_filter(name@, op@, value@),
{
    if same_text(name, "user") {
        if same_text(op, "=") {
            Ok(AnyFilter::UserEquals(UserEquals::new(value.to_owned())))
        } else if same_text(op, "!=") {
            let inner = AnyFilter::UserEquals(UserEquals::new(value.to_owned()));
            assert(filter_spec(inner) == FilterSpec::UserIs(value@));
            let f = AnyFilter::Not(Not::new(inner));
            assert(filter_spec(f) == FilterSpec::Negated(Box::new(FilterSpec::UserIs(value@))));
            Ok(f)
        } else if same_text(op, "~=") {
            match UserMatches::new(value.to_owned()) {
                Ok(f) => Ok(AnyFilter::UserMatches(f)),
                Err(x) => Err(x),
            }
        } else {
            Err(FilterError::InvalidOperator)
        }
    } else if same_text(name, "query") {
        if same_text(op, "~=") {
            match QueryMatches::new(value.to_owned()) {
                Ok(f) => Ok(AnyFilter::QueryMatches(f)),
                Err(x) => Err(x),
            }
        } else {
            Err(FilterError::InvalidOperator)
        }
    } else if same_text(name, "query_time") {
        match parse_millis(&chars_of(value)) {
            None => Err(FilterError::InvalidNumber),
            Some(msec) => {
                if same_text(op, "<") || same_text(op, "<=") {
                    Ok(AnyFilter::QueryTimeLessThan(QueryTimeLessThan::new(msec)))
                } else if same_text(op, ">") || same_text(op, ">=") {
                    Ok(AnyFilter::QueryTimeGreaterThan(QueryTimeGreaterThan::new(msec)))
                } else {
                    Err(FilterError::InvalidOperator)
                }
            },
        }
    } else {
        Err(FilterError::InvalidName)
    }
}

/// Name, operator and value of a definition `<name> <op> <value>`: a name of word
/// characters, an operator of the characters `=<>!~`, whitespace around the
/// operator, and a non-empty value on one line. As with a backtracking match of
/// `^(\w+)\s*([=<>!~]+)\s*(.+)$`, where nothing follows the operator and its
/// whitespace, the value is the last whitespace character, or else the operator's
/// last character.
pub open spec fn filter_parts(arg: Seq<char>) -> Option<(Seq<char>, Seq<char>, Seq<char>)> {
    let n = arg.len() as int;
    let a = run_end(arg, 0, CharClass::Word);
    let b = run_end(arg, a, CharClass::Space);
    let c = run_end(arg, b, CharClass::Operator);
    let d = run_end(arg, c, CharClass::Space);
    if a == 0 || c == b {
        None
    } else if d < n {
        if run_end(arg, d, CharClass::NotNewline) == n {
            Some((arg.take(a), arg.subrange(b, c), arg.subrange(d, n)))
        } else {
            None
        }
    } else if d > c && arg[n - 1] != '\n' {
        Some((arg.take(a), arg.subrange(b, c), arg.subrange(n - 1, n)))
    } else if d == c && c - b >= 2 {
        Some((arg.take(a), arg.subrange(b, c - 1), arg.subrange(c - 1, n)))
    } else {
        None
    }
}

/// The filter that a definition `<name> <op> <value>` gives.
pub open spec fn parsed_filter(arg: Seq<char>) -> Result<FilterSpec, FilterError> {
    match filter_parts(arg) {
        None => Err(FilterError::InvalidFormat),
        Some(p) => defined_filter(p.0, p.1, p.2),
    }
}

/// Builds the filter that a definition such as `user!=foo` or `query_time > 0.5` gives.
pub fn parse_filter(arg: &str) -> (r: Result<AnyFilter, FilterError>)
    ensures
        filter_result_spec(r) == parsed_filter(arg@),
{
    let cs = chars_of(arg);
    let n = cs.len();
    let a = scan_run(&cs, 0, CharClass::Word);
    let b = scan_run(&cs, a, CharClass::Space);
    let c = scan_run(&cs, b, CharClass::Operator);
    let d = scan_run(&cs, c, CharClass::Space);
    if a == 0 || c == b {
        return Err(FilterError::InvalidFormat);
    }
    assert(cs@.subrange(0, a as int) =~= cs@.take(a as int));
    let name = string_of(&cs, 0, a);
    let (op_end, value_start) = if d < n {
        if scan_run(&cs, d, CharClass::NotNewline) != n {
            return Err(FilterError::InvalidFormat);
        }
        (c, d)
    } else if d > c && cs[n - 1] != '\n' {
        (c, n - 1)
    } else if d == c && c - b >= 2 {
        (c - 1, c - 1)
    } else {
        return Err(FilterError::InvalidFormat);
    };
    let op = string_of(&cs, b, op_end);
    let value = string_of(&cs, value_start, n);
    create_filter(name.as_str(), op.as_str(), value.as_str())
}

/// Whether every filter accepts `e`.
pub open spec fn passes(filters: Seq<AnyFilter>, e: EntryView) -> bool {
    forall|k: int| 0 <= k < filters.len() ==> filter_holds(#[trigger] filters[k], e)
}

/// The entries that every filter accepts, in their order.
pub open spec fn kept(entries: Seq<EntryView>, filters: Seq<AnyFilter>) -> Seq<EntryView>
    decreases entries.len(),
{
    if entries.len() == 0 {
        Seq::empty()
    } else {
        let rest = kept(entries.drop_last(), filters);
        if passes(filters, entries.last()) {
            rest.push(entries.last())
        } else {
            rest
        }
    }
}

/// Whether every filter accepts `entry`; true where there are none.
pub fn all_match(filters: &Vec<AnyFilter>, entry: &LogEntry) -> (r: bool)
    ensures
        r == passes(filters@, entry@),
{
    let mut i: usize = 0;
    while i < filters.len()
        invariant
            i <= filters@.len(),
            forall|k: int| 0 <= k < i ==> filter_holds(#[trigger] filters@[k], entry@),
        decreases filters@.len() - i,
    {
        if !filters[i].matches(entry) {
            return false;
        }
        i = i + 1;
    }
    true
}

/// The entries that every filter accepts, in their order.
pub fn retain_matching(entries: Vec<LogEntry>, filters: &Vec<AnyFilter>) -> (r: Vec<LogEntry>)
    ensures
        entries_view(r@) == kept(entries_view(entries@), filters@),
{
    let ghost all = entries@;
    let n = entries.len();
    let mut src = entries;
    let mut rev: Vec<LogEntry> = Vec::new();
    while src.len() > 0
        invariant
            n == all.len(),
            rev@.len() + src@.len() == n,
            src@ == all.take(src@.len() as int),
            forall|j: int| 0 <= j < rev@.len() ==> rev@[j] == all[n - 1 - j],
        decreases src@.len(),
    {
        let e = src.pop().unwrap();
        rev.push(e);
        assert(src@ =~= all.take(src@.len() as int));
    }
    let mut out: Vec<LogEntry> = Vec::new();
    while rev.len() > 0
        invariant
            n == all.len(),
            rev@.len() <= n,
            forall|j: int| 0 <= j < rev@.len() ==> rev@[j] == all[n - 1 - j],
            entries_view(out@) == kept(entries_view(all.take(n - rev@.len())), filters@),
        decreases rev@.len(),
    {
        let ghost k = n - rev@.len();
        let e = rev.pop().unwrap();
        assert(e == all[k]);
        let keep = all_match(filters, &e);
        assert(entries_view(all.take(k + 1)).drop_last() =~= entries_view(all.take(k)));
        assert(entries_view(all.take(k + 1)).last() == e@);
        if keep {
            out.push(e);
            assert(entries_view(out@) =~= kept(entries_view(all.take(k)), filters@).push(e@));
        }
    }
    assert(all.take(n as int) =~= all);
    out
}

} // verus!
