//! Command-line options.
use vstd::prelude::*;
use crate::number::{all_digits, digits_value, parse_digits};
use crate::scan::{run_end, scan_run, CharClass};
use crate::filters::{filter_spec, parse_filter, parsed_filter, AnyFilter, FilterError, FilterSpec};
use crate::text::{chars_of, same_text, string_of};

verus! {

/// How aggregated entries are ordered for display.
#[derive(Clone, Copy, Debug, PartialEq, Eq, Structural)]
pub enum SortOrder {
    Count,
    AvgTime,
    MaxTime,
    TotalTime,
}

/// The options of one run.
#[derive(Debug)]
pub struct Opt {
    /// The path to the log file; standard input where there is none.
    pub filename: Option<String>,
    /// Filter definitions such as `user!=foo`.
    pub filters: Vec<String>,
    pub order: Option<SortOrder>,
    /// Combine identical queries.
    pub aggregate: bool,
    /// Replace values with placeholders.
    pub normalize: bool,
    pub limit: usize,
    /// Print the program's version.
    pub version: bool,
}

/// Why the arguments could not be read.
#[derive(Clone, Copy, Debug, PartialEq, Eq, Structural)]
pub enum OptError {
    /// An argument that is no known option.
    UnknownArgument,
    /// An option that takes a value came last, without one.
    MissingValue,
    /// A flag was given a value.
    UnexpectedValue,
    /// An order or a limit that cannot be read.
    InvalidValue,
}

/// The options.
#[derive(Clone, Copy, Debug, PartialEq, Eq, Structural)]
pub enum OptKey {
    Infile,
    Filter,
    Order,
    Aggregate,
    Normalize,
    Limit,
    Version,
}

/// The values of an `Opt`.
pub struct OptView {
    pub filename: Option<Seq<char>>,
    pub filters: Seq<Seq<char>>,
    pub order: Option<SortOrder>,
    pub aggregate: bool,
    pub normalize: bool,
    pub limit: nat,
    pub version: bool,
}

impl View for Opt {
    type V = OptView;

    open spec fn view(&self) -> OptView {
        OptView {
            filename: match self.filename {
                Some(f) => Some(f@),
                None => None,
            },
            filters: self.filters@.map_values(|f: String| f@),
            order: self.order,
            aggregate: self.aggregate,
            normalize: self.normalize,
            limit: self.limit as nat,
            version: self.version,
        }
    }
}

pub open spec fn default_opt() -> OptView {
    OptView {
        filename: None,
        filters: Seq::empty(),
        order: None,
        aggregate: false,
        normalize: false,
        limit: 10,
        version: false,
    }
}

pub open spec fn short_key(c: char) -> Option<OptKey> {
    if c == 'i' {
        Some(OptKey::Infile)
    } else if c == 'F' {
        Some(OptKey::Filter)
    } else if c == 'o' {
        Some(OptKey::Order)
    } else if c == 'a' {
        Some(OptKey::Aggregate)
    } else if c == 'n' {
        Some(OptKey::Normalize)
    } else if c == 'l' {
        Some(OptKey::Limit)
    } else if c == 'v' {
        Some(OptKey::Version)
    } else {
        None
    }
}

pub open spec fn long_key(name: Seq<char>) -> Option<OptKey> {
    if name == "infile"@ {
        Some(OptKey::Infile)
    } else if name == "filter"@ {
        Some(OptKey::Filter)
    } else if name == "order"@ {
        Some(OptKey::Order)
    } else if name == "aggregate"@ {
        Some(OptKey::Aggregate)
    } else if name == "normalize"@ {
        Some(OptKey::Normalize)
    } else if name == "limit"@ {
        Some(OptKey::Limit)
    } else if name == "version"@ {
        Some(OptKey::Version)
    } else {
        None
    }
}

pub open spec fn takes_value(k: OptKey) -> bool {
    k == OptKey::Infile || k == OptKey::Filter || k == OptKey::Order || k == OptKey::Limit
}

/// The option an argument names, with the value written into it: `--name=value`,
/// `--name`, `-xvalue` or `-x`.
pub open spec fn option_of(a: Seq<char>) -> Option<(OptKey, Option<Seq<char>>)> {
    if a.len() >= 2 && a[0] == '-' && a[1] == '-' {
        let e = run_end(a, 2, CharClass::NotEquals);
        match long_key(a.subrange(2, e)) {
            None => None,
            Some(k) => Some(
                (
                    k,
                    if e < a.len() {
                        Some(a.subrange(e + 1, a.len() as int))
                    } else {
                        None
                    },
                ),
            ),
        }
    } else if a.len() >= 2 && a[0] == '-' {
        match short_key(a[1]) {
            None => None,
            Some(k) => Some(
                (
                    k,
                    if a.len() > 2 {
                        Some(a.subrange(2, a.len() as int))
                    } else {
                        None
                    },
                ),
            ),
        }
    } else {
        None
    }
}

pub open spec fn order_of(v: Seq<char>) -> Option<SortOrder> {
    if v == "count"@ {
        Some(SortOrder::Count)
    } else if v == "avg-time"@ {
        Some(SortOrder::AvgTime)
    } else if v == "max-time"@ {
        Some(SortOrder::MaxTime)
    } else if v == "total-time"@ {
        Some(SortOrder::TotalTime)
    } else {
        None
    }
}

/// The options after option `k` with value `v`.
pub open spec fn with_value(o: OptView, k: OptKey, v: Seq<char>) -> Result<OptView, OptError> {
    match k {
        OptKey::Infile => Ok(OptView { filename: Some(v), ..o }),
        OptKey::Filter => Ok(OptView { filters: o.filters.push(v), ..o }),
        OptKey::Order => match order_of(v) {
            Some(ord) => Ok(OptView { order: Some(ord), ..o }),
            None => Err(OptError::InvalidValue),
        },
        _ => if v.len() > 0 && all_digits(v) && digits_value(v) <= usize::MAX {
            Ok(OptView { limit: digits_value(v), ..o })
        } else {
            Err(OptError::InvalidValue)
        },
    }
}

/// The options after flag `k`.
pub open spec fn with_flag(o: OptView, k: OptKey) -> OptView {
    match k {
        OptKey::Aggregate => OptView { aggregate: true, ..o },
        OptKey::Normalize => OptView { normalize: true, ..o },
        _ => OptView { version: true, ..o },
    }
}

/// The options that arguments `i..` give on top of `o`. An option's value is
/// written into its argument or is the next argument; a later value replaces an
/// earlier one, but filters accumulate.
pub open spec fn options_from(args: Seq<Seq<char>>, i: int, o: OptView) -> Result<OptView, OptError>
    decreases args.len() - i,
{
    if i < 0 || i >= args.len() {
        Ok(o)
    } else {
        match option_of(args[i]) {
            None => Err(OptError::UnknownArgument),
            Some((k, inline)) => if takes_value(k) {
                match inline {
                    Some(v) => match with_value(o, k, v) {
                        Ok(o2) => options_from(args, i + 1, o2),
                        Err(x) => Err(x),
                    },
                    None => if i + 1 < args.len() {
                        match with_value(o, k, args[i + 1]) {
                            Ok(o2) => options_from(args, i + 2, o2),
                            Err(x) => Err(x),
                        }
                    } else {
                        Err(OptError::MissingValue)
                    },
                }
            } else {
                match inline {
                    Some(_) => Err(OptError::UnexpectedValue),
                    None => options_from(args, i + 1, with_flag(o, k)),
                }
            },
        }
    }
}

pub open spec fn args_view(args: Seq<&str>) -> Seq<Seq<char>> {
    args.map_values(|a: &str| a@)
}

fn key_of_short(c: char) -> (r: Option<OptKey>)
    ensures
        r == short_key(c),
{
    if c == 'i' {
        Some(OptKey::Infile)
    } else if c == 'F' {
        Some(OptKey::Filter)
    } else if c == 'o' {
        Some(OptKey::Order)
    } else if c == 'a' {
        Some(OptKey::Aggregate)
    } else if c == 'n' {
        Some(OptKey::Normalize)
    } else if c == 'l' {
        Some(OptKey::Limit)
    } else if c == 'v' {
        Some(OptKey::Version)
    } else {
        None
    }
}

fn key_of_long(name: &str) -> (r: Option<OptKey>)
    ensures
        r == long_key(name@),
{
    if same_text(name, "infile") {
        Some(OptKey::Infile)
    } else if same_text(name, "filter") {
        Some(OptKey::Filter)
    } else if same_text(name, "order") {
        Some(OptKey::Order)
    } else if same_text(name, "aggregate") {
        Some(OptKey::Aggregate)
    } else if same_text(name, "normalize") {
        Some(OptKey::Normalize)
    } else if same_text(name, "limit") {
        Some(OptKey::Limit)
    } else if same_text(name, "version") {
        Some(OptKey::Version)
    } else {
        None
    }
}

fn key_takes_value(k: OptKey) -> (r: bool)
    ensures
        r == takes_value(k),
{
    match k {
        OptKey::Infile | OptKey::Filter | OptKey::Order | OptKey::Limit => true,
        _ => false,
    }
}

pub open spec fn inline_view(v: Option<String>) -> Option<Seq<char>> {
    match v {
        Some(s) => Some(s@),
        None => None,
    }
}

fn option_of_arg(arg: &str) -> (r: Option<(OptKey, Option<String>)>)
    ensures
        r matches Some(p) ==> option_of(arg@) == Some((p.0, inline_view(p.1))),
        r is None ==> option_of(arg@) is None,
{
    let a = chars_of(arg);
    let n = a.len();
    if n >= 2 && a[0] == '-' && a[1] == '-' {
        let e = scan_run(&a, 2, CharClass::NotEquals);
        let name = string_of(&a, 2, e);
        match key_of_long(name.as_str()) {
            None => None,
            Some(k) => {
                let inline = if e < n {
                    Some(string_of(&a, e + 1, n))
                } else {
                    None
                };
                Some((k, inline))
            },
        }
    } else if n >= 2 && a[0] == '-' {
        match key_of_short(a[1]) {
            None => None,
            Some(k) => {
                let inline = if n > 2 {
                    Some(string_of(&a, 2, n))
                } else {
                    None
                };
                Some((k, inline))
            },
        }
    } else {
        None
    }
}

fn order_from(v: &str) -> (r: Option<SortOrder>)
    ensures
        r == order_of(v@),
{
    if same_text(v, "count") {
        Some(SortOrder::Count)
    } else if same_text(v, "avg-time") {
        Some(SortOrder::AvgTime)
    } else if same_text(v, "max-time") {
        Some(SortOrder::MaxTime)
    } else if same_text(v, "total-time") {
        Some(SortOrder::TotalTime)
    } else {
        None
    }
}

fn limit_from(v: &str) -> (r: Option<usize>)
    ensures
        r matches Some(l) ==> v@.len() > 0 && all_digits(v@) && digits_value(v@) == l,
        r is None ==> !(v@.len() > 0 && all_digits(v@) && digits_value(v@) <= usize::MAX),
{
    let cs = chars_of(v);
    let e = scan_run(&cs, 0, CharClass::Digit);
    proof {
        crate::scan::lemma_run_end(cs@, 0, CharClass::Digit);
    }
    if cs.len() == 0 || e < cs.len() {
        proof {
            if e < cs@.len() {
                assert(!crate::scan::is_digit(cs@[e as int]));
            }
        }
        return None;
    }
    assert(all_digits(cs@)) by {
        assert forall|i: int| 0 <= i < cs@.len() implies crate::scan::is_digit(#[trigger] cs@[i]) by {
            assert(crate::scan::in_class(cs@[i], CharClass::Digit));
        }
    }
    assert(cs@.subrange(0, cs@.len() as int) =~= cs@);
    match parse_digits(&cs, 0, cs.len(), usize::MAX as u64) {
        Some(l) => Some(l as usize),
        None => None,
    }
}

fn set_value(o: &mut Opt, k: OptKey, v: String) -> (r: Result<(), OptError>)
    requires
        takes_value(k),
    ensures
        match r {
            Ok(()) => with_value(old(o)@, k, v@) == Ok::<OptView, OptError>(final(o)@),
            Err(x) => with_value(old(o)@, k, v@) == Err::<OptView, OptError>(x),
        },
{
    match k {
        OptKey::Infile => {
            o.filename = Some(v);
            Ok(())
        },
        OptKey::Filter => {
            let ghost before = o.filters@;
            let ghost vv = v@;
            o.filters.push(v);
            assert(o.filters@.map_values(|f: String| f@) =~= before.map_values(|f: String| f@).push(vv));
            Ok(())
        },
        OptKey::Order => match order_from(v.as_str()) {
            Some(ord) => {
                o.order = Some(ord);
                Ok(())
            },
            None => Err(OptError::InvalidValue),
        },
        _ => match limit_from(v.as_str()) {
            Some(l) => {
                o.limit = l;
                Ok(())
            },
            None => Err(OptError::InvalidValue),
        },
    }
}

fn set_flag(o: &mut Opt, k: OptKey)
    requires
        !takes_value(k),
    ensures
        final(o)@ == with_flag(old(o)@, k),
{
    match k {
        OptKey::Aggregate => {
            o.aggregate = true;
        },
        OptKey::Normalize => {
            o.normalize = true;
        },
        _ => {
            o.version = true;
        },
    }
}

impl Opt {
    /// Reads the options from a command line whose first argument names the program.
    pub fn parse_from(args: &[&str]) -> (r: Result<Opt, OptError>)
        ensures
            match r {
                Ok(o) => options_from(args_view(args@), 1, default_opt()) == Ok::<
                    OptView,
                    OptError,
                >(o@),
                Err(x) => options_from(args_view(args@), 1, default_opt()) == Err::<
                    OptView,
                    OptError,
                >(x),
            },
    {
        let ghost av = args_view(args@);
        let mut o = Opt {
            filename: None,
            filters: Vec::new(),
            order: None,
            aggregate: false,
            normalize: false,
            limit: 10,
            version: false,
        };
        assert(o@.filters =~= Seq::<Seq<char>>::empty());
        let n = args.len();
        let mut i: usize = 1;
        while i < n
            invariant
                av == args_view(args@),
                n == args@.len(),
                1 <= i,
                options_from(av, 1, default_opt()) == options_from(av, i as int, o@),
            decreases n - i,
        {
            assert(av[i as int] == args@[i as int]@);
            match option_of_arg(args[i]) {
                None => {
                    return Err(OptError::UnknownArgument);
                },
                Some((k, inline)) => {
                    if key_takes_value(k) {
                        match inline {
                            Some(v) => {
                                match set_value(&mut o, k, v) {
                                    Ok(()) => {},
                                    Err(x) => {
                                        return Err(x);
                                    },
                                }
                                i = i + 1;
                            },
                            None => {
                                if i + 1 < n {
                                    assert(av[i + 1] == args@[i + 1]@);
                                    match set_value(&mut o, k, args[i + 1].to_owned()) {
                                        Ok(()) => {},
                                        Err(x) => {
                                            return Err(x);
                                        },
                                    }
                                    i = i + 2;
                                } else {
                                    return Err(OptError::MissingValue);
                                }
                            },
                        }
                    } else {
                        match inline {
                            Some(_) => {
                                return Err(OptError::UnexpectedValue);
                            },
                            None => {
                                set_flag(&mut o, k);
                                i = i + 1;
                            },
                        }
                    }
                },
            }
        }
        Ok(o)
    }
}

/// Why a run cannot start.
#[derive(Clone, Copy, Debug, PartialEq, Eq, Structural)]
pub enum ConfigError {
    Options(OptError),
    Filter(FilterError),
}

/// The filters that definitions give, or the error of the first bad one.
pub open spec fn filters_of(defs: Seq<Seq<char>>) -> Result<Seq<FilterSpec>, FilterError>
    decreases defs.len(),
{
    if defs.len() == 0 {
        Ok(Seq::empty())
    } else {
        match filters_of(defs.drop_last()) {
            Err(x) => Err(x),
            Ok(fs) => match parsed_filter(defs.last()) {
                Err(x) => Err(x),
                Ok(f) => Ok(fs.push(f)),
            },
        }
    }
}

pub open spec fn specs_of(fs: Seq<AnyFilter>) -> Seq<FilterSpec> {
    fs.map_values(|f: AnyFilter| filter_spec(f))
}

/// Reads the options and builds their filters, before any record is read.
pub fn parse_opts(args: &[&str]) -> (r: Result<(Opt, Vec<AnyFilter>), ConfigError>)
    ensures
        match r {
            Ok((o, fs)) => options_from(args_view(args@), 1, default_opt()) == Ok::<
                OptView,
                OptError,
            >(o@) && filters_of(o@.filters) == Ok::<Seq<FilterSpec>, FilterError>(
                specs_of(fs@),
            ),
            Err(ConfigError::Options(x)) => options_from(args_view(args@), 1, default_opt())
                == Err::<OptView, OptError>(x),
            Err(ConfigError::Filter(x)) => options_from(args_view(args@), 1, default_opt()) matches Ok(
                o,
            ) && filters_of(o.filters) == Err::<Seq<FilterSpec>, FilterError>(x),
        },
{
    let opt = match Opt::parse_from(args) {
        Ok(o) => o,
        Err(x) => {
            return Err(ConfigError::Options(x));
        },
    };
    let ghost defs = opt@.filters;
    let mut filters: Vec<AnyFilter> = Vec::new();
    assert(defs.take(0) =~= Seq::<Seq<char>>::empty());
    assert(specs_of(filters@) =~= Seq::<FilterSpec>::empty());
    let mut i: usize = 0;
    while i < opt.filters.len()
        invariant
            i <= opt.filters@.len(),
            options_from(args_view(args@), 1, default_opt()) == Ok::<OptView, OptError>(opt@),
            defs == opt@.filters,
            defs.len() == opt.filters@.len(),
            forall|j: int| 0 <= j < defs.len() ==> #[trigger] defs[j] == opt.filters@[j]@,
            filters_of(defs.take(i as int)) == Ok::<Seq<FilterSpec>, FilterError>(
                specs_of(filters@),
            ),
        decreases opt.filters@.len() - i,
    {
        assert(defs.take(i + 1).drop_last() =~= defs.take(i as int));
        assert(defs.take(i + 1).last() == opt.filters@[i as int]@);
        match parse_filter(opt.filters[i].as_str()) {
            Ok(f) => {
                let ghost before = filters@;
                filters.push(f);
                assert(specs_of(filters@) =~= specs_of(before).push(filter_spec(f)));
            },
            Err(x) => {
                assert(filters_of(defs.take(i + 1)) == Err::<Seq<FilterSpec>, FilterError>(x));
                proof {
                    lemma_first_error_stays(defs, i as int + 1, x);
                }
                return Err(ConfigError::Filter(x));
            },
        }
        i = i + 1;
    }
    assert(defs.take(i as int) =~= defs);
    Ok((opt, filters))
}

proof fn lemma_first_error_stays(defs: Seq<Seq<char>>, k: int, x: FilterError)
    requires
        0 <= k <= defs.len(),
        filters_of(defs.take(k)) == Err::<Seq<FilterSpec>, FilterError>(x),
    ensures
        filters_of(defs) == Err::<Seq<FilterSpec>, FilterError>(x),
    decreases defs.len() - k,
{
    if k < defs.len() {
        assert(defs.take(k + 1).drop_last() =~= defs.take(k));
        lemma_first_error_stays(defs, k + 1, x);
    } else {
        assert(defs.take(k) =~= defs);
    }
}

} // verus!
