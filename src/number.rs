//! Decimal numbers as they appear in the log: row counts and durations in seconds.
use vstd::prelude::*;
use crate::scan::{is_digit, run_end, scan_run, CharClass};

verus! {

pub open spec fn digit_value(c: char) -> nat {
    (c as int - '0' as int) as nat
}

/// The value of a string of decimal digits.
pub open spec fn digits_value(s: Seq<char>) -> nat
    decreases s.len(),
{
    if s.len() == 0 {
        0
    } else {
        digits_value(s.drop_last()) * 10 + digit_value(s.last())
    }
}

pub open spec fn all_digits(s: Seq<char>) -> bool {
    forall|i: int| 0 <= i < s.len() ==> is_digit(#[trigger] s[i])
}

proof fn lemma_digits_prefix_le(s: Seq<char>, t: int)
    requires
        0 <= t <= s.len(),
    ensures
        digits_value(s.take(t)) <= digits_value(s),
    decreases s.len() - t,
{
    if t < s.len() {
        lemma_digits_prefix_le(s, t + 1);
        assert(s.take(t + 1).drop_last() =~= s.take(t));
    } else {
        assert(s.take(t) =~= s);
    }
}

/// The value of the digits `l[from..to]`, or `None` where it exceeds `bound`.
pub fn parse_digits(l: &Vec<char>, from: usize, to: usize, bound: u64) -> (r: Option<u64>)
    requires
        from <= to <= l@.len(),
        all_digits(l@.subrange(from as int, to as int)),
    ensures
        r matches Some(v) ==> v == digits_value(l@.subrange(from as int, to as int)) && v <= bound,
        r is None ==> digits_value(l@.subrange(from as int, to as int)) > bound,
{
    let ghost s = l@.subrange(from as int, to as int);
    let mut v: u64 = 0;
    let mut i: usize = from;
    while i < to
        invariant
            from <= i <= to <= l@.len(),
            s == l@.subrange(from as int, to as int),
            all_digits(s),
            v == digits_value(s.take(i - from)),
            v <= bound,
        decreases to - i,
    {
        assert(is_digit(s[i - from]));
        let d = (l[i] as u32 - '0' as u32) as u64;
        assert(s.take(i - from + 1).drop_last() =~= s.take(i - from));
        if d > bound {
            proof {
                lemma_digits_prefix_le(s, i - from + 1);
            }
            return None;
        }
        if v > (bound - d) / 10 {
            proof {
                assert(v * 10 + d > bound) by (nonlinear_arith)
                    requires v > (bound - d) / 10, d <= 9, d <= bound;
                lemma_digits_prefix_le(s, i - from + 1);
            }
            return None;
        }
        assert(v * 10 + d <= bound) by (nonlinear_arith)
            requires v <= (bound - d) / 10, d <= bound;
        v = v * 10 + d;
        i = i + 1;
    }
    assert(s.take(to - from) =~= s);
    Some(v)
}

/// The digit of a fraction at place `t`, reading past its end as `0`.
pub open spec fn frac_digit(f: Seq<char>, t: int) -> char {
    if t < f.len() {
        f[t]
    } else {
        '0'
    }
}

/// The first six places of a fraction, padded with zeros.
pub open spec fn micro_digits(f: Seq<char>) -> Seq<char> {
    Seq::new(6, |t: int| frac_digit(f, t))
}

/// A count of seconds written `I`, `I.F` or `.F` (digits `I` and `F`, not both empty),
/// in whole microseconds: places of `F` past the sixth are dropped. `None` for any
/// other text, or where the count does not fit in an `i64`.
pub open spec fn seconds_to_micros(s: Seq<char>) -> Option<nat> {
    let a = run_end(s, 0, CharClass::Digit);
    let frac = if a < s.len() {
        s.subrange(a + 1, s.len() as int)
    } else {
        Seq::<char>::empty()
    };
    if (a < s.len() && (s[a] != '.' || !all_digits(frac))) || a + frac.len() == 0 {
        None
    } else {
        let v = digits_value(s.take(a)) * 1_000_000 + digits_value(micro_digits(frac));
        if v <= i64::MAX {
            Some(v)
        } else {
            None
        }
    }
}

/// A row count: a non-empty string of digits whose value fits in an `i32`.
pub open spec fn count_value(s: Seq<char>) -> Option<int> {
    if s.len() > 0 && all_digits(s) && digits_value(s) <= i32::MAX {
        Some(digits_value(s) as int)
    } else {
        None
    }
}

pub open spec fn pow10(n: nat) -> nat
    decreases n,
{
    if n == 0 {
        1
    } else {
        10 * pow10((n - 1) as nat)
    }
}

pub fn copy_range(l: &Vec<char>, from: usize, to: usize) -> (r: Vec<char>)
    requires
        from <= to <= l@.len(),
    ensures
        r@ == l@.subrange(from as int, to as int),
{
    let mut r: Vec<char> = Vec::new();
    let mut i = from;
    while i < to
        invariant
            from <= i <= to <= l@.len(),
            r@ == l@.subrange(from as int, i as int),
        decreases to - i,
    {
        r.push(l[i]);
        i = i + 1;
    }
    r
}

/// Reads a count of seconds as whole microseconds; see `seconds_to_micros`.
pub fn parse_seconds(s: &Vec<char>) -> (r: Option<i64>)
    ensures
        r matches Some(v) ==> v >= 0 && seconds_to_micros(s@) == Some(v as nat),
        r is None ==> seconds_to_micros(s@) is None,
{
    let a = scan_run(s, 0, CharClass::Digit);
    proof {
        crate::scan::lemma_run_end(s@, 0, CharClass::Digit);
    }
    let ghost frac = if a < s@.len() {
        s@.subrange(a + 1, s@.len() as int)
    } else {
        Seq::<char>::empty()
    };
    let mut fstart = a;
    if a < s.len() {
        if s[a] != '.' {
            return None;
        }
        fstart = a + 1;
        let fend = scan_run(s, fstart, CharClass::Digit);
        if fend < s.len() {
            proof {
                crate::scan::lemma_run_end(s@, fstart as int, CharClass::Digit);
                assert(!is_digit(frac[fend - fstart]));
            }
            return None;
        }
        proof {
            crate::scan::lemma_run_end(s@, fstart as int, CharClass::Digit);
            assert forall|i: int| 0 <= i < frac.len() implies is_digit(#[trigger] frac[i]) by {
                assert(crate::scan::in_class(s@[fstart + i], CharClass::Digit));
            }
        }
    }
    let flen: usize = s.len() - fstart;
    assert(flen == frac.len());
    if a == 0 && flen == 0 {
        return None;
    }
    assert(all_digits(s@.subrange(0, a as int))) by {
        assert forall|i: int| 0 <= i < a implies is_digit(#[trigger] s@.subrange(0, a as int)[i]) by {
            assert(crate::scan::in_class(s@[i], CharClass::Digit));
        }
    }
    assert(s@.subrange(0, a as int) =~= s@.take(a as int));
    let whole = match parse_digits(s, 0, a, 9_223_372_036_854) {
        Some(w) => w,
        None => {
            return None;
        }
    };
    let ghost md = micro_digits(frac);
    let mut fv: u64 = 0;
    let mut t: usize = 0;
    while t < 6
        invariant
            t <= 6,
            fstart + flen == s@.len(),
            s@.len() <= usize::MAX,
            whole <= 9_223_372_036_854,
            flen == frac.len(),
            frac == if a < s@.len() {
                s@.subrange(a + 1, s@.len() as int)
            } else {
                Seq::<char>::empty()
            },
            a < s@.len() ==> fstart == a + 1,
            a == s@.len() ==> fstart == a,
            all_digits(frac),
            md == micro_digits(frac),
            fv == digits_value(md.take(t as int)),
            fv < pow10(t as nat),
            pow10(t as nat) <= 1_000_000,
        decreases 6 - t,
    {
        assert(pow10((t + 1) as nat) <= 1_000_000) by {
            reveal_with_fuel(pow10, 7);
        }
        let c = if t < flen {
            s[fstart + t]
        } else {
            '0'
        };
        assert(c == md[t as int]);
        assert(is_digit(c)) by {
            if t < flen {
                assert(is_digit(frac[t as int]));
            }
        }
        assert(md.take(t + 1).drop_last() =~= md.take(t as int));
        let d = (c as u32 - '0' as u32) as u64;
        assert(fv * 10 + d < pow10(t as nat) * 10) by (nonlinear_arith)
            requires fv < pow10(t as nat), d < 10;
        assert(pow10((t + 1) as nat) == 10 * pow10(t as nat));
        fv = fv * 10 + d;
        t = t + 1;
    }
    assert(md.take(6) =~= md);
    assert(pow10(6) == 1_000_000) by {
        reveal_with_fuel(pow10, 7);
    }
    let v: u64 = whole * 1_000_000 + fv;
    if v > 9_223_372_036_854_775_807 {
        return None;
    }
    Some(v as i64)
}

/// Reads a row count; see `count_value`.
pub fn parse_count(s: &Vec<char>) -> (r: Option<i32>)
    ensures
        r matches Some(v) ==> count_value(s@) == Some(v as int),
        r is None ==> count_value(s@) is None,
{
    let e = scan_run(s, 0, CharClass::Digit);
    proof {
        crate::scan::lemma_run_end(s@, 0, CharClass::Digit);
    }
    if s.len() == 0 || e < s.len() {
        proof {
            if e < s@.len() {
                assert(!is_digit(s@[e as int]));
            }
        }
        return None;
    }
    assert(all_digits(s@)) by {
        assert forall|i: int| 0 <= i < s@.len() implies is_digit(#[trigger] s@[i]) by {
            assert(crate::scan::in_class(s@[i], CharClass::Digit));
        }
    }
    assert(s@.subrange(0, s@.len() as int) =~= s@);
    match parse_digits(s, 0, s.len(), 2_147_483_647) {
        Some(v) => Some(v as i32),
        None => None,
    }
}

/// The parts of a number written `[+|-]I[.F][(e|E)[+|-]X]` (digits `I`, `F` and `X`;
/// `I` and `F` not both empty, `X` at most 10^9): whether it is negative, the digits
/// of `I` then `F`, and the power of ten those digits are scaled by.
pub open spec fn number_parts(s: Seq<char>) -> Option<(bool, Seq<char>, int)> {
    let signed = s.len() > 0 && (s[0] == '+' || s[0] == '-');
    let i0: int = if signed {
        1
    } else {
        0
    };
    let a = run_end(s, i0, CharClass::Digit);
    let dot = a < s.len() && s[a] == '.';
    let b = if dot {
        run_end(s, a + 1, CharClass::Digit)
    } else {
        a
    };
    let frac = if dot {
        s.subrange(a + 1, b)
    } else {
        Seq::<char>::empty()
    };
    let mantissa = s.subrange(i0, a) + frac;
    let e_signed = b + 1 < s.len() && (s[b + 1] == '+' || s[b + 1] == '-');
    let c = if e_signed {
        b + 2
    } else {
        b + 1
    };
    let d = run_end(s, c, CharClass::Digit);
    let exp_digits = s.subrange(c, d);
    let exp: int = if b == s.len() {
        0
    } else if e_signed && s[b + 1] == '-' {
        -digits_value(exp_digits)
    } else {
        digits_value(exp_digits) as int
    };
    if mantissa.len() > 0 && (b == s.len() || ((s[b] == 'e' || s[b] == 'E') && d > c && d
        == s.len() && digits_value(exp_digits) <= 1_000_000_000)) {
        Some((signed && s[0] == '-', mantissa, exp - frac.len()))
    } else {
        None
    }
}

/// `x` held to the range of an `i64`.
pub open spec fn clamp_i64(x: int) -> int {
    if x > i64::MAX {
        i64::MAX as int
    } else if x < i64::MIN {
        i64::MIN as int
    } else {
        x
    }
}

/// `digits` scaled by 10^k, truncated to a whole number: for negative `k` the last
/// `-k` digits are dropped.
pub open spec fn scaled(digits: Seq<char>, k: int) -> nat {
    if k >= 0 {
        digits_value(digits) * pow10(k as nat)
    } else if -k >= digits.len() {
        0
    } else {
        digits_value(digits.take(digits.len() + k))
    }
}

/// A number of seconds as whole milliseconds, truncated toward zero and held to the
/// range of an `i64`; `None` where the text is not a number (see `number_parts`).
pub open spec fn seconds_to_millis(s: Seq<char>) -> Option<int> {
    match number_parts(s) {
        None => None,
        Some((neg, m, k)) => {
            let mag = scaled(m, k + 3) as int;
            Some(clamp_i64(if neg { -mag } else { mag }))
        },
    }
}

proof fn lemma_pow10_grows(a: nat, b: nat)
    requires
        a <= b,
    ensures
        pow10(a) <= pow10(b),
        pow10(b) >= 1,
    decreases b,
{
    if b > 0 {
        if a < b {
            lemma_pow10_grows(a, (b - 1) as nat);
        } else {
            lemma_pow10_grows(0, (b - 1) as nat);
        }
    }
}

const BIG: u64 = 9_223_372_036_854_775_808;

fn clamped(neg: bool, v: u128) -> (r: i64)
    requires
        v <= BIG * 10_000_000_000_000_000_000u128,
    ensures
        r == clamp_i64(if neg {
            -(v as int)
        } else {
            v as int
        }),
{
    if neg {
        if v >= BIG as u128 {
            i64::MIN
        } else {
            -(v as i64)
        }
    } else {
        if v > 9_223_372_036_854_775_807u128 {
            i64::MAX
        } else {
            v as i64
        }
    }
}

/// Reads the parts of a number; see `number_parts`.
fn read_number(s: &Vec<char>) -> (r: Option<(bool, Vec<char>, i128)>)
    ensures
        r matches Some(p) ==> number_parts(s@) == Some((p.0, p.1@, p.2 as int)) && all_digits(
            p.1@,
        ) && -1_000_000_000 - p.1@.len() <= p.2 <= 1_000_000_000,
        r is None ==> number_parts(s@) is None,
{
    let n = s.len();
    let signed = n > 0 && (s[0] == '+' || s[0] == '-');
    let neg = signed && s[0] == '-';
    let i0: usize = if signed {
        1
    } else {
        0
    };
    let a = scan_run(s, i0, CharClass::Digit);
    let dot = a < n && s[a] == '.';
    let b = if dot {
        scan_run(s, a + 1, CharClass::Digit)
    } else {
        a
    };
    proof {
        crate::scan::lemma_run_end(s@, i0 as int, CharClass::Digit);
        if dot {
            crate::scan::lemma_run_end(s@, a + 1, CharClass::Digit);
        }
    }
    let mut mantissa = copy_range(s, i0, a);
    let frac_len: usize = if dot {
        b - (a + 1)
    } else {
        0
    };
    if dot {
        let f = copy_range(s, a + 1, b);
        let mut t: usize = 0;
        let ghost m0 = mantissa@;
        while t < f.len()
            invariant
                t <= f@.len(),
                mantissa@ == m0 + f@.take(t as int),
            decreases f@.len() - t,
        {
            mantissa.push(f[t]);
            t = t + 1;
            assert(mantissa@ =~= m0 + f@.take(t as int));
        }
        assert(f@.take(t as int) =~= f@);
    }
    let ghost frac = if dot {
        s@.subrange(a + 1, b as int)
    } else {
        Seq::<char>::empty()
    };
    assert(mantissa@ =~= s@.subrange(i0 as int, a as int) + frac);
    if mantissa.len() == 0 {
        return None;
    }
    let mut exp: i128 = 0;
    if b < n {
        if s[b] != 'e' && s[b] != 'E' {
            return None;
        }
        let e_signed = b + 1 < n && (s[b + 1] == '+' || s[b + 1] == '-');
        let c = if e_signed {
            b + 2
        } else {
            b + 1
        };
        let d = scan_run(s, c, CharClass::Digit);
        proof {
            crate::scan::lemma_run_end(s@, c as int, CharClass::Digit);
        }
        if d == c || d != n {
            return None;
        }
        assert(all_digits(s@.subrange(c as int, d as int))) by {
            assert forall|i: int| 0 <= i < d - c implies is_digit(
                #[trigger] s@.subrange(c as int, d as int)[i],
            ) by {
                assert(crate::scan::in_class(s@[c + i], CharClass::Digit));
            }
        }
        let x = match parse_digits(s, c, d, 1_000_000_000) {
            Some(x) => x,
            None => {
                return None;
            },
        };
        exp = if e_signed && s[b + 1] == '-' {
            -(x as i128)
        } else {
            x as i128
        };
    }
    assert(all_digits(mantissa@)) by {
        assert forall|i: int| 0 <= i < mantissa@.len() implies is_digit(#[trigger] mantissa@[i]) by {
            if i < a - i0 {
                assert(crate::scan::in_class(s@[i0 + i], CharClass::Digit));
            } else {
                assert(crate::scan::in_class(s@[a + 1 + (i - (a - i0))], CharClass::Digit));
            }
        }
    }
    let k: i128 = exp - frac_len as i128;
    Some((neg, mantissa, k))
}

/// `mantissa` scaled by 10^k, truncated, signed and held to the range of an `i64`.
fn scale_clamped(neg: bool, mantissa: &Vec<char>, k: i128) -> (r: i64)
    requires
        all_digits(mantissa@),
        mantissa@.len() > 0,
        -1_000_000_000 - mantissa@.len() <= k <= 1_000_000_010,
    ensures
        r == clamp_i64({
            let mag = scaled(mantissa@, k as int) as int;
            if neg {
                -mag
            } else {
                mag
            }
        }),
{
    let ml = mantissa.len();
    assert(mantissa@.subrange(0, ml as int) =~= mantissa@);
    let whole = parse_digits(&mantissa, 0, ml, BIG);
    if let Some(0) = whole {
        proof {
            if k < 0 && -k < ml {
                lemma_digits_prefix_le(mantissa@, (ml + k) as int);
            }
        }
        assert(scaled(mantissa@, k as int) == 0) by (nonlinear_arith)
            requires
                k >= 0 ==> scaled(mantissa@, k as int) == digits_value(mantissa@) * pow10(k as nat),
                digits_value(mantissa@) == 0,
                k < 0 ==> scaled(mantissa@, k as int) <= digits_value(mantissa@);
        return 0;
    }
    if k >= 0 {
        proof {
            lemma_pow10_grows(0, k as nat);
        }
        match whole {
            None => {
                assert(digits_value(mantissa@) * pow10(k as nat) >= digits_value(mantissa@))
                    by (nonlinear_arith)
                    requires pow10(k as nat) >= 1;
                return clamped(neg, BIG as u128 + 1);
            },
            Some(d) => {
                if k > 19 {
                    proof {
                        lemma_pow10_grows(20, k as nat);
                        assert(pow10(20) == 100_000_000_000_000_000_000) by {
                            reveal_with_fuel(pow10, 21);
                        }
                        assert(d * pow10(k as nat) >= pow10(20)) by (nonlinear_arith)
                            requires d >= 1, pow10(k as nat) >= pow10(20);
                    }
                    return clamped(neg, BIG as u128 + 1);
                }
                let mut p: u128 = 1;
                let mut t: i128 = 0;
                while t < k
                    invariant
                        0 <= t <= k <= 19,
                        p == pow10(t as nat),
                        p <= 10_000_000_000_000_000_000u128,
                    decreases k - t,
                {
                    proof {
                        lemma_pow10_grows((t + 1) as nat, 19);
                        assert(pow10(19) == 10_000_000_000_000_000_000) by {
                            reveal_with_fuel(pow10, 20);
                        }
                    }
                    p = p * 10;
                    t = t + 1;
                }
                assert(d as u128 * p <= BIG * 10_000_000_000_000_000_000u128) by (nonlinear_arith)
                    requires d <= BIG, p <= 10_000_000_000_000_000_000u128;
                return clamped(neg, d as u128 * p);
            },
        }
    }
    if -k >= ml as i128 {
        return 0;
    }
    let keep = (ml as i128 + k) as usize;
    assert(mantissa@.subrange(0, keep as int) =~= mantissa@.take(keep as int));
    assert(all_digits(mantissa@.subrange(0, keep as int)));
    match parse_digits(&mantissa, 0, keep, BIG) {
        None => clamped(neg, BIG as u128 + 1),
        Some(v) => clamped(neg, v as u128),
    }
}

/// Reads a number of seconds as whole milliseconds; see `seconds_to_millis`.
pub fn parse_millis(s: &Vec<char>) -> (r: Option<i64>)
    ensures
        r matches Some(v) ==> seconds_to_millis(s@) == Some(v as int),
        r is None ==> seconds_to_millis(s@) is None,
{
    match read_number(s) {
        None => None,
        Some((neg, mantissa, k)) => Some(scale_clamped(neg, &mantissa, k + 3)),
    }
}

} // verus!
