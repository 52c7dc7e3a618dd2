//! Signed durations written as `[+|-]<number><unit>...`, such as `+1h15m`
//! or `-30m`, and their canonical rendering.
use vstd::prelude::*;

use crate::text::{
    all_space, lemma_trim_ignores_surrounding_space, lemma_trim_of_unspaced_ends,
    lemma_trimmed_ends, all_digits, is_space, lemma_decimal_reads_back, leading_space, trailing_space, chars_of, decimal, digits_up_to, digits_value, is_alpha, is_alpha_char, is_digit,
    is_digit_char, push_decimal, string_between, string_from_chars, trim, trim_bounds,
};

verus! {

pub const NANOS_PER_MICRO: i128 = 1_000;

pub const NANOS_PER_MILLI: i128 = 1_000_000;

pub const NANOS_PER_SECOND: i128 = 1_000_000_000;

pub const NANOS_PER_MINUTE: i128 = 60_000_000_000;

pub const NANOS_PER_HOUR: i128 = 3_600_000_000_000;

pub const NANOS_PER_DAY: i128 = 86_400_000_000_000;

/// Why a duration text was refused.
#[derive(Debug, PartialEq, Eq)]
pub enum DurationError {
    /// Nothing but whitespace.
    Empty,
    /// A sign with nothing after it.
    NoValue,
    /// No digits where a number must start; holds the text from there on.
    ExpectedNumber(String),
    /// A number too large for 128 bits; holds its digits.
    InvalidNumber(String),
    /// A number not followed by a unit; holds its digits.
    MissingUnit(String),
    /// Letters that name no unit; holds them.
    UnsupportedUnit(String),
    /// The total does not fit in 128 bits.
    Overflow,
}

/// `DurationError` with its texts as character sequences.
pub enum DurationFault {
    Empty,
    NoValue,
    ExpectedNumber(Seq<char>),
    InvalidNumber(Seq<char>),
    MissingUnit(Seq<char>),
    UnsupportedUnit(Seq<char>),
    Overflow,
}

impl View for DurationError {
    type V = DurationFault;

    open spec fn view(&self) -> DurationFault {
        match self {
            DurationError::Empty => DurationFault::Empty,
            DurationError::NoValue => DurationFault::NoValue,
            DurationError::ExpectedNumber(s) => DurationFault::ExpectedNumber(s@),
            DurationError::InvalidNumber(s) => DurationFault::InvalidNumber(s@),
            DurationError::MissingUnit(s) => DurationFault::MissingUnit(s@),
            DurationError::UnsupportedUnit(s) => DurationFault::UnsupportedUnit(s@),
            DurationError::Overflow => DurationFault::Overflow,
        }
    }
}

/// Number of ASCII digits at the start of `s`.
pub open spec fn leading_digits(s: Seq<char>) -> nat
    decreases s.len(),
{
    if s.len() > 0 && is_digit(s[0]) {
        1 + leading_digits(s.drop_first())
    } else {
        0
    }
}

/// Number of ASCII letters at the start of `s`.
pub open spec fn leading_letters(s: Seq<char>) -> nat
    decreases s.len(),
{
    if s.len() > 0 && is_alpha(s[0]) {
        1 + leading_letters(s.drop_first())
    } else {
        0
    }
}

/// Nanoseconds in one of the units `ns`, `us`, `ms`, `s`, `m`, `h`, `d`.
pub open spec fn unit_nanos(u: Seq<char>) -> Option<int> {
    if u == seq!['n', 's'] {
        Some(1)
    } else if u == seq!['u', 's'] {
        Some(NANOS_PER_MICRO as int)
    } else if u == seq!['m', 's'] {
        Some(NANOS_PER_MILLI as int)
    } else if u == seq!['s'] {
        Some(NANOS_PER_SECOND as int)
    } else if u == seq!['m'] {
        Some(NANOS_PER_MINUTE as int)
    } else if u == seq!['h'] {
        Some(NANOS_PER_HOUR as int)
    } else if u == seq!['d'] {
        Some(NANOS_PER_DAY as int)
    } else {
        None
    }
}

pub proof fn lemma_leading_digits_bound(s: Seq<char>)
    ensures
        leading_digits(s) <= s.len(),
    decreases s.len(),
{
    if s.len() > 0 && is_digit(s[0]) {
        lemma_leading_digits_bound(s.drop_first());
    }
}

pub proof fn lemma_leading_letters_bound(s: Seq<char>)
    ensures
        leading_letters(s) <= s.len(),
    decreases s.len(),
{
    if s.len() > 0 && is_alpha(s[0]) {
        lemma_leading_letters_bound(s.drop_first());
    }
}

/// Reads the segments `<number><unit>` of `r` from left to right, adding
/// each to `total`; the first fault met ends the reading.
pub open spec fn sum_segments(r: Seq<char>, total: int) -> Result<int, DurationFault>
    decreases r.len(),
{
    if r.len() == 0 {
        Ok(total)
    } else {
        let nd = leading_digits(r);
        if nd == 0 {
            Err(DurationFault::ExpectedNumber(r))
        } else {
            let digits = r.take(nd as int);
            let value = digits_value(digits);
            if value > i128::MAX {
                Err(DurationFault::InvalidNumber(digits))
            } else {
                let after = r.skip(nd as int);
                let nu = leading_letters(after);
                if nu == 0 {
                    Err(DurationFault::MissingUnit(digits))
                } else {
                    let unit = after.take(nu as int);
                    match unit_nanos(unit) {
                        None => Err(DurationFault::UnsupportedUnit(unit)),
                        Some(f) => {
                            if value * f > i128::MAX || total + value * f > i128::MAX {
                                Err(DurationFault::Overflow)
                            } else {
                                proof {
                                    lemma_leading_digits_bound(r);
                                    lemma_leading_letters_bound(after);
                                }
                                sum_segments(after.skip(nu as int), total + value * f)
                            }
                        },
                    }
                }
            }
        }
    }
}

/// The value, in nanoseconds, of a duration text: surrounding whitespace is
/// ignored, an optional sign comes first, then one or more segments.
pub open spec fn duration_value(input: Seq<char>) -> Result<int, DurationFault> {
    let s = trim(input);
    if s.len() == 0 {
        Err(DurationFault::Empty)
    } else {
        let negative = s[0] == '-';
        let rest = if s[0] == '+' || s[0] == '-' {
            s.drop_first()
        } else {
            s
        };
        if rest.len() == 0 {
            Err(DurationFault::NoValue)
        } else {
            match sum_segments(rest, 0) {
                Ok(t) => Ok(
                    if negative {
                        -t
                    } else {
                        t
                    },
                ),
                Err(e) => Err(e),
            }
        }
    }
}

pub proof fn lemma_leading_digits_scan(s: Seq<char>, i: int)
    requires
        0 <= i <= s.len(),
        forall|k: int| 0 <= k < i ==> #[trigger] is_digit(s[k]),
        i == s.len() || !is_digit(s[i]),
    ensures
        leading_digits(s) == i,
    decreases i,
{
    if i > 0 {
        let t = s.drop_first();
        assert forall|k: int| 0 <= k < i - 1 implies #[trigger] is_digit(t[k]) by {
            assert(t[k] == s[k + 1]);
        }
        if i < s.len() {
            assert(t[i - 1] == s[i]);
        }
        lemma_leading_digits_scan(t, i - 1);
        assert(is_digit(s[0]));
    }
}

pub proof fn lemma_leading_letters_scan(s: Seq<char>, i: int)
    requires
        0 <= i <= s.len(),
        forall|k: int| 0 <= k < i ==> #[trigger] is_alpha(s[k]),
        i == s.len() || !is_alpha(s[i]),
    ensures
        leading_letters(s) == i,
    decreases i,
{
    if i > 0 {
        let t = s.drop_first();
        assert forall|k: int| 0 <= k < i - 1 implies #[trigger] is_alpha(t[k]) by {
            assert(t[k] == s[k + 1]);
        }
        if i < s.len() {
            assert(t[i - 1] == s[i]);
        }
        lemma_leading_letters_scan(t, i - 1);
        assert(is_alpha(s[0]));
    }
}

proof fn lemma_unit_names()
    ensures
        seq!['n', 's'].len() == 2 && seq!['n', 's'][0] == 'n' && seq!['n', 's'][1] == 's',
        seq!['u', 's'].len() == 2 && seq!['u', 's'][0] == 'u' && seq!['u', 's'][1] == 's',
        seq!['m', 's'].len() == 2 && seq!['m', 's'][0] == 'm' && seq!['m', 's'][1] == 's',
        seq!['s'].len() == 1 && seq!['s'][0] == 's',
        seq!['m'].len() == 1 && seq!['m'][0] == 'm',
        seq!['h'].len() == 1 && seq!['h'][0] == 'h',
        seq!['d'].len() == 1 && seq!['d'][0] == 'd',
{
}

/// Nanoseconds in the unit named by `v[a..b]`.
pub fn unit_nanos_at(v: &Vec<char>, a: usize, b: usize) -> (r: Option<i128>)
    requires
        a <= b <= v.len(),
    ensures
        unit_nanos(v@.subrange(a as int, b as int)) == match r {
            Some(f) => Some(f as int),
            None => None::<int>,
        },
{
    let ghost u = v@.subrange(a as int, b as int);
    proof {
        lemma_unit_names();
    }
    if b - a == 1 {
        let c = v[a];
        assert(u[0] == c);
        if c == 's' {
            assert(u =~= seq!['s']);
            Some(NANOS_PER_SECOND)
        } else if c == 'm' {
            assert(u =~= seq!['m']);
            Some(NANOS_PER_MINUTE)
        } else if c == 'h' {
            assert(u =~= seq!['h']);
            Some(NANOS_PER_HOUR)
        } else if c == 'd' {
            assert(u =~= seq!['d']);
            Some(NANOS_PER_DAY)
        } else {
            None
        }
    } else if b - a == 2 {
        let c0 = v[a];
        let c1 = v[a + 1];
        assert(u[0] == c0 && u[1] == c1);
        if c1 == 's' && c0 == 'n' {
            assert(u =~= seq!['n', 's']);
            Some(1)
        } else if c1 == 's' && c0 == 'u' {
            assert(u =~= seq!['u', 's']);
            Some(NANOS_PER_MICRO)
        } else if c1 == 's' && c0 == 'm' {
            assert(u =~= seq!['m', 's']);
            Some(NANOS_PER_MILLI)
        } else {
            None
        }
    } else {
        None
    }
}

/// Parses a duration text into signed nanoseconds.
///
/// Examples: `+2h` is 7_200_000_000_000, `-30m` is -1_800_000_000_000 and
/// `1h15m` is 4_500_000_000_000.
pub fn parse_duration_ns(input: &str) -> (r: Result<i128, DurationError>)
    ensures
        duration_value(input@) == match r {
            Ok(x) => Ok(x as int),
            Err(e) => Err::<int, DurationFault>(e@),
        },
{
    let v = chars_of(input);
    let (a, b) = trim_bounds(&v);
    let ghost s = trim(input@);
    assert(s == v@.subrange(a as int, b as int));
    if a == b {
        return Err(DurationError::Empty);
    }
    let first = v[a];
    assert(s[0] == first);
    let negative = first == '-';
    let rest_start = if first == '+' || first == '-' {
        a + 1
    } else {
        a
    };
    let ghost rest = v@.subrange(rest_start as int, b as int);
    assert(rest == if s[0] == '+' || s[0] == '-' {
        s.drop_first()
    } else {
        s
    });
    if rest_start == b {
        return Err(DurationError::NoValue);
    }
    let mut total: i128 = 0;
    let mut i = rest_start;
    assert(rest == v@.subrange(i as int, b as int));
    while i < b
        invariant
            rest_start <= i <= b <= v.len(),
            0 <= total,
            v@ == input@,
            s == trim(input@),
            s.len() > 0,
            negative == (s[0] == '-'),
            rest == if s[0] == '+' || s[0] == '-' {
                s.drop_first()
            } else {
                s
            },
            rest.len() > 0,
            sum_segments(rest, 0) == sum_segments(v@.subrange(i as int, b as int), total as int),
        decreases b - i,
    {
        let ghost r = v@.subrange(i as int, b as int);
        let start = i;
        while i < b && is_digit_char(v[i])
            invariant
                start <= i <= b <= v.len(),
                forall|k: int| start <= k < i ==> #[trigger] is_digit(v@[k]),
            decreases b - i,
        {
            i = i + 1;
        }
        proof {
            assert forall|k: int| 0 <= k < i - start implies #[trigger] is_digit(r[k]) by {
                assert(r[k] == v@[start + k]);
            }
            if i < b {
                assert(r[i - start] == v@[i as int]);
            }
            lemma_leading_digits_scan(r, i - start);
        }
        if start == i {
            return Err(DurationError::ExpectedNumber(string_between(&v, start, b)));
        }
        let ghost digits = r.take(i - start);
        assert(digits =~= v@.subrange(start as int, i as int));
        assert(all_digits(digits)) by {
            assert forall|k: int| 0 <= k < digits.len() implies #[trigger] is_digit(digits[k]) by {
                assert(digits[k] == v@[start + k]);
            }
        }
        let value = match digits_up_to(&v, start, i, i128::MAX as u128) {
            Some(x) => x as i128,
            None => {
                return Err(DurationError::InvalidNumber(string_between(&v, start, i)));
            },
        };
        let ghost after = r.skip(i - start);
        assert(after =~= v@.subrange(i as int, b as int));
        let unit_start = i;
        while i < b && is_alpha_char(v[i])
            invariant
                unit_start <= i <= b <= v.len(),
                forall|k: int| unit_start <= k < i ==> #[trigger] is_alpha(v@[k]),
            decreases b - i,
        {
            i = i + 1;
        }
        proof {
            assert forall|k: int| 0 <= k < i - unit_start implies #[trigger] is_alpha(after[k]) by {
                assert(after[k] == v@[unit_start + k]);
            }
            if i < b {
                assert(after[i - unit_start] == v@[i as int]);
            }
            lemma_leading_letters_scan(after, i - unit_start);
        }
        if unit_start == i {
            return Err(DurationError::MissingUnit(string_between(&v, start, unit_start)));
        }
        let ghost unit = after.take(i - unit_start);
        assert(unit =~= v@.subrange(unit_start as int, i as int));
        let factor = match unit_nanos_at(&v, unit_start, i) {
            Some(f) => f,
            None => {
                return Err(DurationError::UnsupportedUnit(string_between(&v, unit_start, i)));
            },
        };
        let product = match value.checked_mul(factor) {
            Some(p) => p,
            None => {
                return Err(DurationError::Overflow);
            },
        };
        let next = match total.checked_add(product) {
            Some(t) => t,
            None => {
                return Err(DurationError::Overflow);
            },
        };
        assert(after.skip(i - unit_start) =~= v@.subrange(i as int, b as int));
        total = next;
    }
    assert(v@.subrange(i as int, b as int).len() == 0);
    if negative {
        Ok(-total)
    } else {
        Ok(total)
    }
}

/// `n` followed by `unit`, or nothing when `n` is zero.
pub open spec fn unit_part(n: int, unit: Seq<char>) -> Seq<char> {
    if n > 0 {
        decimal(n as nat) + unit
    } else {
        Seq::empty()
    }
}

/// Magnitude of `ns`.
pub open spec fn magnitude(ns: int) -> int {
    if ns < 0 {
        -ns
    } else {
        ns
    }
}

/// Text of a split duration: days, hours, minutes and seconds, each only
/// when non-zero, then the leftover nanoseconds when non-zero or when
/// nothing else was written.
pub open spec fn parts_text(days: int, hours: int, minutes: int, seconds: int, rem: int) -> Seq<
    char,
> {
    let body = unit_part(days, seq!['d']) + unit_part(hours, seq!['h']) + unit_part(
        minutes,
        seq!['m'],
    ) + unit_part(seconds, seq!['s']);
    let tail = if rem > 0 || body.len() == 0 {
        decimal(rem as nat) + seq!['n', 's']
    } else {
        Seq::empty()
    };
    body + tail
}

/// Canonical text of `ns` nanoseconds: the sign, then the magnitude split
/// into whole days, hours, minutes, seconds and leftover nanoseconds.
pub open spec fn duration_text(ns: int) -> Seq<char> {
    let a = magnitude(ns);
    let r1 = a % (NANOS_PER_DAY as int);
    let r2 = r1 % (NANOS_PER_HOUR as int);
    let r3 = r2 % (NANOS_PER_MINUTE as int);
    let sign = if ns < 0 {
        seq!['-']
    } else {
        Seq::empty()
    };
    sign + parts_text(
        a / (NANOS_PER_DAY as int),
        r1 / (NANOS_PER_HOUR as int),
        r2 / (NANOS_PER_MINUTE as int),
        r3 / (NANOS_PER_SECOND as int),
        r3 % (NANOS_PER_SECOND as int),
    )
}

fn push_unit_part(out: &mut Vec<char>, n: u128, unit: char)
    ensures
        final(out)@ == old(out)@ + unit_part(n as int, seq![unit]),
{
    if n > 0 {
        push_decimal(out, n);
        out.push(unit);
        assert(final(out)@ =~= old(out)@ + unit_part(n as int, seq![unit]));
    } else {
        assert(final(out)@ =~= old(out)@ + unit_part(n as int, seq![unit]));
    }
}

/// Renders `ns` nanoseconds as a duration text, such as `1h30m` or
/// `-2d500ns`; zero is `0ns`.
pub fn format_duration_ns(ns: i128) -> (r: String)
    requires
        ns != i128::MIN,
    ensures
        r@ == duration_text(ns as int),
{
    let a: u128 = if ns < 0 {
        (-ns) as u128
    } else {
        ns as u128
    };
    let days = a / (NANOS_PER_DAY as u128);
    let r1 = a % (NANOS_PER_DAY as u128);
    let hours = r1 / (NANOS_PER_HOUR as u128);
    let r2 = r1 % (NANOS_PER_HOUR as u128);
    let minutes = r2 / (NANOS_PER_MINUTE as u128);
    let r3 = r2 % (NANOS_PER_MINUTE as u128);
    let seconds = r3 / (NANOS_PER_SECOND as u128);
    let rem = r3 % (NANOS_PER_SECOND as u128);
    let mut out: Vec<char> = Vec::new();
    if ns < 0 {
        out.push('-');
    }
    let sign_len = out.len();
    let ghost sign = out@;
    push_unit_part(&mut out, days, 'd');
    push_unit_part(&mut out, hours, 'h');
    push_unit_part(&mut out, minutes, 'm');
    push_unit_part(&mut out, seconds, 's');
    let ghost body = out@.skip(sign.len() as int);
    assert(body =~= unit_part(days as int, seq!['d']) + unit_part(hours as int, seq!['h'])
        + unit_part(minutes as int, seq!['m']) + unit_part(seconds as int, seq!['s']));
    if rem > 0 || out.len() == sign_len {
        push_decimal(&mut out, rem);
        out.push('n');
        out.push('s');
    }
    assert(out@ =~= duration_text(ns as int));
    string_from_chars(&out)
}

/// Empty, or starting with a digit.
pub open spec fn opens_with_digit(s: Seq<char>) -> bool {
    s.len() == 0 || is_digit(s[0])
}

proof fn lemma_opens_with_digit_concat(x: Seq<char>, y: Seq<char>)
    requires
        opens_with_digit(x),
        opens_with_digit(y),
    ensures
        opens_with_digit(x + y),
{
    if x.len() > 0 {
        assert((x + y)[0] == x[0]);
    }
}

proof fn lemma_unit_part_opens_with_digit(n: int, unit: Seq<char>)
    ensures
        opens_with_digit(unit_part(n, unit)),
{
    if n > 0 {
        lemma_decimal_reads_back(n as nat);
        assert((decimal(n as nat) + unit)[0] == decimal(n as nat)[0]);
    }
}

/// Reading one segment `<n><unit>` off the front adds `n * f` to the total.
proof fn lemma_segment_step(n: nat, unit: Seq<char>, f: int, rest: Seq<char>, total: int)
    requires
        unit.len() >= 1,
        forall|k: int| 0 <= k < unit.len() ==> #[trigger] is_alpha(unit[k]),
        unit_nanos(unit) == Some(f),
        f > 0,
        opens_with_digit(rest),
        total >= 0,
        n * f + total <= i128::MAX,
    ensures
        sum_segments(decimal(n) + unit + rest, total) == sum_segments(rest, total + n * f),
{
    lemma_decimal_reads_back(n);
    let d = decimal(n);
    let s = d + unit + rest;
    assert forall|k: int| 0 <= k < d.len() implies #[trigger] is_digit(s[k]) by {
        assert(s[k] == d[k]);
        assert(is_digit(d[k]));
    }
    assert(s[d.len() as int] == unit[0]);
    lemma_leading_digits_scan(s, d.len() as int);
    assert(s.take(d.len() as int) =~= d);
    assert(n <= n * f) by (nonlinear_arith)
        requires
            f > 0,
    ;
    let after = s.skip(d.len() as int);
    assert(after =~= unit + rest);
    assert forall|k: int| 0 <= k < unit.len() implies #[trigger] is_alpha(after[k]) by {
        assert(after[k] == unit[k]);
    }
    if unit.len() < after.len() {
        assert(after[unit.len() as int] == rest[0]);
    }
    lemma_leading_letters_scan(after, unit.len() as int);
    assert(after.take(unit.len() as int) =~= unit);
    assert(after.skip(unit.len() as int) =~= rest);
}

/// Reading an optional segment `unit_part(n, unit)` adds `n * f`.
proof fn lemma_part_step(n: int, unit: Seq<char>, f: int, rest: Seq<char>, total: int)
    requires
        n >= 0,
        unit.len() >= 1,
        forall|k: int| 0 <= k < unit.len() ==> #[trigger] is_alpha(unit[k]),
        unit_nanos(unit) == Some(f),
        f > 0,
        opens_with_digit(rest),
        total >= 0,
        n * f + total <= i128::MAX,
    ensures
        sum_segments(unit_part(n, unit) + rest, total) == sum_segments(rest, total + n * f),
{
    if n > 0 {
        assert(unit_part(n, unit) + rest =~= decimal(n as nat) + unit + rest);
        lemma_segment_step(n as nat, unit, f, rest, total);
    } else {
        assert(unit_part(n, unit) + rest =~= rest);
    }
}

/// The text of a split duration is non-empty, opens with a digit and ends
/// with a letter.
proof fn lemma_parts_text_shape(days: int, hours: int, minutes: int, seconds: int, rem: int)
    requires
        days >= 0,
        hours >= 0,
        minutes >= 0,
        seconds >= 0,
        rem >= 0,
    ensures
        parts_text(days, hours, minutes, seconds, rem).len() > 0,
        is_digit(parts_text(days, hours, minutes, seconds, rem)[0]),
        is_alpha(parts_text(days, hours, minutes, seconds, rem).last()),
        opens_with_digit(parts_text(days, hours, minutes, seconds, rem)),
{
    let pd = unit_part(days, seq!['d']);
    let ph = unit_part(hours, seq!['h']);
    let pm = unit_part(minutes, seq!['m']);
    let ps = unit_part(seconds, seq!['s']);
    let body = pd + ph + pm + ps;
    let tail = if rem > 0 || body.len() == 0 {
        decimal(rem as nat) + seq!['n', 's']
    } else {
        Seq::<char>::empty()
    };
    let rest = parts_text(days, hours, minutes, seconds, rem);
    assert(rest == body + tail);
    lemma_unit_part_opens_with_digit(days, seq!['d']);
    lemma_unit_part_opens_with_digit(hours, seq!['h']);
    lemma_unit_part_opens_with_digit(minutes, seq!['m']);
    lemma_unit_part_opens_with_digit(seconds, seq!['s']);
    lemma_decimal_reads_back(rem as nat);
    assert(opens_with_digit(tail)) by {
        if tail.len() > 0 {
            assert(tail[0] == decimal(rem as nat)[0]);
        }
    }
    lemma_opens_with_digit_concat(ps, tail);
    lemma_opens_with_digit_concat(pm, ps + tail);
    lemma_opens_with_digit_concat(ph, pm + ps + tail);
    lemma_opens_with_digit_concat(pd, ph + pm + ps + tail);
    assert(rest =~= pd + (ph + (pm + (ps + tail))));
    assert(rest.len() > 0);
    if tail.len() > 0 {
        assert(rest.last() == 's');
    } else {
        assert(rest =~= body);
        if ps.len() > 0 {
            assert(body.last() == 's');
        } else if pm.len() > 0 {
            assert(body =~= pd + ph + pm);
            assert(body.last() == 'm');
        } else if ph.len() > 0 {
            assert(body =~= pd + ph);
            assert(body.last() == 'h');
        } else {
            assert(body =~= pd);
            assert(body.last() == 'd');
        }
    }
}

proof fn lemma_unit_values()
    ensures
        unit_nanos(seq!['d']) == Some(NANOS_PER_DAY as int),
        unit_nanos(seq!['h']) == Some(NANOS_PER_HOUR as int),
        unit_nanos(seq!['m']) == Some(NANOS_PER_MINUTE as int),
        unit_nanos(seq!['s']) == Some(NANOS_PER_SECOND as int),
        unit_nanos(seq!['n', 's']) == Some(1int),
        seq!['d'].len() == 1 && seq!['d'][0] == 'd',
        seq!['h'].len() == 1 && seq!['h'][0] == 'h',
        seq!['m'].len() == 1 && seq!['m'][0] == 'm',
        seq!['s'].len() == 1 && seq!['s'][0] == 's',
        seq!['n', 's'].len() == 2 && seq!['n', 's'][0] == 'n' && seq!['n', 's'][1] == 's',
{
    lemma_unit_names();
}

proof fn lemma_products_nonneg(days: int, hours: int, minutes: int, seconds: int)
    requires
        days >= 0,
        hours >= 0,
        minutes >= 0,
        seconds >= 0,
    ensures
        days * NANOS_PER_DAY >= 0,
        hours * NANOS_PER_HOUR >= 0,
        minutes * NANOS_PER_MINUTE >= 0,
        seconds * NANOS_PER_SECOND >= 0,
{
    assert(days * NANOS_PER_DAY >= 0 && hours * NANOS_PER_HOUR >= 0 && minutes * NANOS_PER_MINUTE
        >= 0 && seconds * NANOS_PER_SECOND >= 0) by (nonlinear_arith)
        requires
            days >= 0,
            hours >= 0,
            minutes >= 0,
            seconds >= 0,
    ;
}

/// The text of a split duration reads back as the sum of its parts.
#[verifier::spinoff_prover]
proof fn lemma_parts_text_reads_back(days: int, hours: int, minutes: int, seconds: int, rem: int)
    requires
        days >= 0,
        hours >= 0,
        minutes >= 0,
        seconds >= 0,
        rem >= 0,
        days * NANOS_PER_DAY + hours * NANOS_PER_HOUR + minutes * NANOS_PER_MINUTE + seconds
            * NANOS_PER_SECOND + rem <= i128::MAX,
    ensures
        sum_segments(parts_text(days, hours, minutes, seconds, rem), 0) == Ok::<
            int,
            DurationFault,
        >(
            days * NANOS_PER_DAY + hours * NANOS_PER_HOUR + minutes * NANOS_PER_MINUTE + seconds
                * NANOS_PER_SECOND + rem,
        ),
{
    let day = NANOS_PER_DAY as int;
    let hour = NANOS_PER_HOUR as int;
    let minute = NANOS_PER_MINUTE as int;
    let second = NANOS_PER_SECOND as int;
    let pd = unit_part(days, seq!['d']);
    let ph = unit_part(hours, seq!['h']);
    let pm = unit_part(minutes, seq!['m']);
    let ps = unit_part(seconds, seq!['s']);
    let body = pd + ph + pm + ps;
    let tail = if rem > 0 || body.len() == 0 {
        decimal(rem as nat) + seq!['n', 's']
    } else {
        Seq::<char>::empty()
    };
    let rest = parts_text(days, hours, minutes, seconds, rem);
    assert(rest =~= pd + (ph + (pm + (ps + tail))));
    lemma_unit_part_opens_with_digit(hours, seq!['h']);
    lemma_unit_part_opens_with_digit(minutes, seq!['m']);
    lemma_unit_part_opens_with_digit(seconds, seq!['s']);
    lemma_decimal_reads_back(rem as nat);
    assert(opens_with_digit(tail)) by {
        if tail.len() > 0 {
            assert(tail[0] == decimal(rem as nat)[0]);
        }
    }
    lemma_opens_with_digit_concat(ps, tail);
    lemma_opens_with_digit_concat(pm, ps + tail);
    lemma_opens_with_digit_concat(ph, pm + ps + tail);
    assert(pm + ps + tail =~= pm + (ps + tail));
    assert(ph + pm + ps + tail =~= ph + (pm + (ps + tail)));
    lemma_unit_values();
    lemma_products_nonneg(days, hours, minutes, seconds);
    lemma_part_step(days, seq!['d'], day, ph + (pm + (ps + tail)), 0);
    lemma_part_step(hours, seq!['h'], hour, pm + (ps + tail), days * day);
    lemma_part_step(minutes, seq!['m'], minute, ps + tail, days * day + hours * hour);
    lemma_part_step(
        seconds,
        seq!['s'],
        second,
        tail,
        days * day + hours * hour + minutes * minute,
    );
    let before_tail = days * day + hours * hour + minutes * minute + seconds * second;
    if tail.len() > 0 {
        assert(tail =~= decimal(rem as nat) + seq!['n', 's'] + Seq::<char>::empty());
        lemma_segment_step(rem as nat, seq!['n', 's'], 1, Seq::<char>::empty(), before_tail);
    } else {
        assert(rem == 0);
    }
}

/// Rendering a duration and reading the text back gives the same number of
/// nanoseconds, for every value whose magnitude fits in 128 bits.
pub proof fn lemma_duration_round_trip(ns: i128)
    requires
        ns != i128::MIN,
    ensures
        duration_value(duration_text(ns as int)) == Ok::<int, DurationFault>(ns as int),
{
    let x = ns as int;
    let a = magnitude(x);
    let r1 = a % (NANOS_PER_DAY as int);
    let r2 = r1 % (NANOS_PER_HOUR as int);
    let r3 = r2 % (NANOS_PER_MINUTE as int);
    let days = a / (NANOS_PER_DAY as int);
    let hours = r1 / (NANOS_PER_HOUR as int);
    let minutes = r2 / (NANOS_PER_MINUTE as int);
    let seconds = r3 / (NANOS_PER_SECOND as int);
    let rem = r3 % (NANOS_PER_SECOND as int);
    assert(a == days * NANOS_PER_DAY + hours * NANOS_PER_HOUR + minutes * NANOS_PER_MINUTE
        + seconds * NANOS_PER_SECOND + rem);
    let rest = parts_text(days, hours, minutes, seconds, rem);
    lemma_parts_text_shape(days, hours, minutes, seconds, rem);
    lemma_parts_text_reads_back(days, hours, minutes, seconds, rem);
    let text = duration_text(x);
    if x < 0 {
        assert(text =~= seq!['-'] + rest);
        assert(text[0] == '-');
        assert(text.drop_first() =~= rest);
    } else {
        assert(text =~= rest);
    }
    assert(text.last() == rest.last());
    lemma_trim_of_unspaced_ends(text);
}

/// A leading `-` negates a duration and a leading `+` leaves it as it is,
/// for every non-empty text without surrounding whitespace and without a
/// sign of its own. (The empty text is excluded: it is `Empty`, while a bare
/// sign is `NoValue`.)
pub proof fn lemma_duration_sign(s: Seq<char>)
    requires
        s.len() > 0,
        trim(s) == s,
        s[0] != '+' && s[0] != '-',
    ensures
        duration_value(seq!['-'] + s) == match duration_value(s) {
            Ok(x) => Ok(-x),
            Err(e) => Err::<int, DurationFault>(e),
        },
        duration_value(seq!['+'] + s) == duration_value(s),
{
    lemma_trimmed_ends(s);
    let neg = seq!['-'] + s;
    let pos = seq!['+'] + s;
    assert(neg[0] == '-' && pos[0] == '+');
    assert(neg.last() == s.last() && pos.last() == s.last());
    lemma_trim_of_unspaced_ends(neg);
    lemma_trim_of_unspaced_ends(pos);
    assert(neg.drop_first() =~= s);
    assert(pos.drop_first() =~= s);
}

/// Whitespace around a duration text changes nothing.
pub proof fn lemma_duration_ignores_surrounding_space(w1: Seq<char>, s: Seq<char>, w2: Seq<char>)
    requires
        all_space(w1),
        all_space(w2),
    ensures
        duration_value(w1 + s + w2) == duration_value(s),
{
    lemma_trim_ignores_surrounding_space(w1, s, w2);
}

/// The total of a run of segments `<digits><unit>` with units `ns`, `us`,
/// `ms`, `s`, `m`, `h` or `d` (the text `([0-9]+(ns|us|ms|s|m|h|d))*`), or
/// `None` when `r` is not such a run. Each segment's digits and letters are
/// taken whole.
pub open spec fn segments_total(r: Seq<char>) -> Option<int>
    decreases r.len(),
{
    if r.len() == 0 {
        Some(0)
    } else {
        let nd = leading_digits(r);
        if nd == 0 {
            None
        } else {
            let after = r.skip(nd as int);
            let nu = leading_letters(after);
            if nu == 0 {
                None
            } else {
                match unit_nanos(after.take(nu as int)) {
                    None => None,
                    Some(f) => {
                        proof {
                            lemma_leading_digits_bound(r);
                            lemma_leading_letters_bound(after);
                        }
                        match segments_total(after.skip(nu as int)) {
                            Some(t) => Some(digits_value(r.take(nd as int)) * f + t),
                            None => None,
                        }
                    },
                }
            }
        }
    }
}

pub proof fn lemma_leading_digits_facts(s: Seq<char>)
    ensures
        leading_digits(s) <= s.len(),
        forall|k: int| 0 <= k < leading_digits(s) ==> #[trigger] is_digit(s[k]),
        leading_digits(s) < s.len() ==> !is_digit(s[leading_digits(s) as int]),
    decreases s.len(),
{
    if s.len() > 0 && is_digit(s[0]) {
        let t = s.drop_first();
        lemma_leading_digits_facts(t);
        assert forall|k: int| 0 <= k < leading_digits(s) implies #[trigger] is_digit(s[k]) by {
            if k > 0 {
                assert(s[k] == t[k - 1]);
            }
        }
        if leading_digits(s) < s.len() {
            assert(s[leading_digits(s) as int] == t[leading_digits(t) as int]);
        }
    }
}

pub proof fn lemma_leading_letters_facts(s: Seq<char>)
    ensures
        leading_letters(s) <= s.len(),
        forall|k: int| 0 <= k < leading_letters(s) ==> #[trigger] is_alpha(s[k]),
        leading_letters(s) < s.len() ==> !is_alpha(s[leading_letters(s) as int]),
    decreases s.len(),
{
    if s.len() > 0 && is_alpha(s[0]) {
        let t = s.drop_first();
        lemma_leading_letters_facts(t);
        assert forall|k: int| 0 <= k < leading_letters(s) implies #[trigger] is_alpha(s[k]) by {
            if k > 0 {
                assert(s[k] == t[k - 1]);
            }
        }
        if leading_letters(s) < s.len() {
            assert(s[leading_letters(s) as int] == t[leading_letters(t) as int]);
        }
    }
}

proof fn lemma_digit_not_alpha(c: char)
    ensures
        is_digit(c) ==> !is_alpha(c),
{
}

/// A run of segments totals a non-negative amount, and when non-empty it
/// opens with a digit and ends with a letter.
pub proof fn lemma_segments_shape(r: Seq<char>)
    requires
        segments_total(r) is Some,
    ensures
        segments_total(r)->0 >= 0,
        r.len() > 0 ==> is_digit(r[0]) && is_alpha(r.last()),
    decreases r.len(),
{
    if r.len() > 0 {
        let nd = leading_digits(r);
        lemma_leading_digits_facts(r);
        let after = r.skip(nd as int);
        let nu = leading_letters(after);
        lemma_leading_letters_facts(after);
        let rest = after.skip(nu as int);
        lemma_segments_shape(rest);
        let digits = r.take(nd as int);
        assert(all_digits(digits)) by {
            assert forall|i: int| 0 <= i < digits.len() implies #[trigger] is_digit(digits[i]) by {
                assert(digits[i] == r[i]);
            }
        }
        crate::text::lemma_digits_value_nonneg(digits);
        lemma_unit_names();
        let f = unit_nanos(after.take(nu as int))->0;
        assert(f >= 1);
        let dv = digits_value(digits);
        assert(dv * f >= 0) by (nonlinear_arith)
            requires
                dv >= 0,
                f >= 1,
        ;
        assert(is_digit(r[0]));
        if rest.len() > 0 {
            assert(r.last() == rest.last());
        } else {
            assert(after[nu - 1] == r[nd + nu - 1]);
            assert(r.len() == nd + nu);
        }
    }
}

/// Reading segments onto a running total succeeds exactly when they form a
/// run whose total, added on, stays within 128 bits, and then gives that sum.
pub proof fn lemma_sum_segments_total(r: Seq<char>, t: int)
    requires
        0 <= t <= i128::MAX,
    ensures
        sum_segments(r, t) is Ok <==> (segments_total(r) matches Some(x) && t + x <= i128::MAX),
        sum_segments(r, t) matches Ok(v) ==> v == t + segments_total(r)->0,
    decreases r.len(),
{
    if r.len() > 0 {
        let nd = leading_digits(r);
        lemma_leading_digits_facts(r);
        if nd > 0 {
            let after = r.skip(nd as int);
            let nu = leading_letters(after);
            lemma_leading_letters_facts(after);
            let digits = r.take(nd as int);
            assert(all_digits(digits)) by {
                assert forall|i: int| 0 <= i < digits.len() implies #[trigger] is_digit(
                    digits[i],
                ) by {
                    assert(digits[i] == r[i]);
                }
            }
            crate::text::lemma_digits_value_nonneg(digits);
            let dv = digits_value(digits);
            if nu > 0 {
                let unit = after.take(nu as int);
                lemma_unit_names();
                if let Some(f) = unit_nanos(unit) {
                    assert(f >= 1);
                    let rest = after.skip(nu as int);
                    assert(dv * f >= dv) by (nonlinear_arith)
                        requires
                            dv >= 0,
                            f >= 1,
                    ;
                    if segments_total(rest) is Some {
                        lemma_segments_shape(rest);
                    }
                    if dv <= i128::MAX && dv * f <= i128::MAX && t + dv * f <= i128::MAX {
                        lemma_sum_segments_total(rest, t + dv * f);
                    }
                }
            }
        }
    }
}

/// The sign-free part of a trimmed duration text.
pub open spec fn unsigned_part(s: Seq<char>) -> Seq<char> {
    if s.len() > 0 && (s[0] == '+' || s[0] == '-') {
        s.drop_first()
    } else {
        s
    }
}

/// Which texts are durations: after trimming, an optional sign and then a
/// non-empty run of segments `<digits><unit>` whose total fits in 128 bits;
/// the value is that total, negated after a `-`.
pub proof fn lemma_duration_accepts(input: Seq<char>)
    ensures
        duration_value(input) is Ok <==> ({
            let rest = unsigned_part(trim(input));
            &&& rest.len() > 0
            &&& segments_total(rest) matches Some(x)
            &&& x <= i128::MAX
        }),
        duration_value(input) matches Ok(v) ==> v == if trim(input)[0] == '-' {
            -segments_total(unsigned_part(trim(input)))->0
        } else {
            segments_total(unsigned_part(trim(input)))->0
        },
{
    let s = trim(input);
    lemma_sum_segments_total(unsigned_part(s), 0);
}

/// The total of two runs written one after the other is the sum of their
/// totals.
pub proof fn lemma_segments_total_concat(a: Seq<char>, b: Seq<char>)
    requires
        segments_total(a) is Some,
        segments_total(b) is Some,
    ensures
        segments_total(a + b) == Some(segments_total(a)->0 + segments_total(b)->0),
    decreases a.len(),
{
    if a.len() == 0 {
        assert(a + b =~= b);
    } else {
        lemma_segments_shape(b);
        let s = a + b;
        let nd = leading_digits(a);
        lemma_leading_digits_facts(a);
        let after = a.skip(nd as int);
        let nu = leading_letters(after);
        lemma_leading_letters_facts(after);
        let rest = after.skip(nu as int);
        assert(nd < a.len());
        assert forall|k: int| 0 <= k < nd implies #[trigger] is_digit(s[k]) by {
            assert(s[k] == a[k]);
        }
        assert(s[nd as int] == a[nd as int]);
        lemma_leading_digits_scan(s, nd as int);
        assert(s.take(nd as int) =~= a.take(nd as int));
        let s_after = s.skip(nd as int);
        assert(s_after =~= after + b);
        assert forall|k: int| 0 <= k < nu implies #[trigger] is_alpha(s_after[k]) by {
            assert(s_after[k] == after[k]);
        }
        if nu < after.len() {
            assert(s_after[nu as int] == after[nu as int]);
        } else if b.len() > 0 {
            assert(s_after[nu as int] == b[0]);
            lemma_digit_not_alpha(b[0]);
        }
        lemma_leading_letters_scan(s_after, nu as int);
        assert(s_after.take(nu as int) =~= after.take(nu as int));
        assert(s_after.skip(nu as int) =~= rest + b);
        lemma_segments_total_concat(rest, b);
    }
}

/// Writing two unsigned durations one after the other adds them, when the
/// sum fits in 128 bits: `1h15m` is `1h` plus `15m`, and `1h1h` is two hours.
pub proof fn lemma_duration_concat(a: Seq<char>, b: Seq<char>)
    requires
        a.len() > 0,
        b.len() > 0,
        segments_total(a) is Some,
        segments_total(b) is Some,
        segments_total(a)->0 + segments_total(b)->0 <= i128::MAX,
    ensures
        duration_value(a) == Ok::<int, DurationFault>(segments_total(a)->0),
        duration_value(b) == Ok::<int, DurationFault>(segments_total(b)->0),
        duration_value(a + b) == Ok::<int, DurationFault>(
            segments_total(a)->0 + segments_total(b)->0,
        ),
{
    lemma_segments_shape(a);
    lemma_segments_shape(b);
    lemma_segments_total_concat(a, b);
    let ab = a + b;
    assert(ab[0] == a[0]);
    assert(ab.last() == b.last());
    lemma_digit_not_alpha(a[0]);
    lemma_trim_of_unspaced_ends(a);
    lemma_trim_of_unspaced_ends(b);
    lemma_trim_of_unspaced_ends(ab);
    lemma_duration_accepts(a);
    lemma_duration_accepts(b);
    lemma_duration_accepts(ab);
    lemma_sum_segments_total(a, 0);
    lemma_sum_segments_total(b, 0);
    lemma_sum_segments_total(ab, 0);
}

/// A decimal numeral of a positive number does not start with `0`.
pub proof fn lemma_decimal_no_leading_zero(n: nat)
    requires
        n > 0,
    ensures
        decimal(n)[0] != '0',
    decreases n,
{
    if n >= 10 {
        lemma_decimal_no_leading_zero(n / 10);
        crate::text::lemma_decimal_reads_back(n / 10);
        assert(decimal(n)[0] == decimal(n / 10)[0]);
    }
}

/// The shape of a rendered duration: an optional `-`, then whole days,
/// hours below 24, minutes below 60, seconds below 60 and nanoseconds below
/// a billion, each written without leading zeros and left out when zero,
/// except that zero itself is `0ns`; the parts add up to the magnitude.
pub proof fn lemma_duration_text_shape(ns: i128)
    requires
        ns != i128::MIN,
    ensures
        ns == 0 ==> duration_text(0) == seq!['0', 'n', 's'],
        ({
            let a = magnitude(ns as int);
            let days = a / (NANOS_PER_DAY as int);
            let hours = (a % (NANOS_PER_DAY as int)) / (NANOS_PER_HOUR as int);
            let minutes = (a % (NANOS_PER_HOUR as int)) / (NANOS_PER_MINUTE as int);
            let seconds = (a % (NANOS_PER_MINUTE as int)) / (NANOS_PER_SECOND as int);
            let rem = a % (NANOS_PER_SECOND as int);
            &&& 0 <= days && 0 <= hours < 24 && 0 <= minutes < 60 && 0 <= seconds < 60
            &&& 0 <= rem < NANOS_PER_SECOND
            &&& a == days * NANOS_PER_DAY + hours * NANOS_PER_HOUR + minutes * NANOS_PER_MINUTE
                + seconds * NANOS_PER_SECOND + rem
            &&& duration_text(ns as int) == (if ns < 0 {
                seq!['-']
            } else {
                Seq::<char>::empty()
            }) + parts_text(days, hours, minutes, seconds, rem)
        }),
        duration_text(ns as int).len() > 0,
{
    let a = magnitude(ns as int);
    let r1 = a % (NANOS_PER_DAY as int);
    let r2 = r1 % (NANOS_PER_HOUR as int);
    let r3 = r2 % (NANOS_PER_MINUTE as int);
    assert(r2 == a % (NANOS_PER_HOUR as int)) by {
        vstd::arithmetic::div_mod::lemma_mod_mod(a, NANOS_PER_HOUR as int, 24);
    }
    assert(r3 == a % (NANOS_PER_MINUTE as int)) by {
        vstd::arithmetic::div_mod::lemma_mod_mod(a, NANOS_PER_MINUTE as int, 1440);
    }
    assert(r3 % (NANOS_PER_SECOND as int) == a % (NANOS_PER_SECOND as int)) by {
        vstd::arithmetic::div_mod::lemma_mod_mod(a, NANOS_PER_SECOND as int, 86400);
    }
    if ns == 0 {
        assert(decimal(0) == seq!['0']);
        assert(duration_text(0) =~= seq!['0', 'n', 's']);
    }
    lemma_parts_text_shape(
        a / (NANOS_PER_DAY as int),
        r1 / (NANOS_PER_HOUR as int),
        r2 / (NANOS_PER_MINUTE as int),
        r3 / (NANOS_PER_SECOND as int),
        r3 % (NANOS_PER_SECOND as int),
    );
}

} // verus!
