//! Character classes, decimal numerals and whitespace trimming.
use vstd::prelude::*;

verus! {

/// ASCII decimal digit.
pub open spec fn is_digit(c: char) -> bool {
    '0' <= c && c <= '9'
}

/// Numeric value of an ASCII decimal digit.
pub open spec fn digit_value(c: char) -> int {
    c as int - '0' as int
}

/// The ASCII digit for `d < 10`.
pub open spec fn digit_char(d: nat) -> char {
    (d + '0' as int) as char
}

/// Value of a run of decimal digits, most significant first.
pub open spec fn digits_value(s: Seq<char>) -> int
    decreases s.len(),
{
    if s.len() == 0 {
        0
    } else {
        digits_value(s.drop_last()) * 10 + digit_value(s.last())
    }
}

/// Every character is an ASCII digit.
pub open spec fn all_digits(s: Seq<char>) -> bool {
    forall|i: int| 0 <= i < s.len() ==> #[trigger] is_digit(s[i])
}

/// Decimal numeral of `n`, without leading zeros ("0" for zero).
pub open spec fn decimal(n: nat) -> Seq<char>
    decreases n,
{
    if n < 10 {
        seq![digit_char(n)]
    } else {
        decimal(n / 10).push(digit_char(n % 10))
    }
}

/// Unicode `White_Space`, the class that `str::trim` and
/// `char::is_whitespace` use.
pub open spec fn is_space(c: char) -> bool {
    ||| '\u{9}' <= c && c <= '\u{d}'
    ||| c == ' '
    ||| c == '\u{85}'
    ||| c == '\u{a0}'
    ||| c == '\u{1680}'
    ||| '\u{2000}' <= c && c <= '\u{200a}'
    ||| c == '\u{2028}'
    ||| c == '\u{2029}'
    ||| c == '\u{202f}'
    ||| c == '\u{205f}'
    ||| c == '\u{3000}'
}

/// ASCII letter.
pub open spec fn is_alpha(c: char) -> bool {
    ('a' <= c && c <= 'z') || ('A' <= c && c <= 'Z')
}

/// Number of whitespace characters at the start of `s`.
pub open spec fn leading_space(s: Seq<char>) -> nat
    decreases s.len(),
{
    if s.len() > 0 && is_space(s[0]) {
        1 + leading_space(s.drop_first())
    } else {
        0
    }
}

/// Number of whitespace characters at the end of `s`.
pub open spec fn trailing_space(s: Seq<char>) -> nat
    decreases s.len(),
{
    if s.len() > 0 && is_space(s.last()) {
        1 + trailing_space(s.drop_last())
    } else {
        0
    }
}

/// `s` without leading and trailing whitespace, as `str::trim` gives it.
pub open spec fn trim(s: Seq<char>) -> Seq<char> {
    let t = s.skip(leading_space(s) as int);
    t.take(t.len() - trailing_space(t))
}

/// The integer a numeral denotes under the rules of `str::parse` for signed
/// integers: an optional `+` or `-`, then one or more ASCII digits.
pub open spec fn numeral_value(s: Seq<char>) -> Option<int> {
    if s.len() == 0 {
        None
    } else if s[0] == '+' || s[0] == '-' {
        let body = s.drop_first();
        if body.len() > 0 && all_digits(body) {
            if s[0] == '-' {
                Some(-digits_value(body))
            } else {
                Some(digits_value(body))
            }
        } else {
            None
        }
    } else if all_digits(s) {
        Some(digits_value(s))
    } else {
        None
    }
}

pub fn is_space_char(c: char) -> (b: bool)
    ensures
        b == is_space(c),
{
    ('\u{9}' <= c && c <= '\u{d}') || c == ' ' || c == '\u{85}' || c == '\u{a0}' || c
        == '\u{1680}' || ('\u{2000}' <= c && c <= '\u{200a}') || c == '\u{2028}' || c
        == '\u{2029}' || c == '\u{202f}' || c == '\u{205f}' || c == '\u{3000}'
}

pub fn is_digit_char(c: char) -> (b: bool)
    ensures
        b == is_digit(c),
{
    '0' <= c && c <= '9'
}

pub fn is_alpha_char(c: char) -> (b: bool)
    ensures
        b == is_alpha(c),
{
    ('a' <= c && c <= 'z') || ('A' <= c && c <= 'Z')
}

pub fn digit_of(d: u8) -> (c: char)
    requires
        d < 10,
    ensures
        c == digit_char(d as nat),
        is_digit(c),
        digit_value(c) == d,
{
    let c = (d + 48u8) as char;
    c
}

pub fn chars_of(s: &str) -> (v: Vec<char>)
    ensures
        v@ == s@,
{
    let mut v: Vec<char> = Vec::new();
    for c in it: s.chars()
        invariant
            v@ == it.seq().take(it.index() as int),
    {
        v.push(c);
    }
    v
}

/// Appends the decimal numeral of `n` to `out`.
pub fn push_decimal(out: &mut Vec<char>, n: u128)
    ensures
        final(out)@ == old(out)@ + decimal(n as nat),
    decreases n,
{
    if n >= 10 {
        push_decimal(out, n / 10);
    }
    let d = (n % 10) as u8;
    out.push(digit_of(d));
    proof {
        if n >= 10 {
            assert(old(out)@ + decimal(n as nat) =~= old(out)@ + decimal((n / 10) as nat) + seq![
                digit_char((n % 10) as nat),
            ]);
        } else {
            assert(decimal(n as nat) == seq![digit_char(n as nat)]);
        }
    }
}

/// A decimal numeral is a non-empty run of digits that reads back as `n`.
pub proof fn lemma_decimal_reads_back(n: nat)
    ensures
        decimal(n).len() >= 1,
        all_digits(decimal(n)),
        digits_value(decimal(n)) == n,
    decreases n,
{
    if n >= 10 {
        lemma_decimal_reads_back(n / 10);
        let prefix = decimal(n / 10);
        let c = digit_char(n % 10);
        assert(decimal(n) == prefix.push(c));
        assert(prefix.push(c).drop_last() =~= prefix);
        assert(digit_value(c) == n % 10);
        assert(prefix.push(c).last() == c);
        assert(digits_value(prefix.push(c)) == digits_value(prefix) * 10 + digit_value(c));
        assert((n / 10) * 10 + n % 10 == n);
        assert(digits_value(decimal(n)) == n);
        assert forall|i: int| 0 <= i < decimal(n).len() implies #[trigger] is_digit(
            decimal(n)[i],
        ) by {
            if i < prefix.len() {
                assert(decimal(n)[i] == prefix[i]);
            }
        }
    } else {
        assert(seq![digit_char(n)].drop_last() =~= Seq::<char>::empty());
        assert(digit_value(digit_char(n)) == n);
        let one = seq![digit_char(n)];
        assert(decimal(n) == one);
        assert(one.last() == digit_char(n));
        assert(digits_value(one.drop_last()) == 0);
        assert(digits_value(one) == digits_value(one.drop_last()) * 10 + digit_value(one.last()));
    }
}

/// Extending a run of digits never lowers its value.
pub proof fn lemma_digits_value_monotone(s: Seq<char>, k: int)
    requires
        all_digits(s),
        0 <= k <= s.len(),
    ensures
        0 <= digits_value(s.take(k)) <= digits_value(s),
    decreases s.len() - k,
{
    if k == s.len() {
        assert(s.take(k) =~= s);
        lemma_digits_value_nonneg(s);
    } else {
        let t = s.drop_last();
        assert forall|i: int| 0 <= i < t.len() implies #[trigger] is_digit(t[i]) by {
            assert(t[i] == s[i]);
        }
        lemma_digits_value_monotone(t, k);
        assert(t.take(k) =~= s.take(k));
        lemma_digits_value_nonneg(t);
        assert(is_digit(s[s.len() - 1]));
    }
}

pub proof fn lemma_digits_value_nonneg(s: Seq<char>)
    requires
        all_digits(s),
    ensures
        digits_value(s) >= 0,
    decreases s.len(),
{
    if s.len() > 0 {
        let t = s.drop_last();
        assert forall|i: int| 0 <= i < t.len() implies #[trigger] is_digit(t[i]) by {
            assert(t[i] == s[i]);
        }
        lemma_digits_value_nonneg(t);
        assert(is_digit(s[s.len() - 1]));
    }
}

/// Reads the run of digits `v[start..end]` as a number no larger than
/// `bound`, or gives `None` when its value exceeds `bound`.
pub fn digits_up_to(v: &Vec<char>, start: usize, end: usize, bound: u128) -> (r: Option<u128>)
    requires
        start <= end <= v.len(),
        all_digits(v@.subrange(start as int, end as int)),
        bound >= 9,
    ensures
        r is Some <==> digits_value(v@.subrange(start as int, end as int)) <= bound,
        r matches Some(x) ==> x == digits_value(v@.subrange(start as int, end as int)),
{
    let ghost s = v@.subrange(start as int, end as int);
    let mut acc: u128 = 0;
    let mut k = start;
    assert(s.take(0) =~= Seq::<char>::empty());
    while k < end
        invariant
            start <= k <= end <= v.len(),
            s == v@.subrange(start as int, end as int),
            all_digits(s),
            bound >= 9,
            acc == digits_value(s.take(k - start)),
            acc <= bound,
        decreases end - k,
    {
        let c = v[k];
        assert(s[k - start] == c);
        assert(is_digit(s[k - start]));
        let d = (c as u32 - 48) as u128;
        assert(s.take(k - start + 1).drop_last() =~= s.take(k - start));
        assert(s.take(k - start + 1).last() == c);
        assert(d == digit_value(c));
        if acc > (bound - d) / 10 {
            proof {
                assert(acc * 10 + d > bound) by (nonlinear_arith)
                    requires
                        acc > (bound - d) / 10,
                        d <= 9,
                        bound >= 9,
                ;
                lemma_digits_value_monotone(s, k - start + 1);
            }
            return None;
        }
        assert(acc * 10 + d <= bound) by (nonlinear_arith)
            requires
                acc <= (bound - d) / 10,
                d <= 9,
                bound >= 9,
        ;
        acc = acc * 10 + d;
        k = k + 1;
    }
    assert(s.take(end - start) =~= s);
    Some(acc)
}

/// Parses `v[start..end]` as `str::parse::<i128>` does.
pub fn parse_i128_at(v: &Vec<char>, start: usize, end: usize) -> (r: Option<i128>)
    requires
        start <= end <= v.len(),
    ensures
        r is Some <==> (numeral_value(v@.subrange(start as int, end as int)) matches Some(x)
            && i128::MIN <= x <= i128::MAX),
        r matches Some(x) ==> numeral_value(v@.subrange(start as int, end as int)) == Some(
            x as int,
        ),
{
    let ghost s = v@.subrange(start as int, end as int);
    if start == end {
        return None;
    }
    let first = v[start];
    assert(s[0] == first);
    let negative = first == '-';
    let body_start = if first == '+' || first == '-' {
        start + 1
    } else {
        start
    };
    let ghost body = v@.subrange(body_start as int, end as int);
    if body_start == end {
        return None;
    }
    let mut k = body_start;
    while k < end
        invariant
            body_start <= k <= end <= v.len(),
            body == v@.subrange(body_start as int, end as int),
            forall|i: int| body_start <= i < k ==> #[trigger] is_digit(v@[i]),
            start < end,
            s == v@.subrange(start as int, end as int),
            first == v@[start as int],
            body_start == if first == '+' || first == '-' {
                start + 1
            } else {
                start as int
            },
        decreases end - k,
    {
        if !is_digit_char(v[k]) {
            proof {
                assert(!is_digit(body[k - body_start]));
                if first == '+' || first == '-' {
                    assert(s.drop_first() =~= body);
                } else {
                    assert(s =~= body);
                }
            }
            return None;
        }
        k = k + 1;
    }
    assert(all_digits(body)) by {
        assert forall|i: int| 0 <= i < body.len() implies #[trigger] is_digit(body[i]) by {
            assert(body[i] == v@[body_start + i]);
        }
    }
    if first == '+' || first == '-' {
        assert(s.drop_first() =~= body);
    } else {
        assert(s =~= body);
    }
    let bound: u128 = if negative {
        0x8000_0000_0000_0000_0000_0000_0000_0000u128
    } else {
        0x7fff_ffff_ffff_ffff_ffff_ffff_ffff_ffffu128
    };
    match digits_up_to(v, body_start, end, bound) {
        None => None,
        Some(m) => {
            if negative {
                if m == 0x8000_0000_0000_0000_0000_0000_0000_0000u128 {
                    Some(i128::MIN)
                } else {
                    Some(-(m as i128))
                }
            } else {
                Some(m as i128)
            }
        },
    }
}

/// Why a text is not a 64-bit integer, in the terms of the standard
/// library's `IntErrorKind`.
#[derive(Debug, Clone, Copy, PartialEq, Eq)]
pub enum NumberFault {
    /// The text is empty.
    Empty,
    /// A character that is not a digit, or a sign with no digits.
    InvalidDigit,
    /// The number is above the largest 64-bit integer.
    PosOverflow,
    /// The number is below the smallest 64-bit integer.
    NegOverflow,
}

/// The first fault met reading the digits `body[k..]` one by one, as
/// `str::parse` reads them: a non-digit, or a prefix whose value exceeds
/// `bound`.
pub open spec fn first_digit_fault(body: Seq<char>, negative: bool, bound: int, k: int) -> Option<
    NumberFault,
>
    decreases body.len() - k,
{
    if k < 0 || k >= body.len() {
        None
    } else if !is_digit(body[k]) {
        Some(NumberFault::InvalidDigit)
    } else if digits_value(body.take(k + 1)) > bound {
        Some(
            if negative {
                NumberFault::NegOverflow
            } else {
                NumberFault::PosOverflow
            },
        )
    } else {
        first_digit_fault(body, negative, bound, k + 1)
    }
}

/// The fault `str::parse::<i64>` reports for `s`, or `None` when it reads a
/// number.
pub open spec fn i64_fault(s: Seq<char>) -> Option<NumberFault> {
    if s.len() == 0 {
        Some(NumberFault::Empty)
    } else if (s[0] == '+' || s[0] == '-') && s.len() == 1 {
        Some(NumberFault::InvalidDigit)
    } else {
        let negative = s[0] == '-';
        let body = if s[0] == '+' || s[0] == '-' {
            s.drop_first()
        } else {
            s
        };
        first_digit_fault(
            body,
            negative,
            if negative {
                0x8000_0000_0000_0000
            } else {
                0x7fff_ffff_ffff_ffff
            },
            0,
        )
    }
}

/// A numeral within the 64-bit range reads without a fault.
pub proof fn lemma_i64_numeral_has_no_fault(s: Seq<char>)
    requires
        numeral_value(s) matches Some(x) && i64::MIN <= x <= i64::MAX,
    ensures
        i64_fault(s) is None,
{
    let negative = s[0] == '-';
    let body = if s[0] == '+' || s[0] == '-' {
        s.drop_first()
    } else {
        s
    };
    let bound: int = if negative {
        0x8000_0000_0000_0000
    } else {
        0x7fff_ffff_ffff_ffff
    };
    assert(all_digits(body) && digits_value(body) <= bound);
    lemma_no_digit_fault_from(body, negative, bound, 0);
}

proof fn lemma_no_digit_fault_from(body: Seq<char>, negative: bool, bound: int, k: int)
    requires
        all_digits(body),
        digits_value(body) <= bound,
        0 <= k,
    ensures
        first_digit_fault(body, negative, bound, k) is None,
    decreases body.len() - k,
{
    if k < body.len() {
        assert(is_digit(body[k]));
        lemma_digits_value_monotone(body, k + 1);
        lemma_no_digit_fault_from(body, negative, bound, k + 1);
    }
}

/// Parses `v[start..end]` as `str::parse::<i64>` does, reporting the fault
/// it would report.
pub fn parse_i64_at(v: &Vec<char>, start: usize, end: usize) -> (r: Result<i64, NumberFault>)
    requires
        start <= end <= v.len(),
    ensures
        r is Ok <==> (numeral_value(v@.subrange(start as int, end as int)) matches Some(x)
            && i64::MIN <= x <= i64::MAX),
        r matches Ok(x) ==> numeral_value(v@.subrange(start as int, end as int)) == Some(
            x as int,
        ),
        r matches Err(f) ==> i64_fault(v@.subrange(start as int, end as int)) == Some(f),
        r is Ok ==> i64_fault(v@.subrange(start as int, end as int)) is None,
{
    let ghost s = v@.subrange(start as int, end as int);
    if start == end {
        return Err(NumberFault::Empty);
    }
    let first = v[start];
    assert(s[0] == first);
    if (first == '+' || first == '-') && end - start == 1 {
        return Err(NumberFault::InvalidDigit);
    }
    let negative = first == '-';
    let body_start = if first == '+' || first == '-' {
        start + 1
    } else {
        start
    };
    let ghost body = v@.subrange(body_start as int, end as int);
    assert(body == if s[0] == '+' || s[0] == '-' {
        s.drop_first()
    } else {
        s
    });
    let bound: u128 = if negative {
        0x8000_0000_0000_0000u128
    } else {
        0x7fff_ffff_ffff_ffffu128
    };
    let ghost fault0 = first_digit_fault(body, negative, bound as int, 0);
    let mut acc: u128 = 0;
    let mut k = body_start;
    assert(body.take(0) =~= Seq::<char>::empty());
    while k < end
        invariant
            body_start <= k <= end <= v.len(),
            body == v@.subrange(body_start as int, end as int),
            s == v@.subrange(start as int, end as int),
            s.len() >= 1,
            first == s[0],
            negative == (first == '-'),
            !((first == '+' || first == '-') && s.len() == 1),
            body == if first == '+' || first == '-' {
                s.drop_first()
            } else {
                s
            },
            bound == if negative {
                0x8000_0000_0000_0000u128
            } else {
                0x7fff_ffff_ffff_ffffu128
            },
            fault0 == first_digit_fault(body, negative, bound as int, 0),
            first_digit_fault(body, negative, bound as int, 0) == first_digit_fault(
                body,
                negative,
                bound as int,
                k - body_start,
            ),
            forall|i: int| 0 <= i < k - body_start ==> #[trigger] is_digit(body[i]),
            acc == digits_value(body.take(k - body_start)),
            acc <= bound,
        decreases end - k,
    {
        let j = k - body_start;
        let c = v[k];
        assert(body[j as int] == c);
        if !is_digit_char(c) {
            assert(!all_digits(body));
            return Err(NumberFault::InvalidDigit);
        }
        let d = (c as u32 - 48) as u128;
        assert(body.take(j + 1).drop_last() =~= body.take(j as int));
        assert(body.take(j + 1).last() == c);
        if acc > (bound - d) / 10 {
            assert(acc * 10 + d > bound) by (nonlinear_arith)
                requires
                    acc > (bound - d) / 10,
                    d <= 9,
                    bound >= 9,
            ;
            proof {
                if all_digits(body) {
                    lemma_digits_value_monotone(body, j + 1);
                }
            }
            return Err(
                if negative {
                    NumberFault::NegOverflow
                } else {
                    NumberFault::PosOverflow
                },
            );
        }
        assert(acc * 10 + d <= bound) by (nonlinear_arith)
            requires
                acc <= (bound - d) / 10,
                d <= 9,
                bound >= 9,
        ;
        acc = acc * 10 + d;
        k = k + 1;
    }
    assert(body.take(end - body_start) =~= body);
    assert(all_digits(body));
    if negative {
        if acc == 0x8000_0000_0000_0000u128 {
            Ok(i64::MIN)
        } else {
            Ok(-(acc as i64))
        }
    } else {
        Ok(acc as i64)
    }
}

/// A scan that stops at the first non-space character counts the leading
/// whitespace.
pub proof fn lemma_leading_space_scan(s: Seq<char>, i: int)
    requires
        0 <= i <= s.len(),
        forall|k: int| 0 <= k < i ==> #[trigger] is_space(s[k]),
        i == s.len() || !is_space(s[i]),
    ensures
        leading_space(s) == i,
    decreases i,
{
    if i > 0 {
        let t = s.drop_first();
        assert forall|k: int| 0 <= k < i - 1 implies #[trigger] is_space(t[k]) by {
            assert(t[k] == s[k + 1]);
        }
        if i < s.len() {
            assert(t[i - 1] == s[i]);
        }
        lemma_leading_space_scan(t, i - 1);
        assert(is_space(s[0]));
    }
}

/// A backward scan that stops at the last non-space character counts the
/// trailing whitespace.
pub proof fn lemma_trailing_space_scan(s: Seq<char>, j: int)
    requires
        0 <= j <= s.len(),
        forall|k: int| j <= k < s.len() ==> #[trigger] is_space(s[k]),
        j == 0 || !is_space(s[j - 1]),
    ensures
        trailing_space(s) == s.len() - j,
    decreases s.len() - j,
{
    if j < s.len() {
        let t = s.drop_last();
        assert forall|k: int| j <= k < t.len() implies #[trigger] is_space(t[k]) by {
            assert(t[k] == s[k]);
        }
        if j > 0 {
            assert(t[j - 1] == s[j - 1]);
        }
        lemma_trailing_space_scan(t, j);
        assert(is_space(s[s.len() - 1]));
    }
}

/// Bounds `(a, b)` such that `v[a..b]` is `v` trimmed of whitespace.
pub fn trim_bounds(v: &Vec<char>) -> (r: (usize, usize))
    ensures
        r.0 <= r.1 <= v.len(),
        v@.subrange(r.0 as int, r.1 as int) == trim(v@),
{
    let n = v.len();
    let mut a: usize = 0;
    while a < n && is_space_char(v[a])
        invariant
            a <= n == v.len(),
            forall|k: int| 0 <= k < a ==> #[trigger] is_space(v@[k]),
        decreases n - a,
    {
        a = a + 1;
    }
    proof {
        lemma_leading_space_scan(v@, a as int);
    }
    let ghost t = v@.skip(a as int);
    let mut b: usize = n;
    while b > a && is_space_char(v[b - 1])
        invariant
            a <= b <= n == v.len(),
            t == v@.skip(a as int),
            forall|k: int| b <= k < n ==> #[trigger] is_space(v@[k]),
        decreases b - a,
    {
        b = b - 1;
    }
    proof {
        assert forall|k: int| b - a <= k < t.len() implies #[trigger] is_space(t[k]) by {
            assert(t[k] == v@[k + a]);
        }
        if b > a {
            assert(t[b - a - 1] == v@[b - 1]);
        }
        lemma_trailing_space_scan(t, b - a);
        assert(t.take(b - a) =~= v@.subrange(a as int, b as int));
    }
    (a, b)
}

/// Copies `v[a..b]`.
pub fn chars_between(v: &Vec<char>, a: usize, b: usize) -> (r: Vec<char>)
    requires
        a <= b <= v.len(),
    ensures
        r@ == v@.subrange(a as int, b as int),
{
    let mut r: Vec<char> = Vec::new();
    let mut k = a;
    while k < b
        invariant
            a <= k <= b <= v.len(),
            r@ == v@.subrange(a as int, k as int),
        decreases b - k,
    {
        r.push(v[k]);
        k = k + 1;
        assert(r@ =~= v@.subrange(a as int, k as int));
    }
    r
}

/// The text made of the characters of `v`.
///
/// Trusted: wraps `Iterator::collect` into a `String`, which the standard
/// library documents as concatenating the characters in order.
#[verifier::external_body]
pub fn string_from_chars(v: &Vec<char>) -> (s: String)
    ensures
        s@ == v@,
{
    v.iter().collect()
}

/// The text `v[a..b]`.
pub fn string_between(v: &Vec<char>, a: usize, b: usize) -> (s: String)
    requires
        a <= b <= v.len(),
    ensures
        s@ == v@.subrange(a as int, b as int),
{
    let part = chars_between(v, a, b);
    string_from_chars(&part)
}

/// Appends the characters of `s` to `out`.
pub fn push_all(out: &mut Vec<char>, s: &str)
    ensures
        final(out)@ == old(out)@ + s@,
{
    let v = chars_of(s);
    let mut k: usize = 0;
    while k < v.len()
        invariant
            k <= v.len(),
            v@ == s@,
            out@ == old(out)@ + v@.take(k as int),
        decreases v.len() - k,
    {
        out.push(v[k]);
        k = k + 1;
        assert(out@ =~= old(out)@ + v@.take(k as int));
    }
    assert(v@.take(v.len() as int) =~= v@);
}

/// Decimal numeral of `x` with a leading `-` when negative, as the
/// integers' `Display` writes it.
pub open spec fn signed_decimal(x: int) -> Seq<char> {
    if x < 0 {
        seq!['-'] + decimal((-x) as nat)
    } else {
        decimal(x as nat)
    }
}

/// Appends the signed decimal numeral of `x` to `out`.
pub fn push_signed_decimal(out: &mut Vec<char>, x: i128)
    ensures
        final(out)@ == old(out)@ + signed_decimal(x as int),
{
    if x < 0 {
        out.push('-');
        let m: u128 = ((-(x + 1)) as u128) + 1;
        push_decimal(out, m);
        assert(final(out)@ =~= old(out)@ + signed_decimal(x as int));
    } else {
        push_decimal(out, x as u128);
    }
}

/// A signed numeral is non-empty, free of whitespace and line feeds, and
/// reads back as the number it was written from.
pub proof fn lemma_signed_decimal_reads_back(x: int)
    ensures
        signed_decimal(x).len() > 0,
        forall|i: int| 0 <= i < signed_decimal(x).len() ==> !#[trigger] is_space(signed_decimal(x)[i]),
        numeral_value(signed_decimal(x)) == Some(x),
{
    if x < 0 {
        let d = decimal((-x) as nat);
        lemma_decimal_reads_back((-x) as nat);
        let s = seq!['-'] + d;
        assert(s.drop_first() =~= d);
        assert(s[0] == '-');
        assert forall|i: int| 0 <= i < s.len() implies !#[trigger] is_space(s[i]) by {
            if i > 0 {
                assert(s[i] == d[i - 1]);
                assert(is_digit(d[i - 1]));
            }
        }
    } else {
        let d = decimal(x as nat);
        lemma_decimal_reads_back(x as nat);
        assert(is_digit(d[0]));
        assert forall|i: int| 0 <= i < d.len() implies !#[trigger] is_space(d[i]) by {
            assert(is_digit(d[i]));
        }
    }
}

/// Every character is whitespace.
pub open spec fn all_space(w: Seq<char>) -> bool {
    forall|i: int| 0 <= i < w.len() ==> #[trigger] is_space(w[i])
}

pub proof fn lemma_leading_space_facts(s: Seq<char>)
    ensures
        leading_space(s) <= s.len(),
        forall|k: int| 0 <= k < leading_space(s) ==> #[trigger] is_space(s[k]),
        leading_space(s) < s.len() ==> !is_space(s[leading_space(s) as int]),
    decreases s.len(),
{
    if s.len() > 0 && is_space(s[0]) {
        let t = s.drop_first();
        lemma_leading_space_facts(t);
        assert forall|k: int| 0 <= k < leading_space(s) implies #[trigger] is_space(s[k]) by {
            if k > 0 {
                assert(s[k] == t[k - 1]);
            }
        }
        if leading_space(s) < s.len() {
            assert(s[leading_space(s) as int] == t[leading_space(t) as int]);
        }
    }
}

pub proof fn lemma_trailing_space_facts(s: Seq<char>)
    ensures
        trailing_space(s) <= s.len(),
        forall|k: int| s.len() - trailing_space(s) <= k < s.len() ==> #[trigger] is_space(s[k]),
        trailing_space(s) < s.len() ==> !is_space(s[s.len() - trailing_space(s) - 1]),
    decreases s.len(),
{
    if s.len() > 0 && is_space(s.last()) {
        let t = s.drop_last();
        lemma_trailing_space_facts(t);
        assert forall|k: int| s.len() - trailing_space(s) <= k < s.len() implies #[trigger] is_space(
            s[k],
        ) by {
            if k < s.len() - 1 {
                assert(s[k] == t[k]);
            }
        }
        if trailing_space(s) < s.len() {
            assert(s[s.len() - trailing_space(s) - 1] == t[t.len() - trailing_space(t) - 1]);
        }
    }
}

/// The characters of `trim(s)` are those of `s` between its leading and
/// trailing whitespace.
pub proof fn lemma_trim_shape(s: Seq<char>)
    ensures
        trim(s).len() > 0 ==> !is_space(trim(s)[0]) && !is_space(trim(s).last()),
        trim(s).len() == 0 ==> all_space(s),
        trim(s).len() > 0 ==> s =~= s.take(leading_space(s) as int) + trim(s) + s.skip(
            (leading_space(s) + trim(s).len()) as int,
        ),
        all_space(s.take(leading_space(s) as int)),
        all_space(s.skip((leading_space(s) + trim(s).len()) as int)),
{
    lemma_leading_space_facts(s);
    let a = leading_space(s) as int;
    let t = s.skip(a);
    lemma_trailing_space_facts(t);
    let m = t.len() - trailing_space(t);
    assert(trim(s) =~= t.take(m));
    if m > 0 {
        assert(trim(s)[0] == s[a]);
        assert(trim(s).last() == t[m - 1]);
    }
    assert forall|i: int| 0 <= i < a implies #[trigger] is_space(s.take(a)[i]) by {
        assert(s.take(a)[i] == s[i]);
    }
    assert forall|i: int| 0 <= i < s.skip(a + m).len() implies #[trigger] is_space(
        s.skip(a + m)[i],
    ) by {
        assert(s.skip(a + m)[i] == t[m + i]);
    }
    if m == 0 {
        assert forall|i: int| 0 <= i < s.len() implies #[trigger] is_space(s[i]) by {
            if i >= a {
                assert(s[i] == t[i - a]);
            }
        }
    }
}

/// A text that neither opens nor ends with whitespace is its own trim.
pub proof fn lemma_trim_of_unspaced_ends(s: Seq<char>)
    requires
        s.len() > 0,
        !is_space(s[0]),
        !is_space(s.last()),
    ensures
        trim(s) == s,
{
    assert(leading_space(s) == 0);
    assert(s.skip(0) =~= s);
    assert(trailing_space(s) == 0);
    assert(s.take(s.len() as int) =~= s);
}

/// A non-empty text that is its own trim neither opens nor ends with
/// whitespace.
pub proof fn lemma_trimmed_ends(s: Seq<char>)
    requires
        s.len() > 0,
        trim(s) == s,
    ensures
        !is_space(s[0]),
        !is_space(s.last()),
{
    lemma_trim_shape(s);
}

proof fn lemma_leading_space_after_spaces(w: Seq<char>, x: Seq<char>)
    requires
        all_space(w),
    ensures
        leading_space(w + x) == w.len() + leading_space(x),
    decreases w.len(),
{
    if w.len() > 0 {
        let s = w + x;
        assert(is_space(w[0]));
        assert(s[0] == w[0]);
        assert(s.drop_first() =~= w.drop_first() + x);
        assert(all_space(w.drop_first())) by {
            assert forall|i: int| 0 <= i < w.drop_first().len() implies #[trigger] is_space(
                w.drop_first()[i],
            ) by {
                assert(w.drop_first()[i] == w[i + 1]);
            }
        }
        lemma_leading_space_after_spaces(w.drop_first(), x);
    } else {
        assert(w + x =~= x);
    }
}

proof fn lemma_trailing_space_before_spaces(x: Seq<char>, w: Seq<char>)
    requires
        all_space(w),
    ensures
        trailing_space(x + w) == w.len() + trailing_space(x),
    decreases w.len(),
{
    if w.len() > 0 {
        let s = x + w;
        assert(is_space(w[w.len() - 1]));
        assert(s.last() == w.last());
        assert(s.drop_last() =~= x + w.drop_last());
        assert(all_space(w.drop_last())) by {
            assert forall|i: int| 0 <= i < w.drop_last().len() implies #[trigger] is_space(
                w.drop_last()[i],
            ) by {
                assert(w.drop_last()[i] == w[i]);
            }
        }
        lemma_trailing_space_before_spaces(x, w.drop_last());
    } else {
        assert(x + w =~= x);
    }
}

/// Whitespace added around a text does not change its trim.
pub proof fn lemma_trim_ignores_surrounding_space(w1: Seq<char>, s: Seq<char>, w2: Seq<char>)
    requires
        all_space(w1),
        all_space(w2),
    ensures
        trim(w1 + s + w2) == trim(s),
{
    lemma_trim_shape(s);
    let t = trim(s);
    if t.len() == 0 {
        let all = w1 + s + w2;
        assert(all_space(all)) by {
            assert forall|i: int| 0 <= i < all.len() implies #[trigger] is_space(all[i]) by {
                if i < w1.len() {
                    assert(all[i] == w1[i]);
                } else if i < w1.len() + s.len() {
                    assert(all[i] == s[i - w1.len()]);
                } else {
                    assert(all[i] == w2[i - w1.len() - s.len()]);
                }
            }
        }
        lemma_trim_all_space(all);
    } else {
        let a = s.take(leading_space(s) as int);
        let b = s.skip((leading_space(s) + t.len()) as int);
        let left = w1 + a;
        let right = b + w2;
        assert(all_space(left)) by {
            assert forall|i: int| 0 <= i < left.len() implies #[trigger] is_space(left[i]) by {
                if i < w1.len() {
                    assert(left[i] == w1[i]);
                } else {
                    assert(left[i] == a[i - w1.len()]);
                }
            }
        }
        assert(all_space(right)) by {
            assert forall|i: int| 0 <= i < right.len() implies #[trigger] is_space(right[i]) by {
                if i < b.len() {
                    assert(right[i] == b[i]);
                } else {
                    assert(right[i] == w2[i - b.len()]);
                }
            }
        }
        let all = w1 + s + w2;
        assert(all =~= left + (t + right));
        lemma_leading_space_after_spaces(left, t + right);
        assert(leading_space(t + right) == 0) by {
            assert((t + right)[0] == t[0]);
        }
        assert(all.skip(left.len() as int) =~= t + right);
        lemma_trailing_space_before_spaces(t, right);
        assert(trailing_space(t) == 0) by {
            assert(!is_space(t.last()));
        }
        assert((t + right).take(t.len() as int) =~= t);
    }
}

/// An all-whitespace text trims to nothing.
pub proof fn lemma_trim_all_space(s: Seq<char>)
    requires
        all_space(s),
    ensures
        trim(s).len() == 0,
{
    lemma_leading_space_after_spaces(s, Seq::<char>::empty());
    assert(s + Seq::<char>::empty() =~= s);
    assert(leading_space(Seq::<char>::empty()) == 0);
    assert(s.skip(s.len() as int).len() == 0);
}

} // verus!
