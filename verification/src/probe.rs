//! The compatibility probe: reading `key=<epoch>` lines that the helper
//! program prints, judging the measured shift, and classifying the target
//! binary from its `file` description and permission bits.
use vstd::prelude::*;

use crate::text::{
    chars_between, chars_of, is_space, lemma_signed_decimal_reads_back, leading_space,
    numeral_value, parse_i64_at, i64_fault, NumberFault, push_all, push_signed_decimal, signed_decimal,
    string_from_chars, trailing_space, trim, trim_bounds,
};

verus! {

/// Offset that the active probe asks the helper to run under: one hour.
pub const PROBE_OFFSET_NS: i128 = 3_600_000_000_000;

/// Smallest shift, in seconds, that the active probe accepts.
pub const PROBE_MIN_SHIFT_S: i64 = 3590;

/// Largest shift, in seconds, that the active probe accepts.
pub const PROBE_MAX_SHIFT_S: i64 = 3610;

/// Why an epoch could not be read from the helper's output.
#[derive(Debug, Clone, Copy, PartialEq, Eq)]
pub enum EpochError {
    /// No line starts with `key=`.
    KeyNotFound,
    /// The first such line does not hold a 64-bit integer; holds why.
    InvalidEpoch(NumberFault),
}

/// Number of characters before the first line feed.
pub open spec fn line_length(s: Seq<char>) -> nat
    decreases s.len(),
{
    if s.len() > 0 && s[0] != '\n' {
        1 + line_length(s.drop_first())
    } else {
        0
    }
}

pub proof fn lemma_line_length_bound(s: Seq<char>)
    ensures
        line_length(s) <= s.len(),
    decreases s.len(),
{
    if s.len() > 0 && s[0] != '\n' {
        lemma_line_length_bound(s.drop_first());
    }
}

/// What follows `prefix` on the first line of `s` that starts with it.
pub open spec fn after_prefix_on_first_line(s: Seq<char>, prefix: Seq<char>) -> Option<
    Seq<char>,
>
    decreases s.len(),
{
    let e = line_length(s);
    let line = s.take(e as int);
    if prefix.len() <= line.len() && line.take(prefix.len() as int) == prefix {
        Some(line.skip(prefix.len() as int))
    } else if e < s.len() {
        proof {
            lemma_line_length_bound(s);
        }
        after_prefix_on_first_line(s.skip(e + 1 as int), prefix)
    } else {
        None
    }
}

/// The epoch on the first line of `output` that starts with `key=`: the
/// rest of that line, trimmed, read as a 64-bit integer.
pub open spec fn epoch_on_line(output: Seq<char>, key: Seq<char>) -> Result<int, EpochError> {
    match after_prefix_on_first_line(output, key.push('=')) {
        None => Err(EpochError::KeyNotFound),
        Some(field) => match i64_fault(trim(field)) {
            None => Ok(numeral_value(trim(field))->0),
            Some(f) => Err(EpochError::InvalidEpoch(f)),
        },
    }
}

pub proof fn lemma_line_length_scan(s: Seq<char>, i: int)
    requires
        0 <= i <= s.len(),
        forall|k: int| 0 <= k < i ==> #[trigger] s[k] != '\n',
        i == s.len() || s[i] == '\n',
    ensures
        line_length(s) == i,
    decreases i,
{
    if i > 0 {
        let t = s.drop_first();
        assert forall|k: int| 0 <= k < i - 1 implies #[trigger] t[k] != '\n' by {
            assert(t[k] == s[k + 1]);
        }
        if i < s.len() {
            assert(t[i - 1] == s[i]);
        }
        lemma_line_length_scan(t, i - 1);
        assert(s[0] != '\n');
    }
}

/// Whether `v[a..]` starts with `p`.
fn starts_with_at(v: &Vec<char>, a: usize, e: usize, p: &Vec<char>) -> (b: bool)
    requires
        a <= e <= v.len(),
    ensures
        b == (p.len() <= e - a && v@.subrange(a as int, e as int).take(p.len() as int) == p@),
{
    let ghost line = v@.subrange(a as int, e as int);
    if p.len() > e - a {
        return false;
    }
    let mut k: usize = 0;
    while k < p.len()
        invariant
            a <= e <= v.len(),
            p.len() <= e - a,
            line == v@.subrange(a as int, e as int),
            k <= p.len(),
            forall|j: int| 0 <= j < k ==> v@[a + j] == p@[j],
        decreases p.len() - k,
    {
        if v[a + k] != p[k] {
            assert(line.take(p.len() as int)[k as int] != p@[k as int]);
            return false;
        }
        k = k + 1;
    }
    assert(line.take(p.len() as int) =~= p@);
    true
}

/// Reads the epoch on the first line of `output` that starts with `key=`.
pub fn parse_epoch_line(output: &str, key: &str) -> (r: Result<i64, EpochError>)
    ensures
        epoch_on_line(output@, key@) == match r {
            Ok(x) => Ok::<int, EpochError>(x as int),
            Err(e) => Err(e),
        },
{
    let v = chars_of(output);
    let mut p = chars_of(key);
    p.push('=');
    let ghost prefix = key@.push('=');
    assert(p@ == prefix);
    let n = v.len();
    let mut a: usize = 0;
    assert(v@.skip(0) =~= v@);
    while a <= n
        invariant
            a <= n + 1,
            n == v.len(),
            v@ == output@,
            p@ == prefix,
            prefix == key@.push('='),
            a <= n ==> after_prefix_on_first_line(output@, prefix) == after_prefix_on_first_line(
                v@.skip(a as int),
                prefix,
            ),
            a > n ==> after_prefix_on_first_line(output@, prefix) is None,
        decreases n + 1 - a,
    {
        let ghost s = v@.skip(a as int);
        let mut e = a;
        while e < n && v[e] != '\n'
            invariant
                a <= e <= n == v.len(),
                forall|k: int| a <= k < e ==> #[trigger] v@[k] != '\n',
            decreases n - e,
        {
            e = e + 1;
        }
        proof {
            assert forall|k: int| 0 <= k < e - a implies #[trigger] s[k] != '\n' by {
                assert(s[k] == v@[a + k]);
            }
            if e < n {
                assert(s[e - a] == v@[e as int]);
            }
            lemma_line_length_scan(s, e - a);
            assert(s.take(e - a) =~= v@.subrange(a as int, e as int));
        }
        if starts_with_at(&v, a, e, &p) {
            let field = chars_between(&v, a + p.len(), e);
            proof {
                assert(s.take(e - a).skip(p.len() as int) =~= field@);
            }
            let (fa, fb) = trim_bounds(&field);
            return match parse_i64_at(&field, fa, fb) {
                Ok(x) => Ok(x),
                Err(f) => Err(EpochError::InvalidEpoch(f)),
            };
        }
        if e == n {
            return Err(EpochError::KeyNotFound);
        }
        proof {
            assert(s.skip(e - a + 1) =~= v@.skip(e + 1));
        }
        a = e + 1;
    }
    Err(EpochError::KeyNotFound)
}

/// How the active probe judged the shift between a plain and a warped run.
#[derive(Debug, Clone, Copy, PartialEq, Eq)]
pub enum ProbeVerdict {
    /// The warped clock moved by the expected hour; holds the shift in seconds.
    Effective(i64),
    /// The shift, in seconds, was outside the accepted window.
    Ineffective(i64),
}

/// Judges the shift between the epoch a plain run printed and the one a
/// warped run printed.
pub fn active_probe_verdict(base_epoch: i64, warped_epoch: i64) -> (r: ProbeVerdict)
    requires
        i64::MIN <= warped_epoch - base_epoch <= i64::MAX,
    ensures
        r == if PROBE_MIN_SHIFT_S <= warped_epoch - base_epoch <= PROBE_MAX_SHIFT_S {
            ProbeVerdict::Effective((warped_epoch - base_epoch) as i64)
        } else {
            ProbeVerdict::Ineffective((warped_epoch - base_epoch) as i64)
        },
{
    let delta = warped_epoch - base_epoch;
    if PROBE_MIN_SHIFT_S <= delta && delta <= PROBE_MAX_SHIFT_S {
        ProbeVerdict::Effective(delta)
    } else {
        ProbeVerdict::Ineffective(delta)
    }
}

/// Whether the set-user-ID bit (octal 4000) is set in a file mode.
pub fn setuid_bit_set(mode: u32) -> (b: bool)
    ensures
        b == ((mode / 2048) % 2 == 1),
{
    let b = mode & 0o4000 != 0;
    assert(b == ((mode / 2048) % 2 == 1)) by (bit_vector)
        requires
            b == (mode & 0o4000 != 0),
    ;
    b
}

/// ASCII lower case of `c`.
pub open spec fn ascii_lower(c: char) -> char {
    if 'A' <= c && c <= 'Z' {
        (c as int + 32) as char
    } else {
        c
    }
}

/// `s` with its ASCII letters in lower case, as `str::to_ascii_lowercase`.
pub open spec fn ascii_lowercase(s: Seq<char>) -> Seq<char> {
    Seq::new(s.len(), |i: int| ascii_lower(s[i]))
}

/// `p` occurs in `s`.
pub open spec fn occurs_in(p: Seq<char>, s: Seq<char>) -> bool {
    exists|i: int| 0 <= i && i + p.len() <= s.len() && #[trigger] s.subrange(i, i + p.len()) == p
}

/// Traits of the target binary that its `file -Lb` description reveals.
#[derive(Debug, Clone, Copy, PartialEq, Eq)]
pub struct BinaryTraits {
    /// The description mentions static linking, which defeats preloading.
    pub statically_linked: bool,
    /// The description mentions a Go build ID.
    pub go_binary: bool,
}

fn lowercase_chars(v: &Vec<char>) -> (r: Vec<char>)
    ensures
        r@ == ascii_lowercase(v@),
{
    let mut r: Vec<char> = Vec::new();
    let mut k: usize = 0;
    while k < v.len()
        invariant
            k <= v.len(),
            r@.len() == k,
            forall|j: int| 0 <= j < k ==> r@[j] == ascii_lower(#[trigger] v@[j]),
        decreases v.len() - k,
    {
        let c = v[k];
        let l = if 'A' <= c && c <= 'Z' {
            ((c as u32) + 32) as u8 as char
        } else {
            c
        };
        r.push(l);
        k = k + 1;
    }
    assert(r@ =~= ascii_lowercase(v@));
    r
}

fn occurs(p: &Vec<char>, v: &Vec<char>) -> (b: bool)
    ensures
        b == occurs_in(p@, v@),
{
    let n = v.len();
    let m = p.len();
    if m > n {
        return false;
    }
    let last = n - m;
    let mut i: usize = 0;
    loop
        invariant
            n == v.len(),
            m == p.len(),
            m <= n,
            last == n - m,
            i <= last,
            forall|j: int| 0 <= j < i ==> #[trigger] v@.subrange(j, j + m) != p@,
        decreases last - i,
    {
        let found = starts_with_at(v, i, n, p);
        assert(v@.subrange(i as int, n as int).take(m as int) =~= v@.subrange(
            i as int,
            i + m,
        ));
        if found {
            return true;
        }
        if i == last {
            assert forall|j: int| 0 <= j && j + m <= n implies #[trigger] v@.subrange(j, j + m)
                != p@ by {
                assert(j <= i);
            }
            return false;
        }
        i = i + 1;
    }
}

/// Reads the traits of a binary from its `file` description, ignoring case.
pub fn binary_traits(description: &str) -> (t: BinaryTraits)
    ensures
        t.statically_linked == occurs_in(
            "statically linked"@,
            ascii_lowercase(description@),
        ),
        t.go_binary == occurs_in("go buildid"@, ascii_lowercase(description@)),
{
    let lower = lowercase_chars(&chars_of(description));
    let statically = chars_of("statically linked");
    let go = chars_of("go buildid");
    BinaryTraits { statically_linked: occurs(&statically, &lower), go_binary: occurs(&go, &lower) }
}

/// A text free of whitespace is its own trim.
proof fn lemma_trim_of_unspaced(s: Seq<char>)
    requires
        forall|i: int| 0 <= i < s.len() ==> !#[trigger] is_space(s[i]),
    ensures
        trim(s) == s,
{
    if s.len() > 0 {
        assert(!is_space(s[0]));
        assert(!is_space(s[s.len() - 1]));
    }
    assert(leading_space(s) == 0);
    assert(s.skip(0) =~= s);
    assert(trailing_space(s) == 0);
    assert(s.take(s.len() as int) =~= s);
}

/// Lines before the first one that starts with `prefix` do not change what
/// follows it: skipping a block of whole lines none of which starts with
/// `prefix` leaves the search where it was.
pub proof fn lemma_skip_lines_without_prefix(head: Seq<char>, rest: Seq<char>, prefix: Seq<char>)
    requires
        prefix.len() > 0,
        head.len() == 0 || head.last() == '\n',
        after_prefix_on_first_line(head, prefix) is None,
    ensures
        after_prefix_on_first_line(head + rest, prefix) == after_prefix_on_first_line(rest, prefix),
    decreases head.len(),
{
    if head.len() > 0 {
        let s = head + rest;
        let e = line_length(head);
        lemma_line_length_bound(head);
        if e == head.len() {
            assert(head[head.len() - 1] == '\n');
            lemma_line_length_prefix(head, head.len() as int - 1);
        }
        assert(e < head.len());
        assert(head[e as int] == '\n') by {
            lemma_line_length_stop(head);
        }
        assert forall|k: int| 0 <= k < e implies #[trigger] s[k] != '\n' by {
            lemma_line_length_stop(head);
            assert(s[k] == head[k]);
        }
        assert(s[e as int] == '\n');
        lemma_line_length_scan(s, e as int);
        assert(s.take(e as int) =~= head.take(e as int));
        let tail = head.skip(e + 1 as int);
        assert(s.skip(e + 1 as int) =~= tail + rest);
        if tail.len() > 0 {
            assert(tail.last() == head.last());
        }
        lemma_skip_lines_without_prefix(tail, rest, prefix);
    }
}

proof fn lemma_line_length_stop(s: Seq<char>)
    ensures
        line_length(s) <= s.len(),
        forall|k: int| 0 <= k < line_length(s) ==> #[trigger] s[k] != '\n',
        line_length(s) < s.len() ==> s[line_length(s) as int] == '\n',
    decreases s.len(),
{
    lemma_line_length_bound(s);
    if s.len() > 0 && s[0] != '\n' {
        let t = s.drop_first();
        lemma_line_length_stop(t);
        assert forall|k: int| 0 <= k < line_length(s) implies #[trigger] s[k] != '\n' by {
            if k > 0 {
                assert(s[k] == t[k - 1]);
            }
        }
        if line_length(s) < s.len() {
            assert(s[line_length(s) as int] == t[line_length(t) as int]);
        }
    }
}

proof fn lemma_line_length_prefix(s: Seq<char>, j: int)
    requires
        0 <= j < s.len(),
        s[j] == '\n',
    ensures
        line_length(s) <= j,
{
    lemma_line_length_stop(s);
    if line_length(s) > j {
        assert(s[j] != '\n');
    }
}

/// A line `key=<n>` written after lines that do not start with `key=` reads
/// back as `n`, whatever follows it.
pub proof fn lemma_epoch_line_reads_back(head: Seq<char>, key: Seq<char>, n: i64, rest: Seq<char>)
    requires
        forall|i: int| 0 <= i < key.len() ==> #[trigger] key[i] != '\n',
        head.len() == 0 || head.last() == '\n',
        after_prefix_on_first_line(head, key.push('=')) is None,
    ensures
        epoch_on_line(
            head + key.push('=') + signed_decimal(n as int) + seq!['\n'] + rest,
            key,
        ) == Ok::<int, EpochError>(n as int),
{
    let p = key.push('=');
    let d = signed_decimal(n as int);
    lemma_signed_decimal_reads_back(n as int);
    let line_and_rest = p + d + seq!['\n'] + rest;
    let whole = head + p + d + seq!['\n'] + rest;
    assert(whole =~= head + line_and_rest);
    lemma_skip_lines_without_prefix(head, line_and_rest, p);
    let e = (p + d).len();
    assert forall|k: int| 0 <= k < e implies #[trigger] line_and_rest[k] != '\n' by {
        if k < key.len() {
            assert(line_and_rest[k] == key[k]);
        } else if k == key.len() {
            assert(line_and_rest[k] == '=');
        } else {
            assert(line_and_rest[k] == d[k - p.len()]);
            assert(!is_space(d[k - p.len()]));
        }
    }
    assert(line_and_rest[e as int] == '\n');
    lemma_line_length_scan(line_and_rest, e as int);
    let line = line_and_rest.take(e as int);
    assert(line =~= p + d);
    assert(line.take(p.len() as int) =~= p);
    assert(line.skip(p.len() as int) =~= d);
    lemma_trim_of_unspaced(d);
    crate::text::lemma_i64_numeral_has_no_fault(d);
}

/// The `strftime` pattern the helper prints its reading with.
pub open spec fn utc_format() -> Seq<char> {
    "%Y-%m-%d %H:%M:%S UTC"@
}

/// What chrono renders for `secs` seconds after the Unix epoch in UTC with
/// the pattern `fmt`: `None` when the instant is outside chrono's range.
pub uninterp spec fn utc_seconds_text(secs: i64, fmt: Seq<char>) -> Option<Seq<char>>;

/// Renders a Unix time in UTC.
///
/// Trusted: calls chrono's `DateTime::from_timestamp(secs, 0)`, which gives
/// `None` outside chrono's date range, and renders the instant with
/// `format(fmt)` and `to_string`. Claims only that the result is a function
/// of `secs` and the pattern, named `utc_seconds_text`. The pattern is fixed
/// to the helper's own: chrono's rendering fails, and `to_string` panics,
/// on patterns it does not know.
#[verifier::external_body]
fn utc_seconds_display(secs: i64, fmt: &str) -> (r: Option<String>)
    requires
        fmt@ == utc_format(),
    ensures
        r is Some <==> utc_seconds_text(secs, fmt@) is Some,
        r matches Some(s) ==> utc_seconds_text(secs, fmt@) == Some(s@),
{
    match chrono::DateTime::from_timestamp(secs, 0) {
        Some(dt) => Some(dt.format(fmt).to_string()),
        None => None,
    }
}

/// The lines the probe helper prints: the readings of `time`,
/// `gettimeofday` and `clock_gettime` in whole seconds, and the first of
/// them rendered as a UTC date and time.
pub open spec fn now_report_text(time: i64, tv_sec: i64, ts_sec: i64) -> Seq<char> {
    let formatted = match utc_seconds_text(time, utc_format()) {
        Some(t) => t,
        None => "<out-of-range>"@,
    };
    "time="@ + signed_decimal(time as int) + seq!['\n'] + "gettimeofday="@ + signed_decimal(
        tv_sec as int,
    ) + seq!['\n'] + "clock_gettime="@ + signed_decimal(ts_sec as int) + seq!['\n']
        + "formatted_utc="@ + formatted + seq!['\n']
}

/// Builds the lines the probe helper prints.
pub fn now_report(time: i64, tv_sec: i64, ts_sec: i64) -> (r: String)
    ensures
        r@ == now_report_text(time, tv_sec, ts_sec),
{
    let formatted = utc_seconds_display(time, "%Y-%m-%d %H:%M:%S UTC");
    let mut out: Vec<char> = Vec::new();
    push_all(&mut out, "time=");
    push_signed_decimal(&mut out, time as i128);
    out.push('\n');
    push_all(&mut out, "gettimeofday=");
    push_signed_decimal(&mut out, tv_sec as i128);
    out.push('\n');
    push_all(&mut out, "clock_gettime=");
    push_signed_decimal(&mut out, ts_sec as i128);
    out.push('\n');
    push_all(&mut out, "formatted_utc=");
    match formatted {
        Some(text) => push_all(&mut out, text.as_str()),
        None => push_all(&mut out, "<out-of-range>"),
    }
    out.push('\n');
    assert(out@ =~= now_report_text(time, tv_sec, ts_sec));
    string_from_chars(&out)
}

/// The probe reads back the wall-clock second the helper reported.
pub proof fn lemma_now_report_time_reads_back(time: i64, tv_sec: i64, ts_sec: i64)
    ensures
        epoch_on_line(now_report_text(time, tv_sec, ts_sec), "time"@) == Ok::<int, EpochError>(
            time as int,
        ),
{
    reveal_strlit("time");
    reveal_strlit("time=");
    let key = "time"@;
    assert(key.push('=') =~= "time="@);
    let text = now_report_text(time, tv_sec, ts_sec);
    let rest = text.skip(("time="@ + signed_decimal(time as int) + seq!['\n']).len() as int);
    assert(text =~= Seq::<char>::empty() + key.push('=') + signed_decimal(time as int) + seq![
        '\n',
    ] + rest);
    assert(Seq::<char>::empty().len() == 0);
    assert(after_prefix_on_first_line(Seq::<char>::empty(), key.push('=')) is None) by {
        assert(line_length(Seq::<char>::empty()) == 0);
        assert(Seq::<char>::empty().take(0) =~= Seq::<char>::empty());
    }
    lemma_epoch_line_reads_back(Seq::<char>::empty(), key, time, rest);
}

} // verus!
