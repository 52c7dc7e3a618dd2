//! Clock values as the C library hands them over (seconds with nano- or
//! microseconds), their conversion to and from plain nanoseconds, and the
//! choice of which clocks the shim warps.
use vstd::prelude::*;

use crate::duration::NANOS_PER_SECOND;

verus! {

/// A `struct timespec`: seconds and nanoseconds.
#[derive(Debug, Clone, Copy, PartialEq, Eq)]
pub struct TimeSpec {
    pub sec: i64,
    pub nsec: i64,
}

/// A `struct timeval`: seconds and microseconds.
#[derive(Debug, Clone, Copy, PartialEq, Eq)]
pub struct TimeVal {
    pub sec: i64,
    pub usec: i64,
}

/// Nanoseconds a `timespec` stands for.
pub open spec fn timespec_nanos(ts: TimeSpec) -> int {
    ts.sec * NANOS_PER_SECOND + ts.nsec
}

/// Nanoseconds a `timeval` stands for.
pub open spec fn timeval_nanos(tv: TimeVal) -> int {
    tv.sec * NANOS_PER_SECOND + tv.usec * 1000
}

/// The `timespec` for `ns`: floored seconds, which wrap to 64 bits, and the
/// non-negative nanoseconds left over.
pub open spec fn timespec_of(ns: int) -> TimeSpec {
    TimeSpec {
        sec: (ns / (NANOS_PER_SECOND as int)) as i64,
        nsec: (ns % (NANOS_PER_SECOND as int)) as i64,
    }
}

/// The `timeval` for `ns`: floored seconds, which wrap to 64 bits, and the
/// whole microseconds left over.
pub open spec fn timeval_of(ns: int) -> TimeVal {
    TimeVal {
        sec: (ns / (NANOS_PER_SECOND as int)) as i64,
        usec: ((ns % (NANOS_PER_SECOND as int)) / 1000) as i64,
    }
}

pub fn timespec_to_ns(ts: TimeSpec) -> (r: i128)
    ensures
        r == timespec_nanos(ts),
{
    (ts.sec as i128) * NANOS_PER_SECOND + (ts.nsec as i128)
}

pub fn timeval_to_ns(tv: TimeVal) -> (r: i128)
    ensures
        r == timeval_nanos(tv),
{
    (tv.sec as i128) * NANOS_PER_SECOND + (tv.usec as i128) * 1000
}

pub fn ns_to_timespec(ns: i128) -> (r: TimeSpec)
    ensures
        r == timespec_of(ns as int),
{
    let sec = ns.checked_div_euclid(NANOS_PER_SECOND).unwrap();
    let nsec = ns.checked_rem_euclid(NANOS_PER_SECOND).unwrap();
    TimeSpec { sec: sec as i64, nsec: nsec as i64 }
}

pub fn ns_to_timeval(ns: i128) -> (r: TimeVal)
    ensures
        r == timeval_of(ns as int),
{
    let sec = ns.checked_div_euclid(NANOS_PER_SECOND).unwrap();
    let rem = ns.checked_rem_euclid(NANOS_PER_SECOND).unwrap();
    TimeVal { sec: sec as i64, usec: (rem / 1000) as i64 }
}

/// Reading a normalized `timespec` as nanoseconds and converting back
/// gives the same `timespec`.
pub proof fn lemma_timespec_round_trip(ts: TimeSpec)
    requires
        0 <= ts.nsec < NANOS_PER_SECOND,
    ensures
        timespec_of(timespec_nanos(ts)) == ts,
{
    let n = timespec_nanos(ts);
    let q = n / (NANOS_PER_SECOND as int);
    let r = n % (NANOS_PER_SECOND as int);
    vstd::arithmetic::div_mod::lemma_fundamental_div_mod_converse(
        n,
        NANOS_PER_SECOND as int,
        ts.sec as int,
        ts.nsec as int,
    );
    assert(q == ts.sec && r == ts.nsec);
}

/// Converting nanoseconds to a `timespec` loses nothing when the seconds
/// fit in 64 bits.
pub proof fn lemma_nanos_timespec_round_trip(ns: int)
    requires
        i64::MIN <= ns / (NANOS_PER_SECOND as int) <= i64::MAX,
    ensures
        timespec_nanos(timespec_of(ns)) == ns,
        0 <= timespec_of(ns).nsec < NANOS_PER_SECOND,
{
    let q = ns / (NANOS_PER_SECOND as int);
    let r = ns % (NANOS_PER_SECOND as int);
    vstd::arithmetic::div_mod::lemma_fundamental_div_mod(ns, NANOS_PER_SECOND as int);
    assert(timespec_of(ns).sec == q);
    assert(timespec_of(ns).nsec == r);
}

/// Reading a normalized `timeval` as nanoseconds and converting back gives
/// the same `timeval`.
pub proof fn lemma_timeval_round_trip(tv: TimeVal)
    requires
        0 <= tv.usec < 1_000_000,
    ensures
        timeval_of(timeval_nanos(tv)) == tv,
{
    let n = timeval_nanos(tv);
    vstd::arithmetic::div_mod::lemma_fundamental_div_mod_converse(
        n,
        NANOS_PER_SECOND as int,
        tv.sec as int,
        tv.usec * 1000,
    );
    vstd::arithmetic::div_mod::lemma_fundamental_div_mod_converse(
        tv.usec * 1000,
        1000,
        tv.usec as int,
        0,
    );
}

/// Converting nanoseconds to a `timeval` drops exactly the nanoseconds
/// below a whole microsecond, when the seconds fit in 64 bits.
pub proof fn lemma_nanos_timeval_truncates(ns: int)
    requires
        i64::MIN <= ns / (NANOS_PER_SECOND as int) <= i64::MAX,
    ensures
        timeval_nanos(timeval_of(ns)) == ns - ns % 1000,
        0 <= timeval_of(ns).usec < 1_000_000,
{
    let q = ns / (NANOS_PER_SECOND as int);
    let r = ns % (NANOS_PER_SECOND as int);
    vstd::arithmetic::div_mod::lemma_fundamental_div_mod(ns, NANOS_PER_SECOND as int);
    vstd::arithmetic::div_mod::lemma_fundamental_div_mod(r, 1000);
    // ns % 1000 == r % 1000, since 10^9 is a multiple of 1000
    vstd::arithmetic::div_mod::lemma_fundamental_div_mod_converse(
        ns,
        1000,
        q * 1_000_000 + r / 1000,
        r % 1000,
    );
    assert(timeval_of(ns).sec == q);
    assert(timeval_of(ns).usec == r / 1000);
}

/// The platform's ids of the clocks the shim treats specially, as the C
/// library defines them; `monotonic_raw` is `None` where the shim leaves
/// that clock alone.
#[derive(Debug, Clone, Copy, PartialEq, Eq)]
pub struct ClockIds {
    pub realtime: i32,
    pub monotonic: i32,
    pub monotonic_raw: Option<i32>,
}

/// The wall clock is always warped; the monotonic clocks only on request.
pub open spec fn warps_clock(clock_id: i32, warp_monotonic: bool, ids: ClockIds) -> bool {
    clock_id == ids.realtime || (warp_monotonic && (clock_id == ids.monotonic
        || ids.monotonic_raw == Some(clock_id)))
}

/// Which clocks are warped: the wall clock always; without the request to
/// warp monotonic clocks, no other clock, on every platform; with it, also
/// the monotonic clock and, where the platform names one, the raw monotonic
/// clock, and nothing else.
pub proof fn lemma_warped_clocks(clock_id: i32, warp_monotonic: bool, ids: ClockIds)
    ensures
        clock_id == ids.realtime ==> warps_clock(clock_id, warp_monotonic, ids),
        !warp_monotonic ==> (warps_clock(clock_id, warp_monotonic, ids) <==> clock_id
            == ids.realtime),
        warp_monotonic ==> (warps_clock(clock_id, warp_monotonic, ids) <==> (clock_id
            == ids.realtime || clock_id == ids.monotonic || ids.monotonic_raw == Some(clock_id))),
        ids.monotonic_raw is None && clock_id != ids.realtime && clock_id != ids.monotonic
            ==> !warps_clock(clock_id, warp_monotonic, ids),
{
}

/// Whether readings of `clock_id` are shifted to virtual time.
pub fn should_warp(clock_id: i32, warp_monotonic: bool, ids: ClockIds) -> (b: bool)
    ensures
        b == warps_clock(clock_id, warp_monotonic, ids),
        clock_id == ids.realtime ==> b,
        !warp_monotonic ==> (b <==> clock_id == ids.realtime),
        warp_monotonic ==> (b <==> (clock_id == ids.realtime || clock_id == ids.monotonic
            || ids.monotonic_raw == Some(clock_id))),
{
    if clock_id == ids.realtime {
        return true;
    }
    warp_monotonic && (clock_id == ids.monotonic || match ids.monotonic_raw {
        Some(raw) => clock_id == raw,
        None => false,
    })
}

/// Whether virtual time for a clock is anchored to the monotonic reading
/// taken at start-up (for the monotonic clock) rather than to the
/// wall-clock one (for every other clock).
pub fn uses_monotonic_anchor(clock_id: i32, ids: ClockIds) -> (b: bool)
    ensures
        b == (clock_id == ids.monotonic),
{
    clock_id == ids.monotonic
}

/// Whether timer flags ask for an absolute deadline (`TIMER_ABSTIME`, the
/// lowest bit), which is left unscaled.
pub fn is_absolute_deadline(flags: i32) -> (b: bool)
    ensures
        b == (flags as int % 2 == 1),
{
    let b = flags & 1 != 0;
    assert(b == (flags as int % 2 == 1)) by (bit_vector)
        requires
            b == (flags & 1 != 0),
    ;
    b
}

/// Whole units of `unit_ns` in `ns`, rounded towards negative infinity.
pub fn whole_units(ns: i128, unit_ns: i128) -> (r: i128)
    requires
        unit_ns > 0,
    ensures
        r == ns as int / unit_ns as int,
{
    proof {
        let n = ns as int;
        let u = unit_ns as int;
        let q = n / u;
        vstd::arithmetic::div_mod::lemma_fundamental_div_mod(n, u);
        assert(n == u * q + n % u && 0 <= n % u < u);
        assert(i128::MIN <= q <= i128::MAX) by (nonlinear_arith)
            requires
                n == u * q + n % u,
                0 <= n % u < u,
                u >= 1,
                i128::MIN <= n <= i128::MAX,
        ;
    }
    ns.checked_div_euclid(unit_ns).unwrap()
}

} // verus!
