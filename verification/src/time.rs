//! Rational timebases, timestamps and half-open time ranges.
//!
//! A timebase `num / den` is the duration of one tick in seconds. The
//! arithmetic between timebases is that of the `mediatime` crate.

use vstd::prelude::*;

verus! {

/// Analysis sample rate: every buffer of the crate holds mono audio at this
/// rate.
pub const SAMPLE_RATE_HZ: u32 = 16_000;

/// A rational tick duration of `num / den` seconds.
#[derive(Clone, Copy, Debug)]
pub struct Timebase {
    /// Numerator, in seconds.
    pub num: u32,
    /// Denominator; never zero in a well-formed timebase.
    pub den: u32,
}

impl Timebase {
    /// A timebase is well formed when its denominator is positive.
    pub open spec fn wf(self) -> bool {
        self.den > 0
    }

    /// Both timebases have the same tick duration.
    pub open spec fn same_ratio(self, other: Timebase) -> bool {
        self.num * other.den == other.num * self.den
    }

    /// Construct the timebase `num / den`.
    pub fn new(num: u32, den: u32) -> (tb: Timebase)
        requires
            den > 0,
        ensures
            tb == (Timebase { num, den }),
            tb.wf(),
    {
        Timebase { num, den }
    }

    /// Numerator.
    pub fn num(&self) -> (num: u32)
        ensures
            num == self.num,
    {
        self.num
    }

    /// Denominator.
    pub fn den(&self) -> (den: u32)
        ensures
            den == self.den,
    {
        self.den
    }
}

/// Two timebases are equal when their ticks last equally long, so `1/48000`
/// equals `2/96000`.
impl PartialEq for Timebase {
    fn eq(&self, other: &Timebase) -> (equal: bool) {
        proof {
            assert(self.num * other.den <= u32::MAX * u32::MAX) by (nonlinear_arith)
                requires
                    self.num <= u32::MAX,
                    other.den <= u32::MAX,
            ;
            assert(other.num * self.den <= u32::MAX * u32::MAX) by (nonlinear_arith)
                requires
                    other.num <= u32::MAX,
                    self.den <= u32::MAX,
            ;
        }
        self.num as u64 * other.den as u64 == other.num as u64 * self.den as u64
    }
}

impl vstd::std_specs::cmp::PartialEqSpecImpl for Timebase {
    open spec fn obeys_eq_spec() -> bool {
        true
    }

    open spec fn eq_spec(&self, other: &Timebase) -> bool {
        self.same_ratio(*other)
    }
}

/// One tick per analysis sample.
#[verifier::allow_in_spec]
pub fn analysis_timebase() -> Timebase
    returns
        (Timebase { num: 1, den: SAMPLE_RATE_HZ }),
{
    Timebase { num: 1, den: SAMPLE_RATE_HZ }
}

/// Division rounding toward zero, for a positive divisor.
pub open spec fn div_toward_zero(a: int, b: int) -> int {
    if a >= 0 {
        a / b
    } else {
        -((-a) / b)
    }
}

/// The nearest value that fits in an `i64`.
pub open spec fn saturate(x: int) -> int {
    if x > i64::MAX {
        i64::MAX as int
    } else if x < i64::MIN {
        i64::MIN as int
    } else {
        x
    }
}

/// `pts` ticks of `from`, expressed in ticks of `to`: rounded toward zero and
/// saturated to the range of `i64`.
pub open spec fn rescaled(pts: int, from: Timebase, to: Timebase) -> int {
    saturate(div_toward_zero(pts * from.num * to.den, from.den * to.num))
}

/// Rescaling keeps the order of timestamps.
pub proof fn rescaling_is_monotone(a: int, b: int, from: Timebase, to: Timebase)
    requires
        from.wf(),
        to.wf(),
        to.num > 0,
        a <= b,
    ensures
        rescaled(a, from, to) <= rescaled(b, from, to),
{
    let up: int = from.num as int * to.den as int;
    let down: int = from.den as int * to.num as int;
    assert(up >= 0 && down > 0) by (nonlinear_arith)
        requires
            up == from.num as int * to.den as int,
            down == from.den as int * to.num as int,
            from.den > 0,
            to.num > 0,
    ;
    assert(a * from.num * to.den == a * up) by (nonlinear_arith)
        requires
            up == from.num as int * to.den as int,
    ;
    assert(b * from.num * to.den == b * up) by (nonlinear_arith)
        requires
            up == from.num as int * to.den as int,
    ;
    assert(a * up <= b * up) by (nonlinear_arith)
        requires
            a <= b,
            up >= 0,
    ;
    let x: int = a * up;
    let y: int = b * up;
    if x >= 0 {
        vstd::arithmetic::div_mod::lemma_div_is_ordered(x, y, down);
    } else if y < 0 {
        vstd::arithmetic::div_mod::lemma_div_is_ordered(-y, -x, down);
    } else {
        vstd::arithmetic::div_mod::lemma_div_pos_is_pos(-x, down);
        vstd::arithmetic::div_mod::lemma_div_pos_is_pos(y, down);
    }
}

/// Zero rescales to zero.
pub proof fn rescaling_keeps_zero(from: Timebase, to: Timebase)
    requires
        from.wf(),
        to.wf(),
        to.num > 0,
    ensures
        rescaled(0, from, to) == 0,
{
    let down: int = from.den as int * to.num as int;
    assert(down > 0) by (nonlinear_arith)
        requires
            down == from.den as int * to.num as int,
            from.den > 0,
            to.num > 0,
    ;
    assert(0 * from.num * to.den == 0) by (nonlinear_arith);
    vstd::arithmetic::div_mod::lemma_div_basics_1(down);
}

/// Where a tick of `from` lasts a whole number `k` of ticks of `to`, as with
/// samples at 16 kHz and at 48 kHz, rescaling there and back loses nothing.
pub proof fn integer_ratios_round_trip(x: i64, k: int, from: Timebase, to: Timebase)
    requires
        from.wf(),
        to.wf(),
        from.num > 0,
        to.num > 0,
        k > 0,
        from.num * to.den == k * (from.den * to.num),
        i64::MIN <= x * k <= i64::MAX,
    ensures
        rescaled(x as int, from, to) == x * k,
        rescaled(rescaled(x as int, from, to), to, from) == x,
{
    let xi: int = x as int;
    let d: int = from.den as int * to.num as int;
    let up: int = from.num as int * to.den as int;
    assert(d > 0) by (nonlinear_arith)
        requires
            d == from.den as int * to.num as int,
            from.den > 0,
            to.num > 0,
    ;
    assert(xi * from.num * to.den == (xi * k) * d) by (nonlinear_arith)
        requires
            up == from.num as int * to.den as int,
            up == k * d,
    ;
    lemma_exact_quotient(xi * k, d);
    let y: int = xi * k;
    assert(up > 0) by (nonlinear_arith)
        requires
            up == k * d,
            k > 0,
            d > 0,
    ;
    assert(y * to.num * from.den == xi * up) by (nonlinear_arith)
        requires
            y == xi * k,
            d == from.den as int * to.num as int,
            up == k * d,
    ;
    assert(to.den as int * from.num as int == up) by (nonlinear_arith)
        requires
            up == from.num as int * to.den as int,
    ;
    lemma_exact_quotient(xi, up);
}

proof fn lemma_exact_quotient(q: int, b: int)
    requires
        b > 0,
    ensures
        div_toward_zero(q * b, b) == q,
{
    assert(-(q * b) == (-q) * b) by (nonlinear_arith);
    if q >= 0 {
        vstd::arithmetic::div_mod::lemma_div_by_multiple(q, b);
        assert(q * b >= 0) by (nonlinear_arith)
            requires
                q >= 0,
                b > 0,
        ;
    } else {
        vstd::arithmetic::div_mod::lemma_div_by_multiple(-q, b);
        assert(q * b < 0) by (nonlinear_arith)
            requires
                q < 0,
                b > 0,
        ;
    }
}

/// Calls `mediatime::Timebase::rescale_pts`, which divides
/// `pts * from.num * to.den` by `from.den * to.num` rounding toward zero and
/// saturates the quotient to `i64`. It panics when `to.num` is zero, which the
/// precondition rules out.
#[verifier::external_body]
pub(crate) fn rescale_pts(pts: i64, from: Timebase, to: Timebase) -> (rescaled_pts: i64)
    requires
        from.wf(),
        to.wf(),
        to.num > 0,
    ensures
        rescaled_pts == rescaled(pts as int, from, to),
{
    mediatime::Timebase::rescale_pts(
        pts,
        mediatime::Timebase::new(from.num, core::num::NonZeroU32::new(from.den).unwrap()),
        mediatime::Timebase::new(to.num, core::num::NonZeroU32::new(to.den).unwrap()),
    )
}

/// Nanoseconds per second.
pub const NANOS_PER_SEC: u32 = 1_000_000_000;

/// Number of whole ticks of `timebase` in a duration of `secs` seconds and
/// `subsec_nanos` nanoseconds, saturated to the range of `i64`; zero for ticks
/// of no duration.
pub open spec fn ticks_in(secs: int, subsec_nanos: int, timebase: Timebase) -> int {
    if timebase.num == 0 {
        0
    } else {
        saturate(
            ((secs * NANOS_PER_SEC + subsec_nanos) * timebase.den) / (timebase.num
                * NANOS_PER_SEC),
        )
    }
}

/// Calls `mediatime::Timebase::duration_to_pts`, which multiplies the
/// duration's nanoseconds by the denominator, divides by the numerator times a
/// billion rounding down, and saturates the quotient to `i64`; for a numerator
/// of zero it gives zero. `Duration::new` takes fewer nanoseconds than a second
/// has.
#[verifier::external_body]
pub(crate) fn duration_to_pts(timebase: Timebase, secs: u64, subsec_nanos: u32) -> (pts: i64)
    requires
        timebase.wf(),
        subsec_nanos < NANOS_PER_SEC,
    ensures
        pts == ticks_in(secs as int, subsec_nanos as int, timebase),
{
    let den = core::num::NonZeroU32::new(timebase.den).unwrap();
    mediatime::Timebase::new(timebase.num, den).duration_to_pts(
        core::time::Duration::new(secs, subsec_nanos),
    )
}

/// A presentation timestamp: `pts` ticks of `timebase`.
#[derive(Clone, Copy, Debug)]
pub struct Timestamp {
    /// Tick count.
    pub pts: i64,
    /// Tick duration.
    pub timebase: Timebase,
}

impl Timestamp {
    /// Construct the timestamp `pts` in `timebase`.
    pub fn new(pts: i64, timebase: Timebase) -> (ts: Timestamp)
        ensures
            ts == (Timestamp { pts, timebase }),
    {
        Timestamp { pts, timebase }
    }

    /// Tick count.
    pub fn pts(&self) -> (pts: i64)
        ensures
            pts == self.pts,
    {
        self.pts
    }

    /// Tick duration.
    pub fn timebase(&self) -> (timebase: Timebase)
        ensures
            timebase == self.timebase,
    {
        self.timebase
    }
}

/// A half-open range of ticks.
#[derive(Clone, Copy, Debug)]
pub struct TimeRange {
    /// First tick.
    pub start: i64,
    /// One past the last tick.
    pub end: i64,
    /// Tick duration.
    pub timebase: Timebase,
}

impl TimeRange {
    /// A range is well formed when it does not end before it starts.
    pub open spec fn wf(self) -> bool {
        self.start <= self.end
    }

    /// The tick lies in the range.
    pub open spec fn holds(self, tick: int) -> bool {
        self.start <= tick < self.end
    }

    /// Construct the range `[start, end)`.
    pub fn new(start: i64, end: i64, timebase: Timebase) -> (range: TimeRange)
        requires
            start <= end,
        ensures
            range == (TimeRange { start, end, timebase }),
            range.wf(),
    {
        TimeRange { start, end, timebase }
    }

    /// First tick.
    pub fn start_pts(&self) -> (pts: i64)
        ensures
            pts == self.start,
    {
        self.start
    }

    /// One past the last tick.
    pub fn end_pts(&self) -> (pts: i64)
        ensures
            pts == self.end,
    {
        self.end
    }

    /// Tick duration.
    pub fn timebase(&self) -> (timebase: Timebase)
        ensures
            timebase == self.timebase,
    {
        self.timebase
    }
}

} // verus!
