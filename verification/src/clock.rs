//! Ticks, distances between ticks, and their conversion to wall time.

use vstd::prelude::*;

verus! {

/// Nanoseconds in one second.
pub const NANOS_PER_SECOND: u64 = 1_000_000_000;

/// Half of the tick range. A distance at or above it is read as a tick that
/// lies behind the reference point rather than far ahead of it.
pub const HALF_RANGE: u64 = 0x8000_0000_0000_0000;

/// The number of values a tick can take.
pub open spec fn tick_range() -> int {
    0x1_0000_0000_0000_0000
}

/// How far `to` lies ahead of `from` on the circle of 64-bit ticks.
pub open spec fn distance(from: u64, to: u64) -> int {
    if to >= from {
        to - from
    } else {
        to - from + tick_range()
    }
}

/// Whether `to` is at or after `from`, i.e. less than half the range ahead.
pub open spec fn is_ahead(from: u64, to: u64) -> bool {
    distance(from, to) < HALF_RANGE
}

/// The tick that lies `delta` after `from`, wrapping round the range.
pub open spec fn tick_after(from: u64, delta: u64) -> int {
    if from + delta < tick_range() {
        from + delta
    } else {
        from + delta - tick_range()
    }
}

/// The distance from `from` forward to `to`, correct across a wrap of the
/// counter.
pub fn tick_distance(from: u64, to: u64) -> (d: u64)
    ensures
        d == distance(from, to),
{
    if to >= from {
        to - from
    } else {
        (u64::MAX - from) + to + 1
    }
}

/// The tick `delta` after `from`, wrapping round the range.
pub fn tick_advance(from: u64, delta: u64) -> (t: u64)
    ensures
        t == tick_after(from, delta),
        distance(from, t) == delta,
{
    if delta <= u64::MAX - from {
        from + delta
    } else {
        delta - (u64::MAX - from) - 1
    }
}

/// A span of wall time as whole seconds and a fraction in nanoseconds.
#[derive(Clone, Copy, Debug, PartialEq, Eq, Structural)]
pub struct Seconds {
    pub whole: u64,
    pub nanos: u32,
}

/// The whole seconds in `ticks` at `per_second` ticks a second.
pub open spec fn whole_seconds(ticks: u64, per_second: u64) -> int {
    ticks as int / per_second as int
}

/// The nanoseconds in what `ticks` leaves over after the whole seconds,
/// rounded down.
pub open spec fn fraction_nanos(ticks: u64, per_second: u64) -> int {
    (ticks as int % per_second as int) * NANOS_PER_SECOND as int / per_second as int
}

/// The ticks in `span` at `per_second` ticks a second, rounded down in the
/// fraction.
pub open spec fn ticks_in(span: Seconds, per_second: u64) -> int {
    span.whole * per_second + (span.nanos * per_second) / NANOS_PER_SECOND as int
}

/// Converts a number of ticks to wall time, or `None` when the clock has no
/// calibration (`per_second` is zero).
pub fn seconds_from_ticks(ticks: u64, per_second: u64) -> (r: Option<Seconds>)
    ensures
        r is None <==> per_second == 0,
        r matches Some(s) ==> {
            &&& s.whole == whole_seconds(ticks, per_second)
            &&& s.nanos == fraction_nanos(ticks, per_second)
            &&& s.nanos < NANOS_PER_SECOND
        },
{
    if per_second == 0 {
        return None;
    }
    let whole: u64 = ticks / per_second;
    let rest: u64 = ticks % per_second;
    let scaled: u128 = (rest as u128) * (NANOS_PER_SECOND as u128);
    let nanos: u128 = scaled / (per_second as u128);
    proof {
        assert(scaled < (per_second as int) * (NANOS_PER_SECOND as int)) by (nonlinear_arith)
            requires
                scaled == (rest as int) * (NANOS_PER_SECOND as int),
                0 <= rest < per_second,
        ;
        assert(nanos < NANOS_PER_SECOND) by (nonlinear_arith)
            requires
                nanos == scaled as int / per_second as int,
                0 <= scaled < (per_second as int) * (NANOS_PER_SECOND as int),
                per_second > 0,
        ;
    }
    Some(Seconds { whole, nanos: nanos as u32 })
}

/// Converts a span of wall time to ticks, saturating at the largest tick
/// count, or `None` when the clock has no calibration.
pub fn ticks_from_seconds(span: Seconds, per_second: u64) -> (r: Option<u64>)
    ensures
        r is None <==> per_second == 0,
        r matches Some(t) ==> t == if ticks_in(span, per_second) > u64::MAX {
            u64::MAX as int
        } else {
            ticks_in(span, per_second)
        },
{
    if per_second == 0 {
        return None;
    }
    proof {
        assert((span.whole as int) * (per_second as int) <= 0xffff_ffff_ffff_ffff
            * 0xffff_ffff_ffff_ffff) by (nonlinear_arith)
            requires
                0 <= span.whole <= 0xffff_ffff_ffff_ffff,
                0 <= per_second <= 0xffff_ffff_ffff_ffff,
        ;
        assert((span.nanos as int) * (per_second as int) <= 0xffff_ffff * 0xffff_ffff_ffff_ffff)
            by (nonlinear_arith)
            requires
                0 <= span.nanos <= 0xffff_ffff,
                0 <= per_second <= 0xffff_ffff_ffff_ffff,
        ;
    }
    let whole: u128 = (span.whole as u128) * (per_second as u128);
    let part: u128 = ((span.nanos as u128) * (per_second as u128)) / (NANOS_PER_SECOND as u128);
    if whole > u64::MAX as u128 {
        return Some(u64::MAX);
    }
    let total: u128 = whole + part;
    if total > u64::MAX as u128 {
        Some(u64::MAX)
    } else {
        Some(total as u64)
    }
}

/// A point in time of the machine's monotonic clock. Nothing is known of
/// what is inside.
#[verifier::external_type_specification]
#[verifier::external_body]
pub struct ExInstant(std::time::Instant);

/// `std::time::Instant::now`: the present point in time. Nothing is claimed
/// of it.
#[verifier::external_body]
fn instant_now() -> std::time::Instant {
    std::time::Instant::now()
}

/// `std::time::Instant::saturating_duration_since`: the time that has passed
/// from `earlier` to `later`, zero if `later` lies before `earlier`. Nothing
/// is claimed of it.
#[verifier::external_body]
fn instant_since(
    later: &std::time::Instant,
    earlier: &std::time::Instant,
) -> core::time::Duration {
    later.saturating_duration_since(*earlier)
}

/// `core::time::Duration::as_nanos`: the length of `span` in nanoseconds.
/// Nothing is claimed of it.
#[verifier::external_body]
fn duration_nanos(span: &core::time::Duration) -> u128 {
    span.as_nanos()
}

/// The ticks per second of a [`TickSource`]: it counts nanoseconds.
pub const SOURCE_TICKS_PER_SECOND: u64 = NANOS_PER_SECOND;

/// A tick counter on the machine's monotonic clock. It counts the
/// nanoseconds since it was started, wraps round with the 64-bit range, and
/// never shows a tick that lies behind the one it showed last.
pub struct TickSource {
    origin: std::time::Instant,
    last: u64,
}

impl TickSource {
    /// Starts a counter at the present point in time. It stands at zero.
    pub fn start() -> (source: TickSource)
        ensures
            source.last() == 0,
    {
        TickSource { origin: instant_now(), last: 0 }
    }

    /// The present tick: what the clock reads if that lies at or ahead of
    /// the tick shown last, and the tick shown last once more if the clock
    /// has fallen behind it. Of the clock's reading itself nothing is
    /// promised: whoever uses the tick is proved correct for every value.
    pub fn read(&mut self) -> (t: u64)
        ensures
            exists|raw: u64| t == #[trigger] shown_tick(old(self).last(), raw),
            is_ahead(old(self).last(), t),
            final(self).last() == t,
    {
        let now = instant_now();
        let span = instant_since(&now, &self.origin);
        let nanos: u128 = duration_nanos(&span);
        self.show(wrap_nanos(nanos))
    }

    /// The tick shown last, zero before the first.
    pub closed spec fn last(&self) -> u64 {
        self.last
    }

    /// Shows the tick for the reading `raw`, and remembers it.
    pub fn show(&mut self, raw: u64) -> (t: u64)
        ensures
            t == shown_tick(old(self).last(), raw),
            final(self).last() == t,
    {
        if tick_distance(self.last, raw) < HALF_RANGE {
            self.last = raw;
        }
        self.last
    }
}

/// The tick that a counter shows which showed `last` before and now reads
/// `raw`: the reading, unless it lies behind `last`.
pub open spec fn shown_tick(last: u64, raw: u64) -> u64 {
    if is_ahead(last, raw) {
        raw
    } else {
        last
    }
}

/// A count of nanoseconds as a tick: what is left of it in the 64-bit range.
pub open spec fn wrapped_nanos(nanos: u128) -> u64 {
    (nanos % 0x1_0000_0000_0000_0000) as u64
}

/// Turns a count of nanoseconds into a tick.
pub fn wrap_nanos(nanos: u128) -> (t: u64)
    ensures
        t == wrapped_nanos(nanos),
{
    (nanos % 0x1_0000_0000_0000_0000) as u64
}

} // verus!
