//! Instants of UTC, with the arithmetic and the texts that chrono gives them.

use chrono::{DateTime, TimeDelta, Utc};
use vstd::prelude::*;

verus! {

/// The first second of the calendar, at the start of the year -262143.
pub const FIRST_SECOND: i64 = -8_334_601_228_800;

/// The last second of the calendar, at the end of the year 262142.
pub const LAST_SECOND: i64 = 8_210_266_876_799;

/// The nanoseconds of a second.
pub const NANOS_PER_SECOND: u32 = 1_000_000_000;

/// The seconds of an hour.
pub const SECONDS_PER_HOUR: i64 = 3600;

/// The seconds of a day.
pub const SECONDS_PER_DAY: i64 = 86400;

/// The greatest whole number of seconds that a duration can hold.
pub const MAX_DURATION_SECONDS: i64 = 9_223_372_036_854_775;

/// Whether `secs` seconds and `nanos` nanoseconds since the epoch are an
/// instant: inside the calendar, and past the end of a second only within a
/// leap second, which stands at the end of a minute.
pub open spec fn valid_instant(secs: int, nanos: int) -> bool {
    &&& FIRST_SECOND <= secs <= LAST_SECOND
    &&& 0 <= nanos < 2 * NANOS_PER_SECOND
    &&& nanos >= NANOS_PER_SECOND ==> secs % 60 == 59
}

/// Whether instant `a` comes before instant `b`; both are seconds and
/// nanoseconds since the epoch.
pub open spec fn earlier(a: (int, int), b: (int, int)) -> bool {
    a.0 < b.0 || (a.0 == b.0 && a.1 < b.1)
}

/// Whether instant `a` is `b` or comes before it.
pub open spec fn no_later(a: (int, int), b: (int, int)) -> bool {
    a == b || earlier(a, b)
}

/// Whether an instant is one that the system clock may show: one of the calendar,
/// from the epoch on, and none within a leap second.
pub open spec fn on_clock(t: (int, int)) -> bool {
    valid_instant(t.0, t.1) && t.0 >= 0 && t.1 < NANOS_PER_SECOND
}

/// The instant `delta` seconds after `t`, if the calendar holds it. A leap
/// second counts as the second that it extends when time moves forward, and as
/// the next one when it moves back.
pub open spec fn shifted(t: (int, int), delta: int) -> Option<(int, int)> {
    let (s, n) = if t.1 >= NANOS_PER_SECOND && delta > 0 {
        (t.0, t.1 - NANOS_PER_SECOND)
    } else if t.1 >= NANOS_PER_SECOND && delta < 0 {
        (t.0 + 1, t.1 - NANOS_PER_SECOND)
    } else {
        t
    };
    if FIRST_SECOND <= s + delta <= LAST_SECOND {
        Some((s + delta, n))
    } else {
        None
    }
}

/// The nanoseconds from `a` to `b`. A leap second at the earlier end is counted
/// when the later end stands at a later time of day.
pub open spec fn nanos_between(a: (int, int), b: (int, int)) -> int {
    let time_a = a.0 % (SECONDS_PER_DAY as int);
    let time_b = b.0 % (SECONDS_PER_DAY as int);
    let leap: int = if time_b > time_a && a.1 >= NANOS_PER_SECOND {
        1
    } else if time_b < time_a && b.1 >= NANOS_PER_SECOND {
        -1
    } else {
        0
    };
    (b.0 - a.0 + leap) * NANOS_PER_SECOND + (b.1 - a.1)
}

/// The whole milliseconds from `a` to `b`, rounded toward zero.
pub open spec fn millis_between(a: (int, int), b: (int, int)) -> int {
    let n = nanos_between(a, b);
    if n >= 0 {
        n / 1_000_000
    } else {
        -((-n) / 1_000_000)
    }
}

/// The number of the day that holds an instant, the epoch's day being 0.
pub open spec fn day_of(t: (int, int)) -> int {
    t.0 / (SECONDS_PER_DAY as int)
}

/// The text that chrono's `NaiveDate` displays for the day that starts `secs`
/// seconds after the epoch.
pub uninterp spec fn date_name(secs: int) -> Seq<char>;

/// The text that chrono's `DateTime::to_rfc3339` gives for an instant.
pub uninterp spec fn rfc3339_name(secs: int, nanos: int) -> Seq<char>;

/// `DateTime::checked_add_signed` of chrono, on a whole number of seconds: the
/// shifted instant, or none where the calendar ends before it.
#[verifier::external_body]
fn chrono_shift(secs: i64, nanos: u32, delta: i64) -> (r: Option<(i64, u32)>)
    requires
        valid_instant(secs as int, nanos as int),
        -MAX_DURATION_SECONDS <= delta <= MAX_DURATION_SECONDS,
    ensures
        match r {
            Some((s, n)) => shifted((secs as int, nanos as int), delta as int) == Some(
                (s as int, n as int),
            ),
            None => shifted((secs as int, nanos as int), delta as int) is None,
        },
{
    let t = DateTime::<Utc>::from_timestamp(secs, nanos)?;
    let u = t.checked_add_signed(TimeDelta::seconds(delta))?;
    Some((u.timestamp(), u.timestamp_subsec_nanos()))
}

/// `TimeDelta::num_milliseconds` of chrono, on the difference of two instants:
/// the whole milliseconds between them, rounded toward zero.
#[verifier::external_body]
fn chrono_millis(from_secs: i64, from_nanos: u32, to_secs: i64, to_nanos: u32) -> (r: i64)
    requires
        valid_instant(from_secs as int, from_nanos as int),
        valid_instant(to_secs as int, to_nanos as int),
    ensures
        r == millis_between(
            (from_secs as int, from_nanos as int),
            (to_secs as int, to_nanos as int),
        ),
{
    let from = DateTime::<Utc>::from_timestamp(from_secs, from_nanos).unwrap();
    let to = DateTime::<Utc>::from_timestamp(to_secs, to_nanos).unwrap();
    (to - from).num_milliseconds()
}

/// The display of chrono's `NaiveDate`, for the day that starts at `secs`. It is
/// the year, the month and the day of the month, so no other day has the same.
#[verifier::external_body]
fn chrono_date_text(secs: i64) -> (r: String)
    requires
        valid_instant(secs as int, 0),
    ensures
        r@ == date_name(secs as int),
        forall|other: int|
            #![trigger date_name(other)]
            secs as int % (SECONDS_PER_DAY as int) == 0 && other % (SECONDS_PER_DAY as int) == 0
                && valid_instant(other, 0) && r@ == date_name(other) ==> other == secs,
{
    DateTime::<Utc>::from_timestamp(secs, 0).unwrap().date_naive().to_string()
}

/// `DateTime::to_rfc3339` of chrono.
#[verifier::external_body]
fn chrono_rfc3339(secs: i64, nanos: u32) -> (r: String)
    requires
        valid_instant(secs as int, nanos as int),
    ensures
        r@ == rfc3339_name(secs as int, nanos as int),
{
    DateTime::<Utc>::from_timestamp(secs, nanos).unwrap().to_rfc3339()
}

/// `Utc::now` of chrono: the time of the system clock, which is at or after
/// the epoch and never within a leap second. Nothing more holds of it.
#[verifier::external_body]
fn chrono_now() -> (r: (i64, u32))
    ensures
        valid_instant(r.0 as int, r.1 as int),
        r.0 >= 0,
        r.1 < NANOS_PER_SECOND,
{
    let now = Utc::now();
    (now.timestamp(), now.timestamp_subsec_nanos())
}

/// An instant of UTC.
#[derive(Clone, Copy, PartialEq, Eq, Debug, Structural)]
pub struct Timestamp {
    secs: i64,
    nanos: u32,
}

impl View for Timestamp {
    type V = (int, int);

    /// The seconds and nanoseconds since the epoch.
    closed spec fn view(&self) -> (int, int) {
        (self.secs as int, self.nanos as int)
    }
}

impl Timestamp {
    #[verifier::type_invariant]
    spec fn in_calendar(self) -> bool {
        valid_instant(self.secs as int, self.nanos as int)
    }

    /// The instant of `secs` seconds and `nanos` nanoseconds since the epoch.
    pub fn new(secs: i64, nanos: u32) -> (r: Option<Timestamp>)
        ensures
            match r {
                Some(t) => valid_instant(secs as int, nanos as int) && t@ == (
                    secs as int,
                    nanos as int,
                ),
                None => !valid_instant(secs as int, nanos as int),
            },
    {
        if FIRST_SECOND <= secs && secs <= LAST_SECOND && nanos < 2 * NANOS_PER_SECOND {
            if nanos >= NANOS_PER_SECOND {
                // The remainder of a negative number is negative.
                let rest = secs % 60;
                if rest == 59 || rest == -1 {
                    Some(Timestamp { secs, nanos })
                } else {
                    None
                }
            } else {
                Some(Timestamp { secs, nanos })
            }
        } else {
            None
        }
    }

    /// The instant that the system clock shows.
    pub fn now() -> (r: Timestamp)
        ensures
            on_clock(r@),
    {
        let (secs, nanos) = chrono_now();
        Timestamp { secs, nanos }
    }

    /// The whole seconds since the epoch.
    pub fn seconds(&self) -> (r: i64)
        ensures
            r == self@.0,
            valid_instant(self@.0, self@.1),
    {
        proof {
            use_type_invariant(self);
        }
        self.secs
    }

    /// The nanoseconds since the last whole second.
    pub fn subsec_nanos(&self) -> (r: u32)
        ensures
            r == self@.1,
            valid_instant(self@.0, self@.1),
    {
        proof {
            use_type_invariant(self);
        }
        self.nanos
    }

    /// Whether this instant comes before `other`.
    pub fn before(&self, other: &Timestamp) -> (r: bool)
        ensures
            r == earlier(self@, other@),
    {
        self.secs < other.secs || (self.secs == other.secs && self.nanos < other.nanos)
    }

    /// Whether the two instants are one.
    pub fn same(&self, other: &Timestamp) -> (r: bool)
        ensures
            r == (self@ == other@),
            r == (*self == *other),
    {
        self.secs == other.secs && self.nanos == other.nanos
    }

    /// The instant `delta` seconds later, if the calendar holds it.
    pub fn plus_seconds(&self, delta: i64) -> (r: Option<Timestamp>)
        requires
            -MAX_DURATION_SECONDS <= delta <= MAX_DURATION_SECONDS,
        ensures
            match r {
                Some(t) => shifted(self@, delta as int) == Some(t@),
                None => shifted(self@, delta as int) is None,
            },
    {
        proof {
            use_type_invariant(self);
        }
        match chrono_shift(self.secs, self.nanos, delta) {
            Some((secs, nanos)) => Some(Timestamp { secs, nanos }),
            None => None,
        }
    }

    /// The whole milliseconds from this instant to `end`, rounded toward zero.
    pub fn millis_until(&self, end: &Timestamp) -> (r: i64)
        ensures
            r == millis_between(self@, end@),
    {
        proof {
            use_type_invariant(self);
            use_type_invariant(end);
        }
        chrono_millis(self.secs, self.nanos, end.secs, end.nanos)
    }

    /// The number of the day that holds this instant.
    pub fn day(&self) -> (r: i64)
        ensures
            r == day_of(self@),
            valid_instant(r * SECONDS_PER_DAY, 0),
    {
        proof {
            use_type_invariant(self);
        }
        let q = self.secs / SECONDS_PER_DAY;
        let d: i64 = if self.secs % SECONDS_PER_DAY < 0 {
            q - 1
        } else {
            q
        };
        d
    }

    /// The start of the step of `step` seconds that holds this instant, counted
    /// from the epoch outward.
    pub fn bucket(&self, step: i64) -> (r: Timestamp)
        requires
            step > 0,
        ensures
            r@ == (bucket_start(self@.0, step as int), 0int),
    {
        proof {
            use_type_invariant(self);
            lemma_bucket_range(self.secs as int, step as int);
        }
        let secs: i64 = if self.secs >= 0 {
            (self.secs / step) * step
        } else {
            -(((-self.secs) / step) * step)
        };
        Timestamp { secs, nanos: 0 }
    }

    /// The text of RFC 3339 for this instant.
    pub fn to_rfc3339(&self) -> (r: String)
        ensures
            r@ == rfc3339_name(self@.0, self@.1),
    {
        proof {
            use_type_invariant(self);
        }
        chrono_rfc3339(self.secs, self.nanos)
    }
}

/// The multiple of `step` nearest to `secs` on the side of the epoch.
pub open spec fn bucket_start(secs: int, step: int) -> int {
    if secs >= 0 {
        (secs / step) * step
    } else {
        -(((-secs) / step) * step)
    }
}

proof fn lemma_bucket_range(secs: int, step: int)
    requires
        step > 0,
        FIRST_SECOND <= secs <= LAST_SECOND,
    ensures
        FIRST_SECOND <= bucket_start(secs, step) <= LAST_SECOND,
        secs >= 0 ==> bucket_start(secs, step) >= 0,
        secs < 0 ==> bucket_start(secs, step) <= 0,
{
    let a = if secs >= 0 {
        secs
    } else {
        -secs
    };
    assert(0 <= (a / step) * step <= a) by (nonlinear_arith)
        requires
            a >= 0,
            step > 0,
    ;
}

/// The text of the date of day `day`.
pub fn date_text(day: i64) -> (r: String)
    requires
        valid_instant(day * SECONDS_PER_DAY, 0),
    ensures
        r@ == date_name(day * SECONDS_PER_DAY),
        forall|other: int|
            #![trigger date_name(other * SECONDS_PER_DAY)]
            valid_instant(other * SECONDS_PER_DAY, 0) && r@ == date_name(other * SECONDS_PER_DAY)
                ==> other == day,
{
    chrono_date_text(day * SECONDS_PER_DAY)
}

/// Instants are totally ordered.
pub proof fn lemma_earlier_total(a: (int, int), b: (int, int))
    ensures
        a == b || earlier(a, b) || earlier(b, a),
        !(earlier(a, b) && earlier(b, a)),
        !earlier(a, a),
{
}

/// The order of instants is transitive.
pub proof fn lemma_no_later_transitive(a: (int, int), b: (int, int), c: (int, int))
    requires
        no_later(a, b),
        no_later(b, c),
    ensures
        no_later(a, c),
{
}

/// An instant as a single number: seconds, and within each room for a leap second.
pub open spec fn ticks(t: (int, int)) -> int {
    t.0 * 2_000_000_000 + t.1
}

/// The order of instants is that of the numbers that they are.
pub proof fn lemma_earlier_counts(a: (int, int), b: (int, int))
    requires
        valid_instant(a.0, a.1),
        valid_instant(b.0, b.1),
    ensures
        earlier(a, b) == (ticks(a) < ticks(b)),
        no_later(a, b) == (ticks(a) <= ticks(b)),
{
}

/// Shifting moves an instant by as many seconds, where the calendar holds the result,
/// and shifting back undoes it.
pub proof fn lemma_shift_there_and_back(t: (int, int), delta: int)
    requires
        valid_instant(t.0, t.1),
        t.1 < NANOS_PER_SECOND,
    ensures
        shifted(t, delta) is Some <==> FIRST_SECOND <= t.0 + delta <= LAST_SECOND,
        shifted(t, delta) matches Some(u) ==> {
            &&& u.0 - t.0 == delta
            &&& u.1 == t.1
            &&& shifted(u, -delta) == Some(t)
            &&& millis_between(t, u) == 1000 * delta
        },
{
    if shifted(t, delta) is Some {
        let u = shifted(t, delta)->0;
        let n = nanos_between(t, u);
        assert(n == delta * 1_000_000_000);
        assert(1000 * delta * 1_000_000 == n);
        if n >= 0 {
            assert(n / 1_000_000 == 1000 * delta);
        } else {
            assert((-n) / 1_000_000 == -(1000 * delta));
        }
    }
}

/// How long it is from one instant to another is how long it is back, with the
/// other sign; where the other does not come first, it is the number of whole
/// milliseconds that have passed.
pub proof fn lemma_millis_both_ways(a: (int, int), b: (int, int))
    requires
        valid_instant(a.0, a.1),
        valid_instant(b.0, b.1),
        a.1 < NANOS_PER_SECOND,
        b.1 < NANOS_PER_SECOND,
    ensures
        millis_between(a, b) == -millis_between(b, a),
        no_later(a, b) ==> millis_between(a, b) >= 0,
        no_later(a, b) ==> ({
            let gap = (b.0 - a.0) * 1_000_000_000 + (b.1 - a.1);
            let ms = millis_between(a, b);
            ms * 1_000_000 <= gap < (ms + 1) * 1_000_000
        }),
{
    let n = nanos_between(a, b);
    let m = nanos_between(b, a);
    assert(n == (b.0 - a.0) * 1_000_000_000 + (b.1 - a.1));
    assert(m == -n);
}

/// A day holds the instants from its start on and before the start of the next.
pub proof fn lemma_day_bounds(t: (int, int))
    ensures
        day_of(t) * 86400 <= t.0 < (day_of(t) + 1) * 86400,
{
}

/// A step starts at a multiple of its length and holds the instants up to the next
/// one, on the side away from the epoch.
pub proof fn lemma_bucket_bounds(secs: int, step: int)
    requires
        step > 0,
    ensures
        bucket_start(secs, step) % step == 0,
        secs >= 0 ==> bucket_start(secs, step) <= secs < bucket_start(secs, step) + step,
        secs < 0 ==> bucket_start(secs, step) - step < secs <= bucket_start(secs, step),
{
    let n = if secs >= 0 {
        secs
    } else {
        -secs
    };
    let q = n / step;
    assert(q * step <= n < q * step + step) by (nonlinear_arith)
        requires
            step > 0,
            n >= 0,
            q == n / step,
    ;
    vstd::arithmetic::div_mod::lemma_mod_multiples_basic(q, step);
    vstd::arithmetic::div_mod::lemma_mod_multiples_basic(-q, step);
    assert((-q) * step == -(q * step)) by (nonlinear_arith);
}

}
