//! Instants and lengths of time, in the proleptic Gregorian calendar at UTC.
use crate::text::push_decimal_int;
#[allow(unused_imports)]
use crate::text::decimal_int;
use crate::views::Duplicate;
use vstd::prelude::*;

verus! {

/// Nanoseconds in a second.
pub const NANOS_PER_SEC: i128 = 1_000_000_000;

/// Seconds from 1970 to the first instant of the year -262143.
pub const MIN_SECS: i64 = -8_334_601_228_800;

/// Seconds from 1970 to the last second of the year 262142.
pub const MAX_SECS: i64 = 8_210_266_876_799;

/// An instant: whole seconds since 1970 and nanoseconds within the second.
///
/// Within the last second of a minute the nanoseconds may run on to two
/// seconds: that is how a leap second is written.
#[derive(Clone, Copy, Debug, PartialEq, Eq, Structural)]
pub struct DateTime {
    pub(crate) secs: i64,
    pub(crate) nanos: u32,
}

impl View for DateTime {
    type V = DateTime;

    open spec fn view(&self) -> DateTime {
        *self
    }
}

impl Duplicate for DateTime {
    fn duplicate(&self) -> (copy: Self) {
        *self
    }
}

/// Whether an instant with these parts exists.
pub open spec fn instant_exists(secs: int, nanos: int) -> bool {
    &&& MIN_SECS <= secs <= MAX_SECS
    &&& 0 <= nanos < 2 * NANOS_PER_SEC
    &&& nanos >= NANOS_PER_SEC ==> secs % 60 == 59
}

impl DateTime {
    /// Seconds since 1970.
    pub closed spec fn spec_secs(self) -> int {
        self.secs as int
    }

    /// Nanoseconds within the second.
    pub closed spec fn spec_nanos(self) -> int {
        self.nanos as int
    }

    /// Every instant lies in the supported range.
    #[verifier::type_invariant]
    pub open spec fn in_range(self) -> bool {
        instant_exists(self.spec_secs(), self.spec_nanos())
    }

    /// The instant with the given parts, where there is one.
    pub fn from_timestamp(secs: i64, nanos: u32) -> (found: Option<DateTime>)
        ensures
            match found {
                Some(t) => instant_exists(secs as int, nanos as int) && t == instant(
                    secs as int,
                    nanos as int,
                ) && t.spec_secs() == secs && t.spec_nanos() == nanos,
                None => !instant_exists(secs as int, nanos as int),
            },
    {
        if secs < MIN_SECS || secs > MAX_SECS || nanos >= 2_000_000_000 {
            return None;
        }
        if nanos >= 1_000_000_000 {
            // The remainder counts from the start of the range, a whole minute.
            let offset: i64 = secs - MIN_SECS;
            assert((secs - MIN_SECS) % 60 == secs % 60);
            if offset % 60 != 59 {
                return None;
            }
        }
        Some(DateTime { secs, nanos })
    }

    /// The instant so many seconds later, or the last instant there is.
    pub fn later_by(&self, secs: u32) -> (shifted: DateTime)
        ensures
            shifted == later(*self, secs as int),
    {
        proof {
            use_type_invariant(self);
        }
        if secs == 0 {
            return *self;
        }
        let sum: i64 = self.secs + secs as i64;
        if sum > MAX_SECS {
            return DateTime { secs: MAX_SECS, nanos: 999_999_999 };
        }
        let nanos: u32 = if self.nanos >= 1_000_000_000 {
            self.nanos - 1_000_000_000
        } else {
            self.nanos
        };
        DateTime { secs: sum, nanos }
    }

    /// Seconds since 1970.
    pub fn timestamp(&self) -> (secs: i64)
        ensures
            secs == self.spec_secs(),
    {
        self.secs
    }

    /// Nanoseconds within the second.
    pub fn timestamp_subsec_nanos(&self) -> (nanos: u32)
        ensures
            nanos == self.spec_nanos(),
    {
        self.nanos
    }

    /// Whether this instant comes after another.
    pub fn is_after(&self, other: &DateTime) -> (after: bool)
        ensures
            after == is_later(*self, *other),
    {
        self.secs > other.secs || (self.secs == other.secs && self.nanos > other.nanos)
    }

    /// The time that has passed since another instant.
    pub fn since(&self, other: &DateTime) -> (elapsed: Duration)
        ensures
            elapsed.nanos == elapsed_nanos(*self, *other),
            -20_000_000_000_000 * NANOS_PER_SEC < elapsed.nanos < 20_000_000_000_000
                * NANOS_PER_SEC,
    {
        proof {
            use_type_invariant(self);
            use_type_invariant(other);
        }
        let own_time: i64 = time_of_day(self.secs);
        let other_time: i64 = time_of_day(other.secs);
        let mut secs: i128 = self.secs as i128 - other.secs as i128;
        if own_time > other_time && other.nanos >= 1_000_000_000 {
            secs = secs + 1;
        } else if own_time < other_time && self.nanos >= 1_000_000_000 {
            secs = secs - 1;
        }
        Duration { nanos: secs * NANOS_PER_SEC + (self.nanos as i128 - other.nanos as i128) }
    }

    /// The whole seconds that have passed since another instant.
    pub fn seconds_since(&self, other: &DateTime) -> (secs: i64)
        ensures
            secs == whole_seconds(elapsed_nanos(*self, *other)),
            i64::MIN < secs,
    {
        let elapsed = self.since(other);
        if elapsed.nanos >= 0 {
            (elapsed.nanos / NANOS_PER_SEC) as i64
        } else {
            let positive: i128 = -elapsed.nanos;
            let whole: i128 = positive / NANOS_PER_SEC;
            -(whole as i64)
        }
    }
}

/// The instant with the given parts.
pub closed spec fn instant(secs: int, nanos: int) -> DateTime {
    DateTime { secs: secs as i64, nanos: nanos as u32 }
}

/// An instant has the parts that it is made of.
pub proof fn lemma_instant(secs: int, nanos: int)
    requires
        instant_exists(secs, nanos),
    ensures
        instant(secs, nanos).spec_secs() == secs,
        instant(secs, nanos).spec_nanos() == nanos,
{
}

/// The instant so many seconds later, or the last instant there is. Time that
/// passes leaves a leap second.
pub open spec fn later(t: DateTime, secs: int) -> DateTime {
    if secs == 0 {
        t
    } else if t.spec_secs() + secs > MAX_SECS {
        instant(MAX_SECS as int, 999_999_999)
    } else if t.spec_nanos() >= NANOS_PER_SEC {
        instant(t.spec_secs() + secs, t.spec_nanos() - NANOS_PER_SEC)
    } else {
        instant(t.spec_secs() + secs, t.spec_nanos())
    }
}

/// Seconds since midnight.
pub open spec fn seconds_of_day(secs: int) -> int {
    secs % 86_400
}

fn time_of_day(secs: i64) -> (time: i64)
    requires
        MIN_SECS <= secs <= MAX_SECS,
    ensures
        time == seconds_of_day(secs as int),
{
    // The range starts at a midnight.
    assert((secs - MIN_SECS) % 86_400 == secs as int % 86_400);
    (secs - MIN_SECS) % 86_400
}

/// Whether instant `a` comes after instant `b`.
pub open spec fn is_later(a: DateTime, b: DateTime) -> bool {
    a.spec_secs() > b.spec_secs() || (a.spec_secs() == b.spec_secs() && a.spec_nanos()
        > b.spec_nanos())
}

/// Nanoseconds from instant `b` to instant `a`. A leap second counts where it
/// lies between the two times of day.
pub open spec fn elapsed_nanos(a: DateTime, b: DateTime) -> int {
    let a_time = seconds_of_day(a.spec_secs());
    let b_time = seconds_of_day(b.spec_secs());
    let leap: int = if a_time > b_time && b.spec_nanos() >= NANOS_PER_SEC {
        1
    } else if a_time < b_time && a.spec_nanos() >= NANOS_PER_SEC {
        -1
    } else {
        0
    };
    (a.spec_secs() - b.spec_secs() + leap) * NANOS_PER_SEC + (a.spec_nanos() - b.spec_nanos())
}

/// Whole seconds in a number of nanoseconds, cut off towards zero.
pub open spec fn whole_seconds(nanos: int) -> int {
    if nanos >= 0 {
        nanos / (NANOS_PER_SEC as int)
    } else {
        -((-nanos) / (NANOS_PER_SEC as int))
    }
}

/// A length of time, possibly negative.
#[derive(Clone, Copy, Debug, PartialEq, Eq, Structural)]
pub struct Duration {
    pub nanos: i128,
}

impl Duration {
    /// A number of seconds.
    pub fn seconds(secs: i64) -> (length: Duration)
        ensures
            length.nanos == secs * NANOS_PER_SEC,
    {
        Duration { nanos: secs as i128 * NANOS_PER_SEC }
    }

    /// A number of seconds.
    pub fn from_secs(secs: u64) -> (length: Duration)
        ensures
            length.nanos == secs * NANOS_PER_SEC,
    {
        Duration { nanos: secs as i128 * NANOS_PER_SEC }
    }

    /// A number of milliseconds.
    pub fn milliseconds(millis: i64) -> (length: Duration)
        ensures
            length.nanos == millis * 1_000_000,
    {
        Duration { nanos: millis as i128 * 1_000_000 }
    }

    /// The length with its seconds and the nanoseconds beyond them.
    pub fn to_text(&self) -> (text: String)
        ensures
            text@ == duration_text(self.nanos as int),
    {
        let nanos: i128 = self.nanos;
        // Rounded down: the remainder is never negative.
        let mut secs: i128 = nanos / NANOS_PER_SEC;
        let mut rest: i128 = nanos % NANOS_PER_SEC;
        if rest < 0 {
            secs = secs - 1;
            rest = rest + NANOS_PER_SEC;
        }
        proof {
            lemma_floor(nanos as int, secs as int, rest as int);
        }
        let mut text = "TimeDelta { secs: ".to_string();
        push_decimal_int(&mut text, secs);
        text.append(", nanos: ");
        push_decimal_int(&mut text, rest);
        text.append(" }");
        text
    }
}

proof fn lemma_floor(nanos: int, secs: int, rest: int)
    requires
        nanos == secs * NANOS_PER_SEC + rest,
        0 <= rest < NANOS_PER_SEC,
    ensures
        nanos / (NANOS_PER_SEC as int) == secs,
        nanos % (NANOS_PER_SEC as int) == rest,
{
}

/// How a length of time is written: whole seconds, rounded down, and the
/// nanoseconds beyond them.
pub open spec fn duration_text(nanos: int) -> Seq<char> {
    "TimeDelta { secs: "@ + decimal_int(nanos / (NANOS_PER_SEC as int)) + ", nanos: "@
        + decimal_int(nanos % (NANOS_PER_SEC as int)) + " }"@
}

/// An instant as RFC 3339 text, as `chrono` writes it.
pub uninterp spec fn rfc3339_text(secs: int, nanos: int) -> Seq<char>;

/// The RFC 3339 text of an instant.
pub open spec fn instant_text(instant: DateTime) -> Seq<char> {
    rfc3339_text(instant.spec_secs(), instant.spec_nanos())
}

/// Calls `chrono::DateTime::<Utc>::to_rfc3339`. Trusted: the text is a function
/// of the instant alone. Which text it is stays unsaid.
#[verifier::external_body]
pub(crate) fn to_rfc3339(instant: &DateTime) -> (text: String)
    ensures
        text@ == rfc3339_text(instant.spec_secs(), instant.spec_nanos()),
{
    let model = chrono::DateTime::from_timestamp(instant.secs, instant.nanos).unwrap();
    model.to_rfc3339()
}

/// Calls `chrono::Utc::now`. Trusted: the clock shows some instant of the
/// supported range. Nothing more can be said of it.
#[verifier::external_body]
pub(crate) fn utc_now() -> (instant: DateTime)
{
    let now = chrono::Utc::now();
    DateTime { secs: now.timestamp(), nanos: now.timestamp_subsec_nanos() }
}

// ---------------------------------------------------------------- laws

/// Of two instants that are not leap seconds the time between them is the
/// difference of what they show; a leap second adds or takes at most one second.
pub proof fn law_elapsed_time_is_the_difference(a: DateTime, b: DateTime)
    ensures
        ({
            let plain = (a.spec_secs() - b.spec_secs()) * 1_000_000_000 + (a.spec_nanos()
                - b.spec_nanos());
            &&& a.spec_nanos() < 1_000_000_000 && b.spec_nanos() < 1_000_000_000 ==> elapsed_nanos(
                a,
                b,
            ) == plain
            &&& plain - 1_000_000_000 <= elapsed_nanos(a, b) <= plain + 1_000_000_000
        }),
{
}

/// The time from one instant to another is the opposite of the time back.
pub proof fn law_elapsed_time_is_antisymmetric(a: DateTime, b: DateTime)
    ensures
        elapsed_nanos(a, b) == -elapsed_nanos(b, a),
        elapsed_nanos(a, a) == 0,
{
}

/// Of two instants that differ exactly one is the later.
pub proof fn law_instants_are_ordered(a: DateTime, b: DateTime, c: DateTime)
    ensures
        !is_later(a, a),
        is_later(a, b) ==> !is_later(b, a),
        is_later(a, b) && is_later(b, c) ==> is_later(a, c),
        a.spec_secs() == b.spec_secs() && a.spec_nanos() == b.spec_nanos() || is_later(a, b)
            || is_later(b, a),
        a.spec_nanos() < 1_000_000_000 && b.spec_nanos() < 1_000_000_000 ==> (is_later(a, b)
            <==> elapsed_nanos(a, b) > 0),
{
}

/// Whole seconds are what is left of a length of time when its fraction is cut
/// off, whichever its sign.
pub proof fn law_fractions_are_cut_off(nanos: int)
    ensures
        nanos >= 0 ==> whole_seconds(nanos) * 1_000_000_000 <= nanos < (whole_seconds(nanos) + 1)
            * 1_000_000_000,
        whole_seconds(-nanos) == -whole_seconds(nanos),
{
}

/// An instant that is moved on by so many seconds lies exactly that much later,
/// unless it starts in a leap second or would pass the end of time.
pub proof fn law_later_is_that_much_later(t: DateTime, secs: int)
    requires
        t.in_range(),
        0 <= secs,
    ensures
        secs == 0 ==> later(t, secs) == t,
        t.spec_nanos() < 1_000_000_000 && t.spec_secs() + secs <= MAX_SECS ==> elapsed_nanos(
            later(t, secs),
            t,
        ) == secs * 1_000_000_000,
        secs > 0 && t.spec_secs() + secs > MAX_SECS ==> later(t, secs).spec_secs() == MAX_SECS
            && later(t, secs).spec_nanos() == 999_999_999,
        secs > 0 && t.spec_nanos() >= 1_000_000_000 && t.spec_secs() + secs <= MAX_SECS ==> later(
            t,
            secs,
        ).spec_secs() == t.spec_secs() + secs && later(t, secs).spec_nanos() == t.spec_nanos()
            - 1_000_000_000,
{
}

/// A length of time is written as whole seconds and the nanoseconds beyond them,
/// which together make up the length. Of a negative length the seconds alone are
/// negative.
pub proof fn law_lengths_are_written_in_full(secs: int, nanos: int)
    requires
        0 <= nanos < 1_000_000_000,
    ensures
        duration_text(secs * 1_000_000_000 + nanos) == "TimeDelta { secs: "@ + decimal_int(secs)
            + ", nanos: "@ + decimal_int(nanos) + " }"@,
{
    let whole = secs * 1_000_000_000 + nanos;
    assert(whole / 1_000_000_000 == secs);
    assert(whole % 1_000_000_000 == nanos);
}

} // verus!
