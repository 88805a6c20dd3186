//! The interval value type and its millisecond interchange representation.

use vstd::prelude::*;

verus! {

/// Milliseconds in one second-unit token (`s`).
pub const SECOND_MS: u64 = 1000;

/// Milliseconds in one minute-unit token (`m`).
pub const MINUTE_MS: u64 = 60_000;

/// Milliseconds in one hour-unit token (`h`).
pub const HOUR_MS: u64 = 3_600_000;

/// Milliseconds in one day-unit token (`d`).
pub const DAY_MS: u64 = 86_400_000;

/// Nanoseconds in one millisecond.
pub const NANOS_PER_MS: u64 = 1_000_000;

/// Nanoseconds in one second.
pub const NANOS_PER_SEC: u64 = 1_000_000_000;

/// An immutable, non-negative span of time: whole seconds plus a sub-second
/// nanosecond remainder, the common platform representation of an interval.
#[derive(Clone, Copy, Debug, PartialEq, Eq, Structural)]
pub struct ReadableDuration {
    /// Whole seconds of the interval.
    pub secs: u64,
    /// Sub-second remainder in nanoseconds; always below one second.
    pub nanos: u32,
}

/// A tagged configuration value. This core carries exactly one variant: a
/// duration expressed as a whole number of milliseconds.
#[derive(Clone, Copy, Debug, PartialEq, Eq, Structural)]
pub enum ConfigValue {
    /// A duration as a whole millisecond count.
    Duration(u64),
}

/// The interval of exactly `ms` whole milliseconds.
pub open spec fn of_millis_spec(ms: u64) -> ReadableDuration {
    ReadableDuration { secs: ms / 1000, nanos: ((ms % 1000) * NANOS_PER_MS) as u32 }
}

/// The interval of `ms` whole milliseconds is well formed, holds exactly
/// `ms * 1_000_000` nanoseconds, and has no sub-millisecond remainder.
pub proof fn lemma_of_millis(ms: u64)
    ensures
        of_millis_spec(ms).wf(),
        of_millis_spec(ms).spec_nanos() == ms * NANOS_PER_MS,
        of_millis_spec(ms).spec_ms() == ms,
        of_millis_spec(ms).is_whole_ms(),
{
    let r = of_millis_spec(ms);
    assert(r.spec_nanos() == ms * NANOS_PER_MS) by {
        vstd::arithmetic::div_mod::lemma_fundamental_div_mod(ms as int, 1000);
        assert((ms / 1000) * (NANOS_PER_SEC as int) + (ms % 1000) * (NANOS_PER_MS as int) == ((ms
            / 1000) * 1000 + ms % 1000) * (NANOS_PER_MS as int)) by (nonlinear_arith);
    }
    assert(r.spec_ms() == ms && r.is_whole_ms()) by {
        vstd::arithmetic::div_mod::lemma_div_multiples_vanish(ms as int, NANOS_PER_MS as int);
        vstd::arithmetic::div_mod::lemma_mod_multiples_basic(ms as int, NANOS_PER_MS as int);
    }
}

impl ReadableDuration {
    /// Well-formedness: the nanosecond remainder stays below one second.
    pub open spec fn wf(self) -> bool {
        self.nanos < NANOS_PER_SEC
    }

    /// The whole interval in nanoseconds.
    pub open spec fn spec_nanos(self) -> int {
        self.secs * NANOS_PER_SEC + self.nanos
    }

    /// The interval in whole milliseconds, sub-millisecond remainder floored.
    pub open spec fn spec_ms(self) -> int {
        self.spec_nanos() / (NANOS_PER_MS as int)
    }

    /// The interval holds a whole number of milliseconds.
    pub open spec fn is_whole_ms(self) -> bool {
        self.spec_nanos() % (NANOS_PER_MS as int) == 0
    }

    /// An interval of exactly `secs` whole seconds.
    pub fn secs(secs: u64) -> (r: ReadableDuration)
        ensures
            r.wf(),
            r.spec_nanos() == secs * NANOS_PER_SEC,
            r.is_whole_ms(),
    {
        ReadableDuration { secs, nanos: 0 }
    }

    /// An interval of exactly `millis` whole milliseconds.
    pub fn millis(millis: u64) -> (r: ReadableDuration)
        ensures
            r == of_millis_spec(millis),
            r.wf(),
            r.spec_nanos() == millis * NANOS_PER_MS,
            r.spec_ms() == millis,
            r.is_whole_ms(),
    {
        proof {
            lemma_of_millis(millis);
        }
        ReadableDuration { secs: millis / 1000, nanos: (millis % 1000) as u32 * NANOS_PER_MS as u32 }
    }

    /// An interval of exactly `minutes` minutes.
    pub fn minutes(minutes: u64) -> (r: ReadableDuration)
        requires
            minutes * 60 <= u64::MAX,
        ensures
            r.wf(),
            r.spec_nanos() == minutes * 60 * NANOS_PER_SEC,
            r.is_whole_ms(),
    {
        ReadableDuration::secs(minutes * 60)
    }

    /// An interval of exactly `hours` hours.
    pub fn hours(hours: u64) -> (r: ReadableDuration)
        requires
            hours * 3600 <= u64::MAX,
        ensures
            r.wf(),
            r.spec_nanos() == hours * 3600 * NANOS_PER_SEC,
            r.is_whole_ms(),
    {
        assert(hours * 60 <= u64::MAX && (hours * 60) * 60 == hours * 3600) by (nonlinear_arith)
            requires
                hours * 3600 <= u64::MAX,
        ;
        ReadableDuration::minutes(hours * 60)
    }

    /// An interval of exactly `days` days.
    pub fn days(days: u64) -> (r: ReadableDuration)
        requires
            days * 86400 <= u64::MAX,
        ensures
            r.wf(),
            r.spec_nanos() == days * 86400 * NANOS_PER_SEC,
            r.is_whole_ms(),
    {
        assert(days * 24 <= u64::MAX && (days * 24) * 3600 == days * 86400) by (nonlinear_arith)
            requires
                days * 86400 <= u64::MAX,
        ;
        ReadableDuration::hours(days * 24)
    }

    /// The whole seconds of the interval; the sub-second remainder is floored
    /// away.
    pub fn as_secs(&self) -> (r: u64)
        requires
            self.wf(),
        ensures
            r == self.spec_nanos() / (NANOS_PER_SEC as int),
    {
        proof {
            lemma_secs_from_nanos(*self);
        }
        self.secs
    }

    /// The interval in whole milliseconds; the sub-millisecond remainder is
    /// floored away.
    pub fn as_millis(&self) -> (r: u64)
        requires
            self.wf(),
            self.spec_ms() <= u64::MAX,
        ensures
            r == self.spec_ms(),
    {
        duration_to_ms(*self)
    }

    /// True exactly of the zero-length interval.
    pub fn is_zero(&self) -> (r: bool)
        ensures
            r == (self.spec_nanos() == 0),
    {
        self.secs == 0 && self.nanos == 0
    }
}

/// For a well-formed interval the stored second count is the floored second
/// count of the total nanoseconds.
proof fn lemma_secs_from_nanos(d: ReadableDuration)
    requires
        d.wf(),
    ensures
        d.spec_nanos() / (NANOS_PER_SEC as int) == d.secs,
        d.spec_nanos() % (NANOS_PER_SEC as int) == d.nanos,
{
    vstd::arithmetic::div_mod::lemma_fundamental_div_mod_converse(
        d.spec_nanos(),
        NANOS_PER_SEC as int,
        d.secs as int,
        d.nanos as int,
    );
}

/// The interval in whole milliseconds: seconds times a thousand plus the
/// floored millisecond part of the nanosecond remainder.
pub fn duration_to_ms(d: ReadableDuration) -> (r: u64)
    requires
        d.wf(),
        d.spec_ms() <= u64::MAX,
    ensures
        r == d.spec_ms(),
{
    proof {
        lemma_ms_breakdown(d);
    }
    d.secs * 1000 + (d.nanos as u64) / NANOS_PER_MS
}

/// The floored millisecond count decomposes over the second/nanosecond split.
pub proof fn lemma_ms_breakdown(d: ReadableDuration)
    requires
        d.wf(),
    ensures
        d.spec_ms() == d.secs * 1000 + d.nanos as int / (NANOS_PER_MS as int),
        d.spec_ms() >= d.secs * 1000,
{
    let n = NANOS_PER_MS as int;
    assert(d.secs * 1_000_000_000 == (d.secs * 1000) * 1_000_000) by (nonlinear_arith);
    vstd::arithmetic::div_mod::lemma_hoist_over_denominator(
        d.nanos as int,
        d.secs * 1000,
        NANOS_PER_MS as nat,
    );
    vstd::arithmetic::div_mod::lemma_div_pos_is_pos(d.nanos as int, n);
}

/// The interval in whole nanoseconds.
pub fn duration_to_nanos(d: ReadableDuration) -> (r: u64)
    requires
        d.wf(),
        d.spec_nanos() <= u64::MAX,
    ensures
        r == d.spec_nanos(),
{
    d.secs * NANOS_PER_SEC + d.nanos as u64
}

impl ReadableDuration {
    /// The interchange form: the interval as a tagged whole-millisecond count,
    /// sub-millisecond remainder floored away.
    pub fn to_config_value(&self) -> (r: ConfigValue)
        requires
            self.wf(),
            self.spec_ms() <= u64::MAX,
        ensures
            r == ConfigValue::Duration(self.spec_ms() as u64),
    {
        ConfigValue::Duration(self.as_millis())
    }
}

impl From<ConfigValue> for ReadableDuration {
    /// Rebuilds the interval held in an interchange value: exactly that many
    /// whole milliseconds, with zero sub-millisecond remainder.
    fn from(v: ConfigValue) -> (r: ReadableDuration) {
        match v {
            ConfigValue::Duration(ms) => ReadableDuration::millis(ms),
        }
    }
}

impl vstd::std_specs::convert::FromSpecImpl<ConfigValue> for ReadableDuration {
    open spec fn obeys_from_spec() -> bool {
        true
    }

    open spec fn from_spec(v: ConfigValue) -> ReadableDuration {
        match v {
            ConfigValue::Duration(ms) => of_millis_spec(ms),
        }
    }
}

} // verus!
