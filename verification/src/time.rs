//! Times of day with minute resolution, and exact durations.

use vstd::prelude::*;

verus! {

/// The parts into which a minute is divided when a duration is counted: a
/// millionth of a minute is the smallest share of a break that can be
/// credited.
pub const UNITS_PER_MINUTE: u128 = 1_000_000;

/// Minutes in an hour.
pub const MINUTES_PER_HOUR: u128 = 60;

/// A time of day: an hour and a minute.
#[derive(Clone, Copy, Debug, PartialEq, Eq, Structural)]
pub struct Time {
    pub hour: u8,
    pub minute: u8,
}

impl Time {
    /// A time is well formed when it names a minute of the day.
    pub open spec fn wf(self) -> bool {
        self.hour < 24 && self.minute < 60
    }

    /// Minutes since midnight.
    pub open spec fn minute_of_day(self) -> int {
        self.hour * 60 + self.minute
    }

    /// The time `hour:minute`, if the day has such a minute.
    pub fn new(hour: u8, minute: u8) -> (r: Option<Time>)
        ensures
            r == (if hour < 24 && minute < 60 {
                Some(Time { hour, minute })
            } else {
                None
            }),
    {
        if hour < 24 && minute < 60 {
            Some(Time { hour, minute })
        } else {
            None
        }
    }

    /// Whether this time is well formed.
    pub fn is_valid(&self) -> (r: bool)
        ensures
            r == self.wf(),
    {
        self.hour < 24 && self.minute < 60
    }

    /// Minutes since midnight.
    pub fn minutes(&self) -> (r: u32)
        ensures
            r == self.minute_of_day(),
    {
        let h: u32 = self.hour as u32;
        let m: u32 = self.minute as u32;
        h * 60 + m
    }
}

/// A length of time, counted exactly in millionths of a minute.
#[derive(Clone, Copy, Debug, PartialEq, Eq, Structural)]
pub struct Duration {
    pub units: u128,
}

impl Duration {
    /// The duration of no time at all.
    pub fn zero() -> (r: Duration)
        ensures
            r.units == 0,
    {
        Duration { units: 0 }
    }

    /// The duration of `minutes` whole minutes.
    pub fn from_minutes(minutes: u32) -> (r: Duration)
        ensures
            r.units == minutes * UNITS_PER_MINUTE,
    {
        let m: u128 = minutes as u128;
        assert(m * 1_000_000 <= 0xffff_ffff * 1_000_000) by (nonlinear_arith)
            requires
                m <= 0xffff_ffff,
        ;
        Duration { units: m * UNITS_PER_MINUTE }
    }

    /// The whole minutes in this duration; a started minute does not count.
    pub fn whole_minutes(&self) -> (r: u128)
        ensures
            r == self.units / UNITS_PER_MINUTE,
    {
        self.units / UNITS_PER_MINUTE
    }

    /// The whole hours in this duration.
    pub fn whole_hours(&self) -> (r: u128)
        ensures
            r == self.units as int / (UNITS_PER_MINUTE * MINUTES_PER_HOUR),
    {
        self.units / (UNITS_PER_MINUTE * MINUTES_PER_HOUR)
    }

    /// What this duration is worth at `fee` hundredths of the currency unit
    /// for an hour, in hundredths of the unit; a started hundredth does not
    /// count. There is no value where the product is beyond what a `u128`
    /// holds.
    pub fn value_at(&self, fee: u32) -> (r: Option<u128>)
        ensures
            r == (if self.units * fee <= u128::MAX {
                Some((self.units * fee / (UNITS_PER_MINUTE * MINUTES_PER_HOUR)) as u128)
            } else {
                None
            }),
    {
        match self.units.checked_mul(fee as u128) {
            Some(product) => Some(product / (UNITS_PER_MINUTE * MINUTES_PER_HOUR)),
            None => None,
        }
    }

    /// What is left of this duration beyond its whole minutes, in millionths
    /// of a minute.
    pub fn units_past_minute(&self) -> (r: u128)
        ensures
            r == self.units % UNITS_PER_MINUTE,
    {
        self.units % UNITS_PER_MINUTE
    }
}

} // verus!
