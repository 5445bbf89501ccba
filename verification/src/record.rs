//! The records of a timesheet: a span of time within a day, and the spans of
//! one calendar date.

use vstd::prelude::*;
use crate::date::Date;
use crate::factor::{Factor, FACTOR_ONE};
use crate::time::{Duration, Time, UNITS_PER_MINUTE};

verus! {

/// One span of time within a day. A span without a stop is still open. A
/// span without a factor is time worked; one with a factor is a break of
/// which that share is credited.
#[derive(Clone, Copy, Debug, PartialEq, Eq, Structural)]
pub struct Part {
    pub start: Time,
    pub stop: Option<Time>,
    pub factor: Option<Factor>,
}

impl Part {
    /// A part is well formed when its times and its factor are, it does not
    /// stop before it starts, and it has a stop if it has a factor.
    pub open spec fn wf(self) -> bool {
        &&& self.start.wf()
        &&& self.stop matches Some(stop) ==> stop.wf() && self.start.minute_of_day()
            <= stop.minute_of_day()
        &&& self.factor matches Some(f) ==> f.wf() && self.stop is Some
    }

    /// The minutes from start to stop; none while the part is open, or where
    /// the stop is not after the start.
    pub open spec fn span_minutes(self) -> int {
        match self.stop {
            Some(stop) => if self.start.minute_of_day() <= stop.minute_of_day() {
                stop.minute_of_day() - self.start.minute_of_day()
            } else {
                0
            },
            None => 0,
        }
    }

    /// The time worked in this part, in millionths of a minute: its span
    /// where it has no factor.
    pub open spec fn worked_units(self) -> int {
        if self.factor is None {
            self.span_minutes() * UNITS_PER_MINUTE
        } else {
            0
        }
    }

    /// The break time credited for this part, in millionths of a minute: its
    /// span times its factor.
    pub open spec fn credited_units(self) -> int {
        match self.factor {
            Some(f) => self.span_minutes() * f.millionths,
            None => 0,
        }
    }

    /// The part from `start` to `stop` with the given factor, if that is well
    /// formed.
    pub fn new(start: Time, stop: Option<Time>, factor: Option<Factor>) -> (r: Option<Part>)
        ensures
            r == (if (Part { start, stop, factor }).wf() {
                Some(Part { start, stop, factor })
            } else {
                None
            }),
    {
        let p = Part { start, stop, factor };
        if p.is_valid() {
            Some(p)
        } else {
            None
        }
    }

    /// Whether this part is well formed.
    pub fn is_valid(&self) -> (r: bool)
        ensures
            r == self.wf(),
    {
        if !self.start.is_valid() {
            return false;
        }
        let stop_ok = match self.stop {
            Some(stop) => stop.is_valid() && self.start.minutes() <= stop.minutes(),
            None => true,
        };
        let factor_ok = match self.factor {
            Some(f) => f.is_valid() && self.stop.is_some(),
            None => true,
        };
        stop_ok && factor_ok
    }

    /// The minutes from start to stop.
    pub fn minutes(&self) -> (r: u32)
        ensures
            r == self.span_minutes(),
    {
        match self.stop {
            Some(stop) => {
                let a = self.start.minutes();
                let b = stop.minutes();
                if a <= b {
                    b - a
                } else {
                    0
                }
            },
            None => 0,
        }
    }

    /// The time worked in this part.
    pub fn worked_duration(&self) -> (r: Duration)
        ensures
            r.units == self.worked_units(),
    {
        if self.factor.is_none() {
            Duration::from_minutes(self.minutes())
        } else {
            Duration::zero()
        }
    }

    /// The break time credited for this part.
    pub fn credited_break_duration(&self) -> (r: Duration)
        ensures
            r.units == self.credited_units(),
    {
        match self.factor {
            Some(f) => {
                let m: u128 = self.minutes() as u128;
                let k: u128 = f.millionths as u128;
                assert(m * k <= 0xffff_ffff * 0xffff_ffff) by (nonlinear_arith)
                    requires
                        m <= 0xffff_ffff,
                        k <= 0xffff_ffff,
                ;
                Duration { units: m * k }
            },
            None => Duration::zero(),
        }
    }
}

/// The most that one part can add to a sum of durations, in millionths of a
/// minute.
pub open spec fn part_units_bound() -> int {
    0x1_0000_0000_0000
}

/// No part adds more than `part_units_bound()` to a sum.
pub proof fn lemma_part_units_bounded(p: Part)
    ensures
        0 <= p.worked_units() <= part_units_bound(),
        0 <= p.credited_units() <= part_units_bound(),
        0 <= p.span_minutes() * UNITS_PER_MINUTE <= part_units_bound(),
{
    let m = p.span_minutes();
    assert(0 <= m <= 255 * 60 + 255);
    assert(0 <= m * 1_000_000 <= 15555 * 1_000_000) by (nonlinear_arith)
        requires
            0 <= m <= 15555,
    ;
    if let Some(f) = p.factor {
        let k = f.millionths as int;
        assert(0 <= m * k <= 15555 * 0xffff_ffff) by (nonlinear_arith)
            requires
                0 <= m <= 15555,
                0 <= k <= 0xffff_ffff,
        ;
    }
}

/// The time worked in `parts`, in millionths of a minute.
pub open spec fn worked_units(parts: Seq<Part>) -> int
    decreases parts.len(),
{
    if parts.len() == 0 {
        0
    } else {
        worked_units(parts.drop_last()) + parts.last().worked_units()
    }
}

/// The break time credited in `parts`, in millionths of a minute.
pub open spec fn credited_units(parts: Seq<Part>) -> int
    decreases parts.len(),
{
    if parts.len() == 0 {
        0
    } else {
        credited_units(parts.drop_last()) + parts.last().credited_units()
    }
}

/// The time that `parts` span, worked or not, in millionths of a minute.
pub open spec fn span_units(parts: Seq<Part>) -> int
    decreases parts.len(),
{
    if parts.len() == 0 {
        0
    } else {
        span_units(parts.drop_last()) + parts.last().span_minutes() * UNITS_PER_MINUTE
    }
}

/// Every part of `parts` is well formed.
pub open spec fn parts_wf(parts: Seq<Part>) -> bool {
    forall|i: int| 0 <= i < parts.len() ==> (#[trigger] parts[i]).wf()
}

/// Every break in `parts` that lasts some time is credited in full.
pub open spec fn breaks_fully_credited(parts: Seq<Part>) -> bool {
    forall|i: int|
        0 <= i < parts.len() && (#[trigger] parts[i]).factor is Some && parts[i].span_minutes() > 0
            ==> parts[i].factor == Some(Factor { millionths: FACTOR_ONE })
}

/// The sums over `parts` are bounded by the number of parts.
pub proof fn lemma_units_bounded(parts: Seq<Part>)
    ensures
        0 <= worked_units(parts) <= parts.len() * part_units_bound(),
        0 <= credited_units(parts) <= parts.len() * part_units_bound(),
        0 <= span_units(parts) <= parts.len() * part_units_bound(),
    decreases parts.len(),
{
    if parts.len() > 0 {
        lemma_units_bounded(parts.drop_last());
        lemma_part_units_bounded(parts.last());
        let n = parts.len() as int;
        let b = part_units_bound();
        assert((n - 1) * b + b == n * b) by (nonlinear_arith);
    }
}

/// The most that one well-formed part can add to a sum of durations, in
/// millionths of a minute.
pub open spec fn wf_part_units_bound() -> int {
    0x8000_0000
}

/// The sums over well-formed parts are bounded by the number of parts.
pub proof fn lemma_wf_units_bounded(parts: Seq<Part>)
    requires
        parts_wf(parts),
    ensures
        0 <= worked_units(parts) <= parts.len() * wf_part_units_bound(),
        0 <= credited_units(parts) <= parts.len() * wf_part_units_bound(),
    decreases parts.len(),
{
    if parts.len() > 0 {
        let init = parts.drop_last();
        let p = parts.last();
        assert(parts_wf(init)) by {
            assert forall|i: int| 0 <= i < init.len() implies (#[trigger] init[i]).wf() by {
                assert(init[i] == parts[i]);
            }
        }
        lemma_wf_units_bounded(init);
        assert(p.wf());
        let m = p.span_minutes();
        assert(0 <= m < 1440);
        assert(0 <= m * 1_000_000 <= 1439 * 1_000_000) by (nonlinear_arith)
            requires
                0 <= m <= 1439,
        ;
        if let Some(f) = p.factor {
            let k = f.millionths as int;
            assert(0 <= m * k <= 1439 * 1_000_000) by (nonlinear_arith)
                requires
                    0 <= m <= 1439,
                    0 <= k <= 1_000_000,
            ;
        }
        let n = parts.len() as int;
        let b = wf_part_units_bound();
        assert((n - 1) * b + b == n * b) by (nonlinear_arith);
    }
}

/// Work and credited breaks never add up to more than the time spanned.
/// Where every part is well formed, they add up to exactly the time spanned
/// if and only if every break that lasts some time is credited in full.
pub proof fn lemma_worked_and_credited_within_span(parts: Seq<Part>)
    requires
        parts_wf(parts),
    ensures
        worked_units(parts) + credited_units(parts) <= span_units(parts),
        worked_units(parts) + credited_units(parts) == span_units(parts) <==> breaks_fully_credited(
            parts,
        ),
    decreases parts.len(),
{
    if parts.len() > 0 {
        let init = parts.drop_last();
        let p = parts.last();
        assert(parts_wf(init)) by {
            assert forall|i: int| 0 <= i < init.len() implies (#[trigger] init[i]).wf() by {
                assert(init[i] == parts[i]);
            }
        }
        lemma_worked_and_credited_within_span(init);
        assert(p.wf());
        let m = p.span_minutes();
        assert(m >= 0);
        match p.factor {
            Some(f) => {
                let k = f.millionths as int;
                assert(m * k <= m * 1_000_000) by (nonlinear_arith)
                    requires
                        0 <= m,
                        0 < k <= 1_000_000,
                ;
                assert(m * k == m * 1_000_000 <==> (m == 0 || k == 1_000_000)) by (nonlinear_arith)
                    requires
                        0 <= m,
                        0 < k <= 1_000_000,
                ;
            },
            None => {},
        }
        if breaks_fully_credited(parts) {
            assert forall|i: int|
                0 <= i < init.len() && (#[trigger] init[i]).factor is Some && init[i].span_minutes()
                    > 0 implies init[i].factor == Some(Factor { millionths: FACTOR_ONE }) by {
                assert(init[i] == parts[i]);
            }
            assert(parts[parts.len() - 1] == p);
        }
        if breaks_fully_credited(init) && (p.factor is Some && m > 0 ==> p.factor == Some(
            Factor { millionths: FACTOR_ONE },
        )) {
            assert forall|i: int|
                0 <= i < parts.len() && (#[trigger] parts[i]).factor is Some
                    && parts[i].span_minutes() > 0 implies parts[i].factor == Some(
                Factor { millionths: FACTOR_ONE },
            ) by {
                if i < init.len() {
                    assert(init[i] == parts[i]);
                }
            }
        }
    }
}

/// Every break in `parts` lasts some time.
pub open spec fn breaks_last(parts: Seq<Part>) -> bool {
    forall|i: int|
        0 <= i < parts.len() && (#[trigger] parts[i]).factor is Some ==> parts[i].span_minutes() > 0
}

/// Every factor in `parts` is one.
pub open spec fn factors_are_one(parts: Seq<Part>) -> bool {
    forall|i: int|
        0 <= i < parts.len() && (#[trigger] parts[i]).factor is Some ==> parts[i].factor == Some(
            Factor { millionths: FACTOR_ONE },
        )
}

/// Where every part is well formed and every break lasts some time, work
/// and credited breaks add up to no more than the time spanned, and to
/// exactly that if and only if every part with a factor has the factor one.
/// (A break of no length adds nothing whatever its factor, so it is left
/// out.)
pub proof fn lemma_equal_span_iff_factors_one(parts: Seq<Part>)
    requires
        parts_wf(parts),
        breaks_last(parts),
    ensures
        worked_units(parts) + credited_units(parts) <= span_units(parts),
        worked_units(parts) + credited_units(parts) == span_units(parts) <==> factors_are_one(
            parts,
        ),
{
    lemma_worked_and_credited_within_span(parts);
    if breaks_fully_credited(parts) {
        assert forall|i: int| 0 <= i < parts.len() && (#[trigger] parts[i]).factor is Some implies
            parts[i].factor == Some(Factor { millionths: FACTOR_ONE }) by {
            assert(parts[i].span_minutes() > 0);
        }
    }
}

/// What a day is to contracts: its date and the sequence of its parts.
pub struct DayView {
    pub date: Date,
    pub parts: Seq<Part>,
}

impl DayView {
    /// A day is well formed when its date and all its parts are.
    pub open spec fn wf(self) -> bool {
        self.date.wf() && parts_wf(self.parts)
    }

    /// The time worked on this day, in millionths of a minute.
    pub open spec fn worked_units(self) -> int {
        worked_units(self.parts)
    }

    /// The break time credited on this day, in millionths of a minute.
    pub open spec fn credited_units(self) -> int {
        credited_units(self.parts)
    }
}

/// All the parts recorded for one calendar date, in the order in which they
/// were written down.
#[derive(Debug)]
pub struct Day {
    pub date: Date,
    pub parts: Vec<Part>,
}

impl View for Day {
    type V = DayView;

    open spec fn view(&self) -> DayView {
        DayView { date: self.date, parts: self.parts@ }
    }
}

impl Day {
    /// A day is well formed when its date and all its parts are.
    pub open spec fn wf(&self) -> bool {
        self@.wf()
    }

    /// The day of `date` with nothing recorded.
    pub fn new(date: Date) -> (r: Day)
        ensures
            r@ == (DayView { date, parts: Seq::empty() }),
    {
        Day { date, parts: Vec::new() }
    }

    /// The day of `date` with `parts` recorded.
    pub fn with_parts(date: Date, parts: Vec<Part>) -> (r: Day)
        ensures
            r@ == (DayView { date, parts: parts@ }),
    {
        Day { date, parts }
    }

    /// Whether this day is well formed.
    pub fn is_valid(&self) -> (r: bool)
        ensures
            r == self.wf(),
    {
        if !self.date.is_valid() {
            return false;
        }
        let mut i: usize = 0;
        while i < self.parts.len()
            invariant
                i <= self.parts.len(),
                forall|k: int| 0 <= k < i ==> (#[trigger] self.parts@[k]).wf(),
            decreases self.parts.len() - i,
        {
            if !self.parts[i].is_valid() {
                return false;
            }
            i = i + 1;
        }
        true
    }

    /// A second day with the same date and the same parts.
    pub fn duplicate(&self) -> (r: Day)
        ensures
            r@ == self@,
    {
        let mut parts: Vec<Part> = Vec::new();
        let mut i: usize = 0;
        while i < self.parts.len()
            invariant
                i <= self.parts.len(),
                parts@ == self.parts@.take(i as int),
            decreases self.parts.len() - i,
        {
            parts.push(self.parts[i]);
            proof {
                assert(self.parts@.take(i as int + 1) == self.parts@.take(i as int).push(
                    self.parts@[i as int],
                ));
            }
            i = i + 1;
        }
        proof {
            assert(self.parts@.take(i as int) == self.parts@);
        }
        Day { date: self.date, parts }
    }

    /// Appends `part` to the parts of this day.
    pub fn push_part(&mut self, part: Part)
        ensures
            final(self)@ == (DayView { date: old(self).date, parts: old(self).parts@.push(part) }),
    {
        self.parts.push(part);
    }

    /// The time worked on this day: the spans of the closed parts without a
    /// factor, added up.
    pub fn worked_duration(&self) -> (r: Duration)
        ensures
            r.units == self@.worked_units(),
    {
        let mut total: u128 = 0;
        let mut i: usize = 0;
        while i < self.parts.len()
            invariant
                i <= self.parts.len(),
                total == worked_units(self.parts@.take(i as int)),
            decreases self.parts.len() - i,
        {
            let d = self.parts[i].worked_duration();
            proof {
                let next = self.parts@.take(i as int + 1);
                assert(next.drop_last() == self.parts@.take(i as int));
                lemma_units_bounded(next);
                assert(next.len() * part_units_bound() <= 0x1_0000_0000_0000_0000
                    * part_units_bound()) by (nonlinear_arith)
                    requires
                        next.len() <= 0x1_0000_0000_0000_0000,
                ;
            }
            total = total + d.units;
            i = i + 1;
        }
        proof {
            assert(self.parts@.take(i as int) == self.parts@);
        }
        Duration { units: total }
    }

    /// The break time credited on this day: the spans of the closed parts
    /// with a factor, each times its factor, added up.
    pub fn credited_break_duration(&self) -> (r: Duration)
        ensures
            r.units == self@.credited_units(),
    {
        let mut total: u128 = 0;
        let mut i: usize = 0;
        while i < self.parts.len()
            invariant
                i <= self.parts.len(),
                total == credited_units(self.parts@.take(i as int)),
            decreases self.parts.len() - i,
        {
            let d = self.parts[i].credited_break_duration();
            proof {
                let next = self.parts@.take(i as int + 1);
                assert(next.drop_last() == self.parts@.take(i as int));
                lemma_units_bounded(next);
                assert(next.len() * part_units_bound() <= 0x1_0000_0000_0000_0000
                    * part_units_bound()) by (nonlinear_arith)
                    requires
                        next.len() <= 0x1_0000_0000_0000_0000,
                ;
            }
            total = total + d.units;
            i = i + 1;
        }
        proof {
            assert(self.parts@.take(i as int) == self.parts@);
        }
        Duration { units: total }
    }
}

} // verus!
