//! Weeks, months and years: the days of the store that fall in one of them,
//! picked anew at every question, with their sums.

use vstd::prelude::*;
use crate::date::{is_calendar_date, Date, IsoWeek, MAX_YEAR};
use crate::record::{lemma_wf_units_bounded, Day, DayView};
use crate::storage::{chronological, day_views, days_wf, lemma_chronological_len, Storage};
use crate::time::Duration;

verus! {

/// A stretch of the calendar that days are gathered for.
#[derive(Clone, Copy, Debug, PartialEq, Eq, Structural)]
pub enum Period {
    /// A calendar year.
    Year { year: u16 },
    /// A month of a calendar year.
    Month { year: u16, month: u8 },
    /// An ISO-8601 week: Monday to Sunday, week 1 the week of the year's
    /// first Thursday. `year` is the year of the week, which for days near
    /// the turn of the year is not the year of their date.
    Week { iso_year: i32, week: u32 },
    /// One calendar date.
    Day { date: Date },
}

/// Why a question to the calendar has no days to answer with.
#[derive(Clone, Copy, Debug, PartialEq, Eq, Structural)]
pub enum QueryError {
    /// No calendar has the period asked for: a month outside 1 to 12, a week
    /// outside 1 to 53, a year after `MAX_YEAR`, a day that no month has.
    Malformed,
    /// Nothing is recorded in the period.
    NotFound,
}

impl Period {
    /// The period exists in some calendar.
    pub open spec fn wf(self) -> bool {
        match self {
            Period::Year { year } => year <= MAX_YEAR,
            Period::Month { year, month } => year <= MAX_YEAR && 1 <= month <= 12,
            Period::Week { iso_year, week } => 1 <= week <= 53,
            Period::Day { date } => date.wf(),
        }
    }

    /// The date falls in this period.
    pub open spec fn holds(self, date: Date) -> bool {
        match self {
            Period::Year { year } => date.year == year,
            Period::Month { year, month } => date.year == year && date.month == month,
            Period::Week { iso_year, week } => date.in_iso_week(iso_year as int, week as int),
            Period::Day { date: day } => date == day,
        }
    }

    /// Those of `days` that fall in this period, in their order.
    pub open spec fn select(self, days: Seq<DayView>) -> Seq<DayView> {
        days.filter(|d: DayView| self.holds(d.date))
    }

    /// Whether the period exists in some calendar.
    pub fn is_valid(&self) -> (r: bool)
        ensures
            r == self.wf(),
    {
        match self {
            Period::Year { year } => *year <= MAX_YEAR,
            Period::Month { year, month } => *year <= MAX_YEAR && 1 <= *month && *month <= 12,
            Period::Week { iso_year, week } => 1 <= *week && *week <= 53,
            Period::Day { date } => date.is_valid(),
        }
    }

    /// Whether the date falls in this period.
    pub fn contains(&self, date: &Date) -> (r: bool)
        ensures
            r == self.holds(*date),
    {
        match self {
            Period::Week { .. } => self.contains_in_week(date, date.iso_week()),
            _ => self.contains_in_week(date, None),
        }
    }

    /// Whether a date falls in this period, given the ISO week that holds
    /// the date, if any is known. A week holds the date whose ISO week it
    /// is; a year, a month and a day go by the date itself.
    pub fn contains_in_week(&self, date: &Date, week: Option<IsoWeek>) -> (r: bool)
        ensures
            r == (match *self {
                Period::Year { year } => date.year == year,
                Period::Month { year, month } => date.year == year && date.month == month,
                Period::Week { iso_year, week: number } => week == Some(
                    IsoWeek { year: iso_year, week: number },
                ),
                Period::Day { date: day } => *date == day,
            }),
    {
        match self {
            Period::Year { year } => date.year == *year,
            Period::Month { year, month } => date.year == *year && date.month == *month,
            Period::Week { iso_year, week: number } => match week {
                Some(w) => w.year == *iso_year && w.week == *number,
                None => false,
            },
            Period::Day { date: day } => date.year == day.year && date.month == day.month
                && date.day == day.day,
        }
    }

    /// The calendar year of `date`.
    pub fn year_of(date: &Date) -> (r: Period)
        ensures
            r == (Period::Year { year: date.year }),
    {
        Period::Year { year: date.year }
    }

    /// The month of `date`.
    pub fn month_of(date: &Date) -> (r: Period)
        ensures
            r == (Period::Month { year: date.year, month: date.month }),
    {
        Period::Month { year: date.year, month: date.month }
    }

    /// The ISO week of `date`, if the calendar has the date: the week that
    /// holds it, under the year of that week.
    pub fn week_of(date: &Date) -> (r: Option<Period>)
        ensures
            r is Some <==> is_calendar_date(
                date.year as int,
                date.month as int,
                date.day as int,
            ),
            r matches Some(p) ==> p is Week && p.wf() && p.holds(*date),
    {
        match date.iso_week() {
            Some(w) => Some(Period::Week { iso_year: w.year, week: w.week }),
            None => None,
        }
    }

    /// Copies of those of `days` that fall in this period, in their order.
    pub fn pick(&self, days: &Vec<Day>) -> (r: Vec<Day>)
        ensures
            day_views(r@) == self.select(day_views(days@)),
    {
        let ghost pred = |d: DayView| self.holds(d.date);
        let mut out: Vec<Day> = Vec::new();
        let mut i: usize = 0;
        proof {
            assert(day_views(days@).take(0) =~= Seq::<DayView>::empty());
            assert(day_views(out@) =~= Seq::<DayView>::empty());
            reveal(Seq::filter);
        }
        while i < days.len()
            invariant
                i <= days.len(),
                pred == |d: DayView| self.holds(d.date),
                day_views(out@) == day_views(days@).take(i as int).filter(pred),
            decreases days.len() - i,
        {
            let ghost before = day_views(out@);
            proof {
                let all = day_views(days@);
                assert(all.take(i as int + 1) =~= all.take(i as int).push(all[i as int]));
                all.take(i as int).lemma_filter_push(all[i as int], pred);
            }
            if self.contains(&days[i].date) {
                out.push(days[i].duplicate());
                proof {
                    assert(day_views(out@) =~= before.push(days@[i as int]@));
                }
            }
            i = i + 1;
        }
        proof {
            assert(day_views(days@).take(i as int) =~= day_views(days@));
        }
        out
    }
}

/// What is picked from days keeps their order, and every day picked is one of
/// them and falls in the period.
pub proof fn lemma_select(period: Period, days: Seq<DayView>)
    ensures
        chronological(days) ==> chronological(period.select(days)),
        days_wf(days) ==> days_wf(period.select(days)),
        forall|i: int|
            0 <= i < period.select(days).len() ==> period.holds(
                (#[trigger] period.select(days)[i]).date,
            ) && days.contains(period.select(days)[i]),
        forall|i: int|
            0 <= i < days.len() && period.holds((#[trigger] days[i]).date) ==> period.select(
                days,
            ).contains(days[i]),
    decreases days.len(),
{
    let pred = |d: DayView| period.holds(d.date);
    reveal(Seq::filter);
    if days.len() > 0 {
        let init = days.drop_last();
        let last = days.last();
        lemma_select(period, init);
        let sub = period.select(init);
        let all = period.select(days);
        assert(all == if pred(last) { sub.push(last) } else { sub });
        assert forall|i: int| 0 <= i < all.len() implies period.holds((#[trigger] all[i]).date)
            && days.contains(all[i]) by {
            if i < sub.len() {
                assert(all[i] == sub[i]);
                assert(init.contains(sub[i]));
                let k = choose|k: int| 0 <= k < init.len() && init[k] == sub[i];
                assert(days[k] == sub[i]);
            } else {
                assert(all[i] == last);
                assert(days[days.len() - 1] == last);
            }
        }
        assert forall|i: int|
            0 <= i < days.len() && period.holds((#[trigger] days[i]).date) implies all.contains(
            days[i],
        ) by {
            if i < init.len() {
                assert(init[i] == days[i]);
                assert(sub.contains(init[i]));
                let k = choose|k: int| 0 <= k < sub.len() && sub[k] == init[i];
                assert(all[k] == days[i]);
            } else {
                assert(all[all.len() - 1] == days[i]);
            }
        }
        if chronological(days) {
            assert(chronological(init)) by {
                assert forall|a: int, b: int| 0 <= a < b < init.len() implies (
                #[trigger] init[a]).date.key() < (#[trigger] init[b]).date.key() by {
                    assert(init[a] == days[a] && init[b] == days[b]);
                }
            }
            assert forall|a: int, b: int| 0 <= a < b < all.len() implies (
            #[trigger] all[a]).date.key() < (#[trigger] all[b]).date.key() by {
                if b < sub.len() {
                    assert(all[a] == sub[a] && all[b] == sub[b]);
                } else {
                    assert(all[a] == sub[a]);
                    assert(init.contains(sub[a]));
                    let k = choose|k: int| 0 <= k < init.len() && init[k] == sub[a];
                    assert(days[k] == sub[a]);
                    assert(days[days.len() - 1] == all[b]);
                }
            }
        }
        if days_wf(days) {
            assert(days_wf(init)) by {
                assert forall|a: int| 0 <= a < init.len() implies (#[trigger] init[a]).wf() by {
                    assert(init[a] == days[a]);
                }
            }
            assert forall|a: int| 0 <= a < all.len() implies (#[trigger] all[a]).wf() by {
                if a < sub.len() {
                    assert(all[a] == sub[a]);
                } else {
                    assert(all[a] == days[days.len() - 1]);
                }
            }
        }
    }
}

/// The time worked on `days`, in millionths of a minute.
pub open spec fn total_worked_units(days: Seq<DayView>) -> int
    decreases days.len(),
{
    if days.len() == 0 {
        0
    } else {
        total_worked_units(days.drop_last()) + days.last().worked_units()
    }
}

/// The break time credited on `days`, in millionths of a minute.
pub open spec fn total_credited_units(days: Seq<DayView>) -> int
    decreases days.len(),
{
    if days.len() == 0 {
        0
    } else {
        total_credited_units(days.drop_last()) + days.last().credited_units()
    }
}

/// The most that one well-formed day held in memory can add to a sum of
/// durations, in millionths of a minute.
pub open spec fn day_units_bound() -> int {
    0x8000_0000_0000_0000_0000_0000
}

/// A well-formed day with as many parts as memory can hold stays within
/// `day_units_bound()`.
pub proof fn lemma_day_units_bounded(day: DayView)
    requires
        day.wf(),
        day.parts.len() <= 0x1_0000_0000_0000_0000,
    ensures
        0 <= day.worked_units() <= day_units_bound(),
        0 <= day.credited_units() <= day_units_bound(),
{
    lemma_wf_units_bounded(day.parts);
    let n = day.parts.len() as int;
    assert(n * 0x8000_0000 <= 0x1_0000_0000_0000_0000 * 0x8000_0000) by (nonlinear_arith)
        requires
            0 <= n <= 0x1_0000_0000_0000_0000,
    ;
}

/// The time worked on `days`.
pub fn worked_total(days: &Vec<Day>) -> (r: Duration)
    requires
        in_order(days@),
    ensures
        r.units == total_worked_units(day_views(days@)),
{
    let ghost all = day_views(days@);
    let mut total: u128 = 0;
    let mut i: usize = 0;
    proof {
        lemma_chronological_len(all);
    }
    while i < days.len()
        invariant
            i <= days.len() <= 0x1_0000_0000,
            all == day_views(days@),
            days_wf(all),
            total == total_worked_units(all.take(i as int)),
            total <= i * day_units_bound(),
        decreases days.len() - i,
    {
        let parts = days[i].parts.len();
        let d = days[i].worked_duration();
        proof {
            assert(all.take(i as int + 1).drop_last() =~= all.take(i as int));
            assert(all[i as int].wf());
            assert(all[i as int].parts == days@[i as int].parts@);
            assert(parts == days@[i as int].parts@.len());
            lemma_day_units_bounded(all[i as int]);
            assert((i + 1) * day_units_bound() == i * day_units_bound() + day_units_bound())
                by (nonlinear_arith);
            assert((i + 1) * day_units_bound() <= 0x1_0000_0000 * day_units_bound())
                by (nonlinear_arith)
                requires
                    i + 1 <= 0x1_0000_0000,
            ;
        }
        total = total + d.units;
        i = i + 1;
    }
    proof {
        assert(all.take(i as int) =~= all);
    }
    Duration { units: total }
}

/// The break time credited on `days`.
pub fn credited_total(days: &Vec<Day>) -> (r: Duration)
    requires
        in_order(days@),
    ensures
        r.units == total_credited_units(day_views(days@)),
{
    let ghost all = day_views(days@);
    let mut total: u128 = 0;
    let mut i: usize = 0;
    proof {
        lemma_chronological_len(all);
    }
    while i < days.len()
        invariant
            i <= days.len() <= 0x1_0000_0000,
            all == day_views(days@),
            days_wf(all),
            total == total_credited_units(all.take(i as int)),
            total <= i * day_units_bound(),
        decreases days.len() - i,
    {
        let parts = days[i].parts.len();
        let d = days[i].credited_break_duration();
        proof {
            assert(all.take(i as int + 1).drop_last() =~= all.take(i as int));
            assert(all[i as int].wf());
            assert(all[i as int].parts == days@[i as int].parts@);
            assert(parts == days@[i as int].parts@.len());
            lemma_day_units_bounded(all[i as int]);
            assert((i + 1) * day_units_bound() == i * day_units_bound() + day_units_bound())
                by (nonlinear_arith);
            assert((i + 1) * day_units_bound() <= 0x1_0000_0000 * day_units_bound())
                by (nonlinear_arith)
                requires
                    i + 1 <= 0x1_0000_0000,
            ;
        }
        total = total + d.units;
        i = i + 1;
    }
    proof {
        assert(all.take(i as int) =~= all);
    }
    Duration { units: total }
}

/// The days stand in calendar order, each date once, and each is well
/// formed.
pub open spec fn in_order(days: Seq<Day>) -> bool {
    chronological(day_views(days)) && days_wf(day_views(days))
}

/// Days gathered for a period are well formed when they stand in calendar
/// order, each is well formed and each falls in the period.
pub open spec fn gathered(period: Period, days: Seq<DayView>) -> bool {
    &&& chronological(days)
    &&& days_wf(days)
    &&& forall|i: int| 0 <= i < days.len() ==> period.holds((#[trigger] days[i]).date)
}

/// The recorded days of one month.
#[derive(Debug)]
pub struct Month {
    pub year: u16,
    pub month: u8,
    pub days: Vec<Day>,
}

/// The recorded days of one ISO week.
#[derive(Debug)]
pub struct Week {
    pub year: i32,
    pub week: u32,
    pub days: Vec<Day>,
}

/// The recorded days of one calendar year.
#[derive(Debug)]
pub struct Year {
    pub year: u16,
    pub days: Vec<Day>,
}

impl Month {
    /// The month as a period.
    pub open spec fn period(&self) -> Period {
        Period::Month { year: self.year, month: self.month }
    }

    /// The days are in calendar order, well formed, and of this month.
    pub open spec fn wf(&self) -> bool {
        gathered(self.period(), day_views(self.days@))
    }

    /// The number of days recorded in this month.
    pub fn day_count(&self) -> (r: usize)
        ensures
            r == self.days@.len(),
    {
        self.days.len()
    }

    /// The time worked in this month.
    pub fn worked_duration(&self) -> (r: Duration)
        requires
            in_order(self.days@),
        ensures
            r.units == total_worked_units(day_views(self.days@)),
    {
        worked_total(&self.days)
    }

    /// The break time credited in this month.
    pub fn credited_break_duration(&self) -> (r: Duration)
        requires
            in_order(self.days@),
        ensures
            r.units == total_credited_units(day_views(self.days@)),
    {
        credited_total(&self.days)
    }
}

impl Week {
    /// The week as a period.
    pub open spec fn period(&self) -> Period {
        Period::Week { iso_year: self.year, week: self.week }
    }

    /// The days are in calendar order, well formed, and of this week.
    pub open spec fn wf(&self) -> bool {
        gathered(self.period(), day_views(self.days@))
    }

    /// The number of days recorded in this week.
    pub fn day_count(&self) -> (r: usize)
        ensures
            r == self.days@.len(),
    {
        self.days.len()
    }

    /// The time worked in this week.
    pub fn worked_duration(&self) -> (r: Duration)
        requires
            in_order(self.days@),
        ensures
            r.units == total_worked_units(day_views(self.days@)),
    {
        worked_total(&self.days)
    }

    /// The break time credited in this week.
    pub fn credited_break_duration(&self) -> (r: Duration)
        requires
            in_order(self.days@),
        ensures
            r.units == total_credited_units(day_views(self.days@)),
    {
        credited_total(&self.days)
    }
}

impl Year {
    /// The year as a period.
    pub open spec fn period(&self) -> Period {
        Period::Year { year: self.year }
    }

    /// The days are in calendar order, well formed, and of this year.
    pub open spec fn wf(&self) -> bool {
        gathered(self.period(), day_views(self.days@))
    }

    /// The number of days recorded in this year.
    pub fn day_count(&self) -> (r: usize)
        ensures
            r == self.days@.len(),
    {
        self.days.len()
    }

    /// The time worked in this year.
    pub fn worked_duration(&self) -> (r: Duration)
        requires
            in_order(self.days@),
        ensures
            r.units == total_worked_units(day_views(self.days@)),
    {
        worked_total(&self.days)
    }

    /// The break time credited in this year.
    pub fn credited_break_duration(&self) -> (r: Duration)
        requires
            in_order(self.days@),
        ensures
            r.units == total_credited_units(day_views(self.days@)),
    {
        credited_total(&self.days)
    }
}

/// `answer` is what the days recorded in `days` have to say of `period`: the
/// days of the period where there are any, and else whether the period is
/// one that no calendar has or one in which nothing is recorded.
pub open spec fn answers(
    days: Seq<DayView>,
    period: Period,
    answer: Result<Vec<Day>, QueryError>,
) -> bool {
    match answer {
        Ok(found) => period.wf() && found@.len() > 0 && day_views(found@) == period.select(days)
            && gathered(period, day_views(found@)),
        Err(QueryError::Malformed) => !period.wf(),
        Err(QueryError::NotFound) => period.wf() && period.select(days).len() == 0,
    }
}

impl Storage {
    /// What is recorded for each of `periods`, one answer for each in their
    /// order.
    pub fn gather_each(&self, periods: &Vec<Period>) -> (r: Vec<Result<Vec<Day>, QueryError>>)
        requires
            self.wf(),
        ensures
            r@.len() == periods@.len(),
            forall|i: int|
                0 <= i < r@.len() ==> answers(self.days(), periods@[i], #[trigger] r@[i]),
    {
        let mut out: Vec<Result<Vec<Day>, QueryError>> = Vec::new();
        let mut i: usize = 0;
        while i < periods.len()
            invariant
                i <= periods.len(),
                self.wf(),
                out@.len() == i,
                forall|k: int|
                    0 <= k < i ==> answers(self.days(), periods@[k], #[trigger] out@[k]),
            decreases periods.len() - i,
        {
            let answer = self.gather(&periods[i]);
            out.push(answer);
            i = i + 1;
        }
        out
    }

    /// Copies of the recorded days that fall in `period`, in calendar order.
    /// A period that no calendar has is refused; one in which nothing is
    /// recorded is told apart from it.
    pub fn gather(&self, period: &Period) -> (r: Result<Vec<Day>, QueryError>)
        requires
            self.wf(),
        ensures
            answers(self.days(), *period, r),
    {
        if !period.is_valid() {
            return Err(QueryError::Malformed);
        }
        let days = period.pick(self.all_days());
        proof {
            lemma_select(*period, self.days());
        }
        if days.len() == 0 {
            Err(QueryError::NotFound)
        } else {
            Ok(days)
        }
    }

    /// The recorded days of the calendar year `year`.
    pub fn get_year(&self, year: u16) -> (r: Result<Year, QueryError>)
        requires
            self.wf(),
        ensures
            match r {
                Ok(y) => y.year == year && y.wf() && answers(
                    self.days(),
                    Period::Year { year },
                    Ok(y.days),
                ),
                Err(e) => answers(self.days(), Period::Year { year }, Err(e)),
            },
    {
        match self.gather(&Period::Year { year }) {
            Ok(days) => Ok(Year { year, days }),
            Err(e) => Err(e),
        }
    }

    /// The recorded days of month `month` of the year `year`.
    pub fn get_month(&self, year: u16, month: u8) -> (r: Result<Month, QueryError>)
        requires
            self.wf(),
        ensures
            match r {
                Ok(m) => m.year == year && m.month == month && m.wf() && answers(
                    self.days(),
                    Period::Month { year, month },
                    Ok(m.days),
                ),
                Err(e) => answers(self.days(), Period::Month { year, month }, Err(e)),
            },
    {
        match self.gather(&Period::Month { year, month }) {
            Ok(days) => Ok(Month { year, month, days }),
            Err(e) => Err(e),
        }
    }

    /// The recorded days of ISO week `week` of the ISO year `year`: the days
    /// whose own ISO week is that one, whatever the year of their date. So a
    /// first of January that is a Friday is found in the last week of the
    /// year before, and in no week of its own year.
    pub fn get_week(&self, year: i32, week: u32) -> (r: Result<Week, QueryError>)
        requires
            self.wf(),
        ensures
            match r {
                Ok(w) => w.year == year && w.week == week && w.wf() && answers(
                    self.days(),
                    Period::Week { iso_year: year, week },
                    Ok(w.days),
                ),
                Err(e) => answers(self.days(), Period::Week { iso_year: year, week }, Err(e)),
            },
    {
        match self.gather(&Period::Week { iso_year: year, week }) {
            Ok(days) => Ok(Week { year, week, days }),
            Err(e) => Err(e),
        }
    }
}

/// One of `months` is month `month`.
pub open spec fn has_month(months: Seq<Month>, month: u8) -> bool {
    exists|i: int| 0 <= i < months.len() && (#[trigger] months[i]).month == month
}

/// One of `weeks` is the ISO week of `date`.
pub open spec fn has_week_of(weeks: Seq<Week>, date: Date) -> bool {
    exists|i: int|
        0 <= i < weeks.len() && date.in_iso_week(
            (#[trigger] weeks[i]).year as int,
            weeks[i].week as int,
        )
}

impl Year {
    /// The months of this year in which something is recorded, in order,
    /// each with its days picked from the days of the year.
    pub fn months(&self) -> (r: Vec<Month>)
        requires
            self.wf(),
        ensures
            forall|i: int|
                0 <= i < r@.len() ==> {
                    &&& (#[trigger] r@[i]).year == self.year
                    &&& r@[i].wf()
                    &&& r@[i].days@.len() > 0
                    &&& day_views(r@[i].days@) == r@[i].period().select(day_views(self.days@))
                },
            forall|i: int, j: int|
                0 <= i < j < r@.len() ==> (#[trigger] r@[i]).month < (#[trigger] r@[j]).month,
            forall|k: int|
                0 <= k < self.days@.len() ==> has_month(r@, (#[trigger] self.days@[k]).date.month),
    {
        let ghost all = day_views(self.days@);
        let mut out: Vec<Month> = Vec::new();
        let mut m: u8 = 1;
        while m <= 12
            invariant
                1 <= m <= 13,
                self.wf(),
                all == day_views(self.days@),
                forall|i: int|
                    0 <= i < out@.len() ==> {
                        &&& (#[trigger] out@[i]).year == self.year
                        &&& out@[i].wf()
                        &&& out@[i].days@.len() > 0
                        &&& out@[i].month < m
                        &&& day_views(out@[i].days@) == out@[i].period().select(all)
                    },
                forall|i: int, j: int|
                    0 <= i < j < out@.len() ==> (#[trigger] out@[i]).month < (
                    #[trigger] out@[j]).month,
                forall|k: int|
                    0 <= k < self.days@.len() && 1 <= (#[trigger] self.days@[k]).date.month < m
                        ==> has_month(out@, self.days@[k].date.month),
            decreases 13 - m,
        {
            let period = Period::Month { year: self.year, month: m };
            let days = period.pick(&self.days);
            let ghost before = out@;
            proof {
                lemma_select(period, all);
            }
            if days.len() > 0 {
                out.push(Month { year: self.year, month: m, days });
            }
            proof {
                assert forall|k: int|
                    0 <= k < self.days@.len() && 1 <= (#[trigger] self.days@[k]).date.month < m
                        + 1 implies has_month(out@, self.days@[k].date.month) by {
                    let month = self.days@[k].date.month;
                    if month < m {
                        assert(has_month(before, month));
                        let i = choose|i: int|
                            0 <= i < before.len() && (#[trigger] before[i]).month == month;
                        assert(out@[i].month == month);
                    } else {
                        assert(all[k].date == self.days@[k].date);
                        assert(period.holds(all[k].date));
                        assert(period.select(all).contains(all[k]));
                        assert(out@[out@.len() - 1].month == month);
                    }
                }
            }
            m = m + 1;
        }
        proof {
            assert forall|k: int| 0 <= k < self.days@.len() implies has_month(
                out@,
                (#[trigger] self.days@[k]).date.month,
            ) by {
                assert(all[k].wf());
                assert(all[k].date == self.days@[k].date);
            }
        }
        out
    }

    /// The ISO weeks in which a day of this year falls, each once, in the
    /// order of their first day in this year, each with its days picked from
    /// the days of the year. A week that reaches into another year holds
    /// only its days of this year.
    pub fn weeks(&self) -> (r: Vec<Week>)
        requires
            self.wf(),
        ensures
            forall|i: int|
                0 <= i < r@.len() ==> {
                    &&& (#[trigger] r@[i]).wf()
                    &&& r@[i].days@.len() > 0
                    &&& day_views(r@[i].days@) == r@[i].period().select(day_views(self.days@))
                },
            forall|i: int, j: int|
                0 <= i < j < r@.len() ==> (#[trigger] r@[i]).period() != (#[trigger] r@[j]).period()
                    && r@[i].days@[0].date.key() < r@[j].days@[0].date.key(),
            forall|k: int|
                0 <= k < self.days@.len() ==> has_week_of(r@, (#[trigger] self.days@[k]).date),
    {
        let ghost all = day_views(self.days@);
        let mut out: Vec<Week> = Vec::new();
        let mut k: usize = 0;
        while k < self.days.len()
            invariant
                k <= self.days.len(),
                self.wf(),
                all == day_views(self.days@),
                forall|i: int|
                    0 <= i < out@.len() ==> {
                        &&& (#[trigger] out@[i]).wf()
                        &&& out@[i].days@.len() > 0
                        &&& day_views(out@[i].days@) == out@[i].period().select(all)
                    },
                forall|i: int, j: int|
                    0 <= i < j < out@.len() ==> (#[trigger] out@[i]).period() != (
                    #[trigger] out@[j]).period() && out@[i].days@[0].date.key()
                        < out@[j].days@[0].date.key(),
                forall|i: int, n: int|
                    0 <= i < out@.len() && k <= n < all.len() ==> (
                    #[trigger] out@[i]).days@[0].date.key() < (#[trigger] all[n]).date.key(),
                forall|n: int|
                    0 <= n < k ==> has_week_of(out@, (#[trigger] self.days@[n]).date),
            decreases self.days.len() - k,
        {
            let date = self.days[k].date;
            let ghost before = out@;
            proof {
                assert(all[k as int].wf());
                assert(all[k as int].date == date);
            }
            match date.iso_week() {
                Some(w) => {
                    let mut known = false;
                    let mut i: usize = 0;
                    while i < out.len()
                        invariant
                            i <= out.len(),
                            known <==> exists|j: int|
                                0 <= j < i && (#[trigger] out@[j]).year == w.year && out@[j].week
                                    == w.week,
                        decreases out.len() - i,
                    {
                        if out[i].year == w.year && out[i].week == w.week {
                            known = true;
                        }
                        i = i + 1;
                    }
                    if !known {
                        let period = Period::Week { iso_year: w.year, week: w.week };
                        let days = period.pick(&self.days);
                        proof {
                            lemma_select(period, all);
                            assert(period.holds(all[k as int].date));
                            let picked = period.select(all);
                            assert(picked.contains(all[k as int]));
                            let at = choose|at: int| 0 <= at < picked.len() && picked[at] == all[k as int];
                            assert(picked[0].date.key() <= picked[at].date.key());
                            assert(all.contains(picked[0]));
                            let n = choose|n: int| 0 <= n < all.len() && all[n] == picked[0];
                            if n < k {
                                assert(self.days@[n].date == all[n].date);
                                assert(has_week_of(before, self.days@[n].date));
                                let i = choose|i: int|
                                    0 <= i < before.len() && self.days@[n].date.in_iso_week(
                                        (#[trigger] before[i]).year as int,
                                        before[i].week as int,
                                    );
                                assert(before[i].year == w.year && before[i].week == w.week);
                                assert(false);
                            }
                            if n > k {
                                assert(all[k as int].date.key() < all[n].date.key());
                            }
                            assert(picked[0].date.key() == all[k as int].date.key());
                            assert(days@[0]@ == picked[0]);
                        }
                        out.push(Week { year: w.year, week: w.week, days });
                        proof {
                            assert(forall|j: int| 0 <= j < before.len() ==> out@[j] == before[j]);
                            assert forall|i: int, n: int|
                                0 <= i < out@.len() && k + 1 <= n < all.len() implies (
                            #[trigger] out@[i]).days@[0].date.key() < (#[trigger] all[n]).date.key() by {
                                if i == before.len() {
                                    assert(all[k as int].date.key() < all[n].date.key());
                                }
                            }
                            assert(date.in_iso_week(
                                out@[out@.len() - 1].year as int,
                                out@[out@.len() - 1].week as int,
                            ));
                        }
                    } else {
                        proof {
                            let j = choose|j: int|
                                0 <= j < out@.len() && (#[trigger] out@[j]).year == w.year
                                    && out@[j].week == w.week;
                            assert(date.in_iso_week(out@[j].year as int, out@[j].week as int));
                        }
                    }
                },
                None => {},
            }
            proof {
                assert forall|n: int| 0 <= n < k + 1 implies has_week_of(
                    out@,
                    (#[trigger] self.days@[n]).date,
                ) by {
                    if n < k {
                        assert(has_week_of(before, self.days@[n].date));
                        let i = choose|i: int|
                            0 <= i < before.len() && self.days@[n].date.in_iso_week(
                                (#[trigger] before[i]).year as int,
                                before[i].week as int,
                            );
                        assert(out@[i] == before[i]);
                    }
                }
            }
            k = k + 1;
        }
        out
    }
}

/// What is gathered for a month is exactly what is recorded in it: every
/// day gathered is of the month and recorded, and every recorded day of the
/// month is gathered. What is gathered for another month shares no date
/// with it.
pub proof fn lemma_months_exact_and_disjoint(
    days: Seq<DayView>,
    year: u16,
    month: u8,
    other_year: u16,
    other_month: u8,
)
    requires
        year != other_year || month != other_month,
    ensures
        forall|i: int|
            0 <= i < (Period::Month { year, month }).select(days).len() ==> {
                let d = #[trigger] (Period::Month { year, month }).select(days)[i];
                d.date.year == year && d.date.month == month && days.contains(d)
            },
        forall|i: int|
            0 <= i < days.len() && (#[trigger] days[i]).date.year == year && days[i].date.month
                == month ==> (Period::Month { year, month }).select(days).contains(days[i]),
        forall|i: int, j: int|
            0 <= i < (Period::Month { year, month }).select(days).len() && 0 <= j < (Period::Month {
                year: other_year,
                month: other_month,
            }).select(days).len() ==> (#[trigger] (Period::Month { year, month }).select(
                days,
            )[i]).date != (#[trigger] (Period::Month {
                year: other_year,
                month: other_month,
            }).select(days)[j]).date,
{
    lemma_select(Period::Month { year, month }, days);
    lemma_select(Period::Month { year: other_year, month: other_month }, days);
}

} // verus!
