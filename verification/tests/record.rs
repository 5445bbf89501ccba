use reti::date::{Date, IsoWeek};
use reti::factor::Factor;
use reti::legacy_parser::parse_line;
use reti::record::{Day, Part};
use reti::time::{Duration, Time};

fn time(hour: u8, minute: u8) -> Time {
    Time { hour, minute }
}

fn span(from: (u8, u8), to: (u8, u8), millionths: Option<u32>) -> Part {
    Part {
        start: time(from.0, from.1),
        stop: Some(time(to.0, to.1)),
        factor: millionths.map(|m| Factor { millionths: m }),
    }
}

#[test]
fn time_only_within_the_day() {
    assert_eq!(Time::new(23, 59), Some(time(23, 59)));
    assert_eq!(Time::new(24, 0), None);
    assert_eq!(Time::new(0, 60), None);
    assert_eq!(time(13, 5).minutes(), 785);
    assert!(!time(24, 0).is_valid());
}

#[test]
fn factor_only_above_zero_up_to_one() {
    assert_eq!(Factor::new(0), None);
    assert_eq!(Factor::new(1), Some(Factor { millionths: 1 }));
    assert_eq!(Factor::new(1_000_000), Some(Factor { millionths: 1_000_000 }));
    assert_eq!(Factor::new(1_000_001), None);
    assert!(Factor { millionths: 1_000_000 }.is_one());
    assert!(!Factor { millionths: 999_999 }.is_one());
}

#[test]
fn date_only_from_the_calendar() {
    assert_eq!(Date::new(2016, 4, 25), Some(Date { year: 2016, month: 4, day: 25 }));
    assert_eq!(Date::new(2016, 2, 30), None);
    assert_eq!(Date::new(2100, 2, 29), None);
    assert_eq!(Date::new(2400, 2, 29), Some(Date { year: 2400, month: 2, day: 29 }));
    assert_eq!(Date::new(10000, 1, 1), None);
    assert_eq!(Date::new(2016, 0, 1), None);
    assert_eq!(Date::new(2016, 1, 0), None);
    assert!(Date { year: 2016, month: 12, day: 31 }.is_valid());
    assert!(!Date { year: 2016, month: 11, day: 31 }.is_valid());
}

#[test]
fn dates_order_as_the_calendar() {
    let a = Date { year: 2016, month: 4, day: 25 };
    let b = Date { year: 2016, month: 5, day: 1 };
    let c = Date { year: 2017, month: 1, day: 1 };
    assert!(a.is_before(&b));
    assert!(b.is_before(&c));
    assert!(!c.is_before(&a));
    assert!(!a.is_before(&a));
}

#[test]
fn first_of_january_late_in_the_week_belongs_to_the_old_year() {
    let friday = Date { year: 2021, month: 1, day: 1 };
    assert_eq!(friday.iso_week(), Some(IsoWeek { year: 2020, week: 53 }));
    let saturday = Date { year: 2022, month: 1, day: 1 };
    assert_eq!(saturday.iso_week(), Some(IsoWeek { year: 2021, week: 52 }));
    let sunday = Date { year: 2023, month: 1, day: 1 };
    assert_eq!(sunday.iso_week(), Some(IsoWeek { year: 2022, week: 52 }));
    let friday_2016 = Date { year: 2016, month: 1, day: 1 };
    assert_eq!(friday_2016.iso_week(), Some(IsoWeek { year: 2015, week: 53 }));
}

#[test]
fn iso_week_table() {
    let week = |y, m, d| Date { year: y, month: m, day: d }.iso_week();
    assert_eq!(week(2024, 1, 1), Some(IsoWeek { year: 2024, week: 1 }));
    assert_eq!(week(2020, 1, 1), Some(IsoWeek { year: 2020, week: 1 }));
    assert_eq!(week(2019, 12, 30), Some(IsoWeek { year: 2020, week: 1 }));
    assert_eq!(week(2024, 12, 30), Some(IsoWeek { year: 2025, week: 1 }));
    assert_eq!(week(2020, 12, 31), Some(IsoWeek { year: 2020, week: 53 }));
    assert_eq!(week(2016, 4, 25), Some(IsoWeek { year: 2016, week: 17 }));
    assert_eq!(week(2015, 1, 4), Some(IsoWeek { year: 2015, week: 1 }));
    assert_eq!(week(2015, 1, 5), Some(IsoWeek { year: 2015, week: 2 }));
    assert_eq!(week(2016, 2, 30), None);
}

#[test]
fn part_must_not_stop_before_it_starts() {
    assert!(span((8, 0), (12, 0), None).is_valid());
    assert!(span((8, 0), (8, 0), None).is_valid());
    assert!(!span((12, 0), (8, 0), None).is_valid());
    assert!(!span((8, 0), (24, 0), None).is_valid());
    assert!(!span((8, 0), (12, 0), Some(0)).is_valid());
    assert!(!span((8, 0), (12, 0), Some(1_000_001)).is_valid());
    let open_break =
        Part { start: time(8, 0), stop: None, factor: Some(Factor { millionths: 500_000 }) };
    assert!(!open_break.is_valid());
    assert_eq!(Part::new(time(12, 0), Some(time(8, 0)), None), None);
    assert_eq!(
        Part::new(time(8, 0), Some(time(12, 0)), None),
        Some(span((8, 0), (12, 0), None))
    );
}

#[test]
fn durations_of_a_part() {
    let work = span((8, 0), (12, 30), None);
    assert_eq!(work.minutes(), 270);
    assert_eq!(work.worked_duration(), Duration { units: 270_000_000 });
    assert_eq!(work.credited_break_duration(), Duration { units: 0 });
    let pause = span((12, 30), (13, 0), Some(250_000));
    assert_eq!(pause.worked_duration(), Duration { units: 0 });
    assert_eq!(pause.credited_break_duration(), Duration { units: 7_500_000 });
    let third = span((12, 0), (12, 10), Some(333_333));
    assert_eq!(third.credited_break_duration().units, 3_333_330);
    assert_eq!(third.credited_break_duration().whole_minutes(), 3);
    assert_eq!(third.credited_break_duration().units_past_minute(), 333_330);
    let open = Part { start: time(8, 0), stop: None, factor: None };
    assert_eq!(open.worked_duration(), Duration { units: 0 });
    assert_eq!(open.minutes(), 0);
}

#[test]
fn durations_of_a_day() {
    let date = Date { year: 2016, month: 4, day: 25 };
    let day = Day::with_parts(
        date,
        vec![
            span((8, 0), (12, 0), None),
            span((12, 0), (13, 0), Some(500_000)),
            span((13, 0), (17, 0), None),
            Part { start: time(18, 0), stop: None, factor: None },
        ],
    );
    assert!(day.is_valid());
    assert_eq!(day.worked_duration().whole_hours(), 8);
    assert_eq!(day.credited_break_duration().whole_minutes(), 30);
    assert_eq!(Day::new(date).worked_duration(), Duration::zero());
    assert_eq!(Duration::from_minutes(90).whole_hours(), 1);
    assert_eq!(Duration::from_minutes(90).units, 90_000_000);
}

#[test]
fn work_and_credit_stay_within_the_span() {
    let date = Date { year: 2016, month: 4, day: 25 };
    let total_span = |d: &Day| -> u128 {
        d.parts.iter().map(|p| u128::from(p.minutes()) * 1_000_000).sum()
    };
    let partly = Day::with_parts(
        date,
        vec![span((8, 0), (12, 0), None), span((12, 0), (13, 0), Some(500_000))],
    );
    assert!(
        partly.worked_duration().units + partly.credited_break_duration().units
            < total_span(&partly)
    );
    let fully = Day::with_parts(
        date,
        vec![span((8, 0), (12, 0), None), span((12, 0), (13, 0), Some(1_000_000))],
    );
    assert_eq!(
        fully.worked_duration().units + fully.credited_break_duration().units,
        total_span(&fully)
    );
}

#[test]
fn written_day_is_read_back() {
    let lines = [
        "2016-04-25 08:00-12:00 13:00-17:00-0.5",
        "2016-04-26 08:00",
        "2020-02-29 00:00-23:59-1 23:59",
        "0000-01-01 09:15-09:45-0.000001 10:00-11:00-0.123456 11:00-12:00-0.1",
    ];
    for line in lines {
        let day = parse_line(line).unwrap();
        let text = day.as_legacy();
        assert_eq!(text, line);
        let again = parse_line(&text).unwrap();
        assert_eq!(again.date, day.date);
        assert_eq!(again.parts, day.parts);
        assert_eq!(again.as_legacy(), text);
    }
}

#[test]
fn written_day_is_in_the_plain_form() {
    let day = parse_line("  2016-04-25\t0800-1200   1300-1700-0.50  # lunch late").unwrap();
    assert_eq!(day.as_legacy(), "2016-04-25 08:00-12:00 13:00-17:00-0.5");
    let whole = parse_line("2016-04-25 1300-1700-1.000").unwrap();
    assert_eq!(whole.as_legacy(), "2016-04-25 13:00-17:00-1");
    let empty = Day::new(Date { year: 2016, month: 4, day: 25 });
    assert_eq!(empty.as_legacy(), "2016-04-25");
}

#[test]
fn duplicate_is_equal_and_apart() {
    let day = parse_line("2016-04-25 08:00-12:00").unwrap();
    let mut copy = day.duplicate();
    assert_eq!(copy.date, day.date);
    assert_eq!(copy.parts, day.parts);
    copy.push_part(Part { start: time(13, 0), stop: None, factor: None });
    assert_eq!(copy.parts.len(), 2);
    assert_eq!(day.parts.len(), 1);
}

#[test]
fn every_first_of_january_is_in_the_week_its_weekday_says() {
    for year in 1..=9999u16 {
        let weekday = chrono::Datelike::weekday(
            &chrono::NaiveDate::from_ymd_opt(i32::from(year), 1, 1).unwrap(),
        );
        let late = matches!(
            weekday,
            chrono::Weekday::Fri | chrono::Weekday::Sat | chrono::Weekday::Sun
        );
        let week = Date { year, month: 1, day: 1 }.iso_week().unwrap();
        if late {
            assert_eq!(week.year, i32::from(year) - 1);
            assert!(week.week == 52 || week.week == 53);
        } else {
            assert_eq!(week, IsoWeek { year: i32::from(year), week: 1 });
        }
    }
}

#[test]
fn days_of_one_week_share_it_from_monday_to_sunday() {
    let monday = Date { year: 2020, month: 12, day: 28 }.iso_week().unwrap();
    assert_eq!(monday, IsoWeek { year: 2020, week: 53 });
    for (year, month, day) in [(2020u16, 12u8, 29u8), (2020, 12, 30), (2020, 12, 31), (2021, 1, 1), (2021, 1, 2), (2021, 1, 3)] {
        assert_eq!(Date { year, month, day }.iso_week(), Some(monday));
    }
    assert_eq!(
        Date { year: 2021, month: 1, day: 4 }.iso_week(),
        Some(IsoWeek { year: 2021, week: 1 })
    );
    assert_eq!(
        Date { year: 2020, month: 12, day: 27 }.iso_week(),
        Some(IsoWeek { year: 2020, week: 52 })
    );
}
