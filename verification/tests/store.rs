use reti::calendar::{Period, QueryError};
use reti::date::Date;
use reti::factor::Factor;
use reti::legacy_parser::{parse_line, ParseError};
use reti::record::{Day, Part};
use reti::storage::{SnapshotError, Storage};
use reti::time::Time;

fn day(line: &str) -> Day {
    parse_line(line).unwrap()
}

fn date(year: u16, month: u8, day: u8) -> Date {
    Date { year, month, day }
}

fn filled() -> Storage {
    let mut store = Storage::new();
    let text = "\
2020-12-28 08:00-12:00
2020-12-31 08:00-16:00 12:00-12:30-0.5
2021-01-01 10:00-12:00
2021-01-04 09:00-17:00
2021-01-31 09:00-10:00
2021-02-01 09:00-10:30
2019-12-30 07:00-08:00";
    let report = store.import_legacy(text);
    assert_eq!(report.imported, 7);
    assert!(report.failures.is_empty());
    store
}

#[test]
fn new_store_is_empty() {
    let store = Storage::new();
    assert_eq!(store.len(), 0);
    assert_eq!(store.get_fee(), 0);
    assert!(store.get_day(2016, 4, 25).is_none());
    assert!(store.all_days().is_empty());
}

#[test]
fn fee_is_kept() {
    let mut store = filled();
    store.set_fee(4250);
    assert_eq!(store.get_fee(), 4250);
    assert_eq!(store.len(), 7);
}

#[test]
fn add_day_keeps_what_is_there() {
    let mut store = Storage::new();
    assert!(store.add_day(day("2016-04-25 08:00-12:00")));
    assert!(!store.add_day(day("2016-04-25 13:00-17:00 18:00")));
    assert_eq!(store.len(), 1);
    let kept = store.get_day(2016, 4, 25).unwrap();
    assert_eq!(kept.as_legacy(), "2016-04-25 08:00-12:00");
}

#[test]
fn add_day_force_replaces_what_is_there() {
    let mut store = Storage::new();
    assert!(store.add_day(day("2016-04-25 08:00-12:00 13:00-14:00")));
    store.add_day_force(day("2016-04-25 09:00-10:00"));
    assert_eq!(store.len(), 1);
    let now = store.get_day(2016, 4, 25).unwrap();
    assert_eq!(now.as_legacy(), "2016-04-25 09:00-10:00");
    store.add_day_force(day("2016-04-26 09:00"));
    assert_eq!(store.len(), 2);
}

#[test]
fn days_stand_in_calendar_order() {
    let store = filled();
    let dates: Vec<Date> = store.all_days().iter().map(|d| d.date).collect();
    assert_eq!(
        dates,
        vec![
            date(2019, 12, 30),
            date(2020, 12, 28),
            date(2020, 12, 31),
            date(2021, 1, 1),
            date(2021, 1, 4),
            date(2021, 1, 31),
            date(2021, 2, 1),
        ]
    );
    assert_eq!(store.day_at(0).date, date(2019, 12, 30));
    assert!(store.contains(&date(2021, 1, 4)));
    assert!(!store.contains(&date(2021, 1, 5)));
}

#[test]
fn remove_day_says_whether_there_was_one() {
    let mut store = filled();
    assert!(store.remove_day(date(2021, 1, 4)));
    assert!(!store.remove_day(date(2021, 1, 4)));
    assert!(!store.remove_day(date(2016, 4, 25)));
    assert_eq!(store.len(), 6);
    assert!(store.get_day(2021, 1, 4).is_none());
    assert!(store.get_day(2021, 1, 1).is_some());
}

#[test]
fn add_part_appends_or_begins_a_day() {
    let mut store = Storage::new();
    let first = Part { start: Time { hour: 8, minute: 0 }, stop: None, factor: None };
    let second = Part {
        start: Time { hour: 12, minute: 0 },
        stop: Some(Time { hour: 12, minute: 30 }),
        factor: Some(Factor { millionths: 500_000 }),
    };
    assert!(store.add_part(date(2016, 4, 25), first));
    assert_eq!(store.get_day(2016, 4, 25).unwrap().parts, vec![first]);
    assert!(store.add_part(date(2016, 4, 25), second));
    assert_eq!(store.get_day(2016, 4, 25).unwrap().parts, vec![first, second]);
    assert_eq!(store.len(), 1);
}

#[test]
fn add_part_refuses_what_is_not_well_formed() {
    let mut store = Storage::new();
    let backwards = Part {
        start: Time { hour: 12, minute: 0 },
        stop: Some(Time { hour: 8, minute: 0 }),
        factor: None,
    };
    let fine = Part { start: Time { hour: 8, minute: 0 }, stop: None, factor: None };
    assert!(!store.add_part(date(2016, 4, 25), backwards));
    assert!(!store.add_part(date(2016, 2, 30), fine));
    assert_eq!(store.len(), 0);
}

#[test]
fn import_passes_over_one_bad_line() {
    let mut store = Storage::new();
    let text = "\
2016-04-25 08:00-12:00 13:00-17:00-0.5
2016-04-26 08:00-12:00
2016-04-27 8:00-12:00
2016-04-28 08:00-12:00
2016-04-29 08:00-12:00
";
    let report = store.import_legacy(text);
    assert_eq!(report.imported, 4);
    assert_eq!(report.failures.len(), 1);
    assert_eq!(report.failures[0].line, 3);
    assert_eq!(report.failures[0].text, "2016-04-27 8:00-12:00");
    assert_eq!(report.failures[0].error, ParseError::BadPart { index: 0 });
    assert_eq!(store.len(), 4);
    assert!(store.get_day(2016, 4, 27).is_none());
    assert!(store.get_day(2016, 4, 29).is_some());
}

#[test]
fn import_passes_over_blank_lines_and_comments() {
    let mut store = Storage::new();
    let text = "# Date         Parts\n\n   \n2016-04-25 08:00 # open\r\n\n#2016-04-26 08:00\nnot a date\n";
    let report = store.import_legacy(text);
    assert_eq!(report.imported, 1);
    assert_eq!(report.failures.len(), 1);
    assert_eq!(report.failures[0].line, 7);
    assert_eq!(report.failures[0].error, ParseError::BadDate);
    assert_eq!(store.len(), 1);
    let empty = store.import_legacy("");
    assert_eq!(empty.imported, 0);
    assert!(empty.failures.is_empty());
}

#[test]
fn import_replaces_days_line_by_line() {
    let mut store = Storage::new();
    store.add_day_force(day("2016-04-25 06:00-07:00"));
    let report = store.import_legacy("2016-04-25 08:00-12:00\n2016-04-25 09:00-10:00");
    assert_eq!(report.imported, 2);
    assert_eq!(store.len(), 1);
    assert_eq!(store.get_day(2016, 4, 25).unwrap().as_legacy(), "2016-04-25 09:00-10:00");
}

#[test]
fn month_holds_exactly_its_days() {
    let store = filled();
    let january = store.get_month(2021, 1).unwrap();
    let dates: Vec<Date> = january.days.iter().map(|d| d.date).collect();
    assert_eq!(dates, vec![date(2021, 1, 1), date(2021, 1, 4), date(2021, 1, 31)]);
    assert_eq!(january.day_count(), 3);
    assert_eq!(january.worked_duration().whole_hours(), 11);
    let february = store.get_month(2021, 2).unwrap();
    assert_eq!(february.days.len(), 1);
    assert!(february.days.iter().all(|d| !dates.contains(&d.date)));
    let december = store.get_month(2020, 12).unwrap();
    assert_eq!(december.worked_duration().whole_hours(), 12);
    assert_eq!(december.credited_break_duration().whole_minutes(), 15);
}

#[test]
fn empty_period_is_told_from_a_malformed_one() {
    let store = filled();
    assert_eq!(store.get_month(2021, 3).unwrap_err(), QueryError::NotFound);
    assert_eq!(store.get_month(2021, 13).unwrap_err(), QueryError::Malformed);
    assert_eq!(store.get_month(2021, 0).unwrap_err(), QueryError::Malformed);
    assert_eq!(store.get_year(2018).unwrap_err(), QueryError::NotFound);
    assert_eq!(store.get_year(10000).unwrap_err(), QueryError::Malformed);
    assert_eq!(store.get_week(2021, 2).unwrap_err(), QueryError::NotFound);
    assert_eq!(store.get_week(2021, 0).unwrap_err(), QueryError::Malformed);
    assert_eq!(store.get_week(2021, 54).unwrap_err(), QueryError::Malformed);
    assert_eq!(
        store.gather(&Period::Month { year: 2021, month: 12 }).unwrap_err(),
        QueryError::NotFound
    );
}

#[test]
fn week_goes_by_the_iso_year() {
    let store = filled();
    let last = store.get_week(2020, 53).unwrap();
    let dates: Vec<Date> = last.days.iter().map(|d| d.date).collect();
    assert_eq!(dates, vec![date(2020, 12, 28), date(2020, 12, 31), date(2021, 1, 1)]);
    assert_eq!(last.worked_duration().whole_hours(), 14);
    assert_eq!(store.get_week(2021, 53).unwrap_err(), QueryError::NotFound);
    let first = store.get_week(2021, 1).unwrap();
    assert_eq!(first.days.len(), 1);
    assert_eq!(first.days[0].date, date(2021, 1, 4));
    let early = store.get_week(2020, 1).unwrap();
    assert_eq!(early.days[0].date, date(2019, 12, 30));
}

#[test]
fn year_holds_its_months_and_weeks() {
    let store = filled();
    let year = store.get_year(2021).unwrap();
    assert_eq!(year.day_count(), 4);
    assert_eq!(year.worked_duration().whole_minutes(), 120 + 480 + 60 + 90);
    assert_eq!(year.credited_break_duration().units, 0);
    let months = year.months();
    assert_eq!(months.iter().map(|m| m.month).collect::<Vec<u8>>(), vec![1, 2]);
    assert_eq!(months[0].days.len(), 3);
    assert_eq!(months[1].days.len(), 1);
    let weeks = year.weeks();
    let keys: Vec<(i32, u32)> = weeks.iter().map(|w| (w.year, w.week)).collect();
    assert_eq!(keys, vec![(2020, 53), (2021, 1), (2021, 4), (2021, 5)]);
    assert_eq!(weeks[0].days.len(), 1);
    assert_eq!(weeks[0].days[0].date, date(2021, 1, 1));
    let days_in_weeks: usize = weeks.iter().map(|w| w.days.len()).sum();
    assert_eq!(days_in_weeks, year.day_count());
}

#[test]
fn gather_each_answers_one_for_one() {
    let store = filled();
    let periods = vec![
        Period::Year { year: 2021 },
        Period::Month { year: 2021, month: 6 },
        Period::Month { year: 2021, month: 13 },
        Period::Week { iso_year: 2020, week: 53 },
        Period::Day { date: date(2021, 1, 4) },
        Period::Day { date: date(2021, 1, 5) },
        Period::Day { date: date(2021, 2, 30) },
    ];
    let answers = store.gather_each(&periods);
    assert_eq!(answers.len(), 7);
    assert_eq!(answers[0].as_ref().unwrap().len(), 4);
    assert_eq!(answers[1].as_ref().unwrap_err(), &QueryError::NotFound);
    assert_eq!(answers[2].as_ref().unwrap_err(), &QueryError::Malformed);
    assert_eq!(answers[3].as_ref().unwrap().len(), 3);
    assert_eq!(answers[4].as_ref().unwrap().len(), 1);
    assert_eq!(answers[4].as_ref().unwrap()[0].date, date(2021, 1, 4));
    assert_eq!(answers[5].as_ref().unwrap_err(), &QueryError::NotFound);
    assert_eq!(answers[6].as_ref().unwrap_err(), &QueryError::Malformed);
}

#[test]
fn periods_of_a_date() {
    let first = date(2021, 1, 1);
    assert_eq!(Period::year_of(&first), Period::Year { year: 2021 });
    assert_eq!(Period::month_of(&first), Period::Month { year: 2021, month: 1 });
    assert_eq!(Period::week_of(&first), Some(Period::Week { iso_year: 2020, week: 53 }));
    assert_eq!(Period::week_of(&date(2021, 2, 30)), None);
    assert!(Period::Week { iso_year: 2020, week: 53 }.contains(&first));
    assert!(!Period::Week { iso_year: 2021, week: 1 }.contains(&first));
    assert!(!Period::Week { iso_year: 2021, week: 53 }.contains(&first));
    assert!(Period::Year { year: 2021 }.contains(&first));
    assert!(Period::Day { date: first }.contains(&first));
    assert!(!Period::Day { date: first }.contains(&date(2021, 1, 2)));
    assert!(Period::Week { iso_year: -1, week: 52 }.contains(&date(0, 1, 1)));
}

#[test]
fn period_goes_by_the_week_it_is_given() {
    let week = Period::Week { iso_year: 2020, week: 53 };
    let day = date(2021, 1, 1);
    let right = reti::date::IsoWeek { year: 2020, week: 53 };
    let wrong = reti::date::IsoWeek { year: 2021, week: 53 };
    assert!(week.contains_in_week(&day, Some(right)));
    assert!(!week.contains_in_week(&day, Some(wrong)));
    assert!(!week.contains_in_week(&day, None));
    assert!(Period::Year { year: 2021 }.contains_in_week(&day, None));
    assert!(!Period::Month { year: 2021, month: 2 }.contains_in_week(&day, Some(right)));
}

#[test]
fn pick_keeps_order_and_copies() {
    let store = filled();
    let picked = Period::Year { year: 2020 }.pick(store.all_days());
    let dates: Vec<Date> = picked.iter().map(|d| d.date).collect();
    assert_eq!(dates, vec![date(2020, 12, 28), date(2020, 12, 31)]);
    assert_eq!(picked[1].parts, store.get_day(2020, 12, 31).unwrap().parts);
    assert!(Period::Year { year: 2020 }.is_valid());
    assert!(!Period::Week { iso_year: 2020, week: 54 }.is_valid());
}

#[test]
fn store_from_days_in_any_order() {
    let days = vec![day("2021-01-04 09:00-17:00"), day("2020-12-28 08:00-12:00")];
    let store = Storage::from_days(1250, &days).unwrap();
    assert_eq!(store.get_fee(), 1250);
    assert_eq!(store.len(), 2);
    assert_eq!(store.day_at(0).date, date(2020, 12, 28));
    assert_eq!(store.day_at(1).as_legacy(), "2021-01-04 09:00-17:00");
    let none = Storage::from_days(0, &Vec::new()).unwrap();
    assert_eq!(none.len(), 0);
}

#[test]
fn store_from_days_refuses_what_does_not_fit() {
    let twice = vec![
        day("2021-01-04 09:00-17:00"),
        day("2020-12-28 08:00-12:00"),
        day("2021-01-04 10:00"),
    ];
    assert_eq!(
        Storage::from_days(0, &twice).unwrap_err(),
        SnapshotError::DuplicateKey { index: 2 }
    );
    let broken = vec![
        day("2021-01-04 09:00-17:00"),
        Day::with_parts(
            date(2021, 1, 5),
            vec![Part {
                start: Time { hour: 9, minute: 0 },
                stop: Some(Time { hour: 8, minute: 0 }),
                factor: None,
            }],
        ),
    ];
    assert_eq!(
        Storage::from_days(0, &broken).unwrap_err(),
        SnapshotError::InvalidDay { index: 1 }
    );
    let no_such_date = vec![Day::new(date(2021, 2, 29))];
    assert_eq!(
        Storage::from_days(0, &no_such_date).unwrap_err(),
        SnapshotError::InvalidDay { index: 0 }
    );
}

#[test]
fn edit_text_for_recorded_dates() {
    let store = filled();
    let today = date(2021, 3, 1);
    let dates = vec![date(2021, 1, 4), date(2021, 1, 5), date(2020, 12, 31)];
    assert_eq!(
        store.edit_text(&dates, today),
        "2021-01-04 09:00-17:00\n2020-12-31 08:00-16:00 12:00-12:30-0.5"
    );
    assert_eq!(store.edit_text(&vec![date(2021, 1, 4)], today), "2021-01-04 09:00-17:00");
}

#[test]
fn edit_text_falls_back_to_today() {
    let store = filled();
    let recorded = date(2021, 2, 1);
    assert_eq!(store.edit_text(&Vec::new(), recorded), "2021-02-01 09:00-10:30");
    assert_eq!(store.edit_text(&vec![date(2021, 1, 5)], recorded), "2021-02-01 09:00-10:30");
    let fresh = date(2021, 3, 1);
    let text = store.edit_text(&Vec::new(), fresh);
    assert_eq!(
        text,
        "# Lines starting with '#' will be ignored\n\
# Default date is today!\n\
# Date         Parts w/o and w/ factor (0.5)  Comment\n\
# 2016-04-25   08:00-12:00  13:00-17:00-0.5   # comment\n\
2021-03-01"
    );
}

#[test]
fn edited_text_is_merged_back() {
    let mut store = filled();
    let today = date(2021, 3, 1);
    let text = store.edit_text(&Vec::new(), today);
    let edited = format!("{} 08:00-12:00 12:00-12:30-0.5\n", text);
    let report = store.import_legacy(&edited);
    assert_eq!(report.imported, 1);
    assert!(report.failures.is_empty());
    assert_eq!(
        store.get_day(2021, 3, 1).unwrap().as_legacy(),
        "2021-03-01 08:00-12:00 12:00-12:30-0.5"
    );
    let unchanged = store.edit_text(&Vec::new(), date(2021, 3, 2));
    let report = store.import_legacy(&unchanged);
    assert_eq!(report.imported, 0);
    assert_eq!(report.failures.len(), 1);
    assert_eq!(report.failures[0].line, 5);
    assert_eq!(report.failures[0].error, ParseError::NoParts);
    assert!(store.get_day(2021, 3, 2).is_none());
}
