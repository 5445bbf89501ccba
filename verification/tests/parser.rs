use reti::date::Date;
use reti::factor::Factor;
use reti::legacy_parser::{
    parse_date, parse_factor, parse_line, parse_part, parse_time, ParseError,
};
use reti::record::Part;
use reti::time::Time;

fn time(hour: u8, minute: u8) -> Time {
    Time { hour, minute }
}

#[test]
fn time_with_and_without_colon() {
    assert_eq!(parse_time("08:00"), Some(time(8, 0)));
    assert_eq!(parse_time("0800"), Some(time(8, 0)));
    assert_eq!(parse_time("23:59"), parse_time("2359"));
    assert_eq!(parse_time("00:00"), Some(time(0, 0)));
}

#[test]
fn every_time_reads_the_same_in_both_forms() {
    for hour in 0..24u8 {
        for minute in 0..60u8 {
            let with_colon = format!("{:02}:{:02}", hour, minute);
            let without = format!("{:02}{:02}", hour, minute);
            assert_eq!(parse_time(&with_colon), Some(time(hour, minute)));
            assert_eq!(parse_time(&with_colon), parse_time(&without));
        }
    }
}

#[test]
fn time_out_of_range_or_malformed_is_refused() {
    assert_eq!(parse_time("25:61"), None);
    assert_eq!(parse_time("24:00"), None);
    assert_eq!(parse_time("23:60"), None);
    assert_eq!(parse_time("8:0"), None);
    assert_eq!(parse_time("800"), None);
    assert_eq!(parse_time("08-00"), None);
    assert_eq!(parse_time("08.00"), None);
    assert_eq!(parse_time("08:0a"), None);
    assert_eq!(parse_time(""), None);
    assert_eq!(parse_time("008:00"), None);
    assert_eq!(parse_time("0８:00"), None);
}

#[test]
fn date_in_the_one_form() {
    assert_eq!(parse_date("2016-04-25"), Some(Date { year: 2016, month: 4, day: 25 }));
    assert_eq!(parse_date("0000-01-01"), Some(Date { year: 0, month: 1, day: 1 }));
    assert_eq!(parse_date("9999-12-31"), Some(Date { year: 9999, month: 12, day: 31 }));
}

#[test]
fn date_of_another_shape_is_refused() {
    assert_eq!(parse_date("16-04-25"), None);
    assert_eq!(parse_date("2016-4-25"), None);
    assert_eq!(parse_date("2016-04-5"), None);
    assert_eq!(parse_date("2016/04/25"), None);
    assert_eq!(parse_date("20160425"), None);
    assert_eq!(parse_date("2016-04-25 "), None);
    assert_eq!(parse_date(""), None);
}

#[test]
fn date_that_the_calendar_lacks_is_refused() {
    assert_eq!(parse_date("2016-13-01"), None);
    assert_eq!(parse_date("2016-00-10"), None);
    assert_eq!(parse_date("2016-04-31"), None);
    assert_eq!(parse_date("2016-04-00"), None);
    assert_eq!(parse_date("2015-02-29"), None);
    assert_eq!(parse_date("1900-02-29"), None);
    assert_eq!(parse_date("2016-02-29"), Some(Date { year: 2016, month: 2, day: 29 }));
    assert_eq!(parse_date("2000-02-29"), Some(Date { year: 2000, month: 2, day: 29 }));
}

#[test]
fn factor_is_a_decimal_above_zero_up_to_one() {
    assert_eq!(parse_factor("0.5"), Some(Factor { millionths: 500_000 }));
    assert_eq!(parse_factor("0.25"), Some(Factor { millionths: 250_000 }));
    assert_eq!(parse_factor("1"), Some(Factor { millionths: 1_000_000 }));
    assert_eq!(parse_factor("1.0"), Some(Factor { millionths: 1_000_000 }));
    assert_eq!(parse_factor("0.000001"), Some(Factor { millionths: 1 }));
    assert_eq!(parse_factor("0.50"), parse_factor("0.5"));
}

#[test]
fn factor_out_of_range_or_malformed_is_refused() {
    assert_eq!(parse_factor("0"), None);
    assert_eq!(parse_factor("0.0"), None);
    assert_eq!(parse_factor("1.5"), None);
    assert_eq!(parse_factor("1.000001"), None);
    assert_eq!(parse_factor("2"), None);
    assert_eq!(parse_factor(".5"), None);
    assert_eq!(parse_factor("0."), None);
    assert_eq!(parse_factor("0,5"), None);
    assert_eq!(parse_factor("0.5x"), None);
    assert_eq!(parse_factor("0.0000001"), None);
    assert_eq!(parse_factor(""), None);
}

#[test]
fn part_in_its_three_forms() {
    assert_eq!(
        parse_part("08:00"),
        Some(Part { start: time(8, 0), stop: None, factor: None })
    );
    assert_eq!(
        parse_part("08:00-12:00"),
        Some(Part { start: time(8, 0), stop: Some(time(12, 0)), factor: None })
    );
    assert_eq!(
        parse_part("1300-1700-0.5"),
        Some(Part {
            start: time(13, 0),
            stop: Some(time(17, 0)),
            factor: Some(Factor { millionths: 500_000 }),
        })
    );
    assert_eq!(
        parse_part("08:00-08:00"),
        Some(Part { start: time(8, 0), stop: Some(time(8, 0)), factor: None })
    );
}

#[test]
fn part_that_cannot_be_split_is_refused() {
    assert_eq!(parse_part("08:00-"), None);
    assert_eq!(parse_part("-08:00"), None);
    assert_eq!(parse_part("08:00-12:00-"), None);
    assert_eq!(parse_part("08:00-12:00-0.5-1"), None);
    assert_eq!(parse_part("08:00-12:00-2"), None);
    assert_eq!(parse_part("12:00-08:00"), None);
    assert_eq!(parse_part("08:00--12:00"), None);
    assert_eq!(parse_part("eight"), None);
}

#[test]
fn line_from_the_example() {
    let day = parse_line("2016-04-25 08:00-12:00 13:00-17:00-0.5").unwrap();
    assert_eq!(day.date, Date { year: 2016, month: 4, day: 25 });
    assert_eq!(
        day.parts,
        vec![
            Part { start: time(8, 0), stop: Some(time(12, 0)), factor: None },
            Part {
                start: time(13, 0),
                stop: Some(time(17, 0)),
                factor: Some(Factor { millionths: 500_000 }),
            },
        ]
    );
    assert_eq!(day.worked_duration().whole_minutes(), 240);
    assert_eq!(day.worked_duration().whole_hours(), 4);
    assert_eq!(day.credited_break_duration().whole_hours(), 2);
    assert_eq!(day.credited_break_duration().units, 120 * 1_000_000);
}

#[test]
fn line_with_wide_spaces_and_a_comment() {
    let day = parse_line("2016-04-25   08:00-12:00  13:00-17:00-0.5   # comment").unwrap();
    assert_eq!(day.parts.len(), 2);
    let close = parse_line("2016-04-25\t0800-1200#13:00-14:00").unwrap();
    assert_eq!(close.parts.len(), 1);
    let led = parse_line("  2016-04-25 08:00").unwrap();
    assert_eq!(led.parts, vec![Part { start: time(8, 0), stop: None, factor: None }]);
}

#[test]
fn line_failures_name_their_reason() {
    assert_eq!(parse_line("").unwrap_err(), ParseError::Empty);
    assert_eq!(parse_line("   ").unwrap_err(), ParseError::Empty);
    assert_eq!(parse_line("# 2016-04-25 08:00").unwrap_err(), ParseError::Empty);
    assert_eq!(parse_line("   # note").unwrap_err(), ParseError::Empty);
    assert_eq!(parse_line("16-04-25 08:00").unwrap_err(), ParseError::BadDate);
    assert_eq!(parse_line("08:00 2016-04-25").unwrap_err(), ParseError::BadDate);
    assert_eq!(parse_line("2016-04-25").unwrap_err(), ParseError::NoParts);
    assert_eq!(parse_line("2016-04-25 # 08:00").unwrap_err(), ParseError::NoParts);
    assert_eq!(
        parse_line("2016-04-25 25:00-26:00").unwrap_err(),
        ParseError::BadPart { index: 0 }
    );
    assert_eq!(
        parse_line("2016-04-25 08:00-12:00 13:00-1700-x 18:00").unwrap_err(),
        ParseError::BadPart { index: 1 }
    );
}
