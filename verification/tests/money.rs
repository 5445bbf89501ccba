use reti::date::Date;
use reti::fee::{parse_fee, write_fee};
use reti::legacy_parser::{parse_dates, part_from_times};
use reti::record::Part;
use reti::report::ShowOptions;
use reti::text::{chars_of, digit_char, digit_of, find_char, slice_of, string_of};
use reti::time::{Duration, Time};

#[test]
fn fee_is_read_in_hundredths() {
    assert_eq!(parse_fee("12.5"), Some(1250));
    assert_eq!(parse_fee("12.50"), Some(1250));
    assert_eq!(parse_fee("12"), Some(1200));
    assert_eq!(parse_fee("0"), Some(0));
    assert_eq!(parse_fee("0.07"), Some(7));
    assert_eq!(parse_fee("007.10"), Some(710));
    assert_eq!(parse_fee("9999999.99"), Some(999_999_999));
}

#[test]
fn fee_of_another_shape_is_refused() {
    assert_eq!(parse_fee(""), None);
    assert_eq!(parse_fee("."), None);
    assert_eq!(parse_fee(".5"), None);
    assert_eq!(parse_fee("12."), None);
    assert_eq!(parse_fee("12.505"), None);
    assert_eq!(parse_fee("12,50"), None);
    assert_eq!(parse_fee("-1"), None);
    assert_eq!(parse_fee("1e3"), None);
    assert_eq!(parse_fee("12345678"), None);
    assert_eq!(parse_fee("1.2.3"), None);
    assert_eq!(parse_fee("12.5 "), None);
}

#[test]
fn fee_is_written_with_two_places() {
    assert_eq!(write_fee(1250), "12.50");
    assert_eq!(write_fee(0), "0.00");
    assert_eq!(write_fee(7), "0.07");
    assert_eq!(write_fee(100), "1.00");
    assert_eq!(write_fee(999_999_999), "9999999.99");
    assert_eq!(write_fee(u32::MAX), "42949672.95");
    for fee in [0u32, 1, 99, 100, 101, 1250, 123_456, 999_999_999] {
        assert_eq!(parse_fee(&write_fee(fee)), Some(fee));
    }
}

#[test]
fn value_of_a_duration() {
    let four_hours = Duration::from_minutes(240);
    assert_eq!(four_hours.value_at(1250), Some(5000));
    assert_eq!(Duration::from_minutes(90).value_at(1000), Some(1500));
    assert_eq!(Duration::from_minutes(1).value_at(100), Some(1));
    assert_eq!(Duration::from_minutes(1).value_at(59), Some(0));
    assert_eq!(Duration::zero().value_at(u32::MAX), Some(0));
    assert_eq!(Duration { units: u128::MAX }.value_at(2), None);
    assert_eq!(Duration { units: u128::MAX }.value_at(1), Some(u128::MAX / 60_000_000));
}

#[test]
fn report_shows_work_unless_only_breaks_are_asked_for() {
    assert!(ShowOptions::new(false, false, false, false, false).worked);
    assert!(ShowOptions::new(false, true, true, false, false).worked);
    assert!(!ShowOptions::new(false, false, true, false, false).worked);
    let all = ShowOptions::new(true, true, true, true, true);
    assert_eq!(
        all,
        ShowOptions { days: true, worked: true, breaks: true, verbose: true, parts: true }
    );
    let only_breaks = ShowOptions::new(true, false, true, false, true);
    assert_eq!(
        only_breaks,
        ShowOptions { days: true, worked: false, breaks: true, verbose: false, parts: true }
    );
}

#[test]
fn dates_among_other_words() {
    let texts: Vec<String> =
        ["2016-04-25", "today", "2016-4-26", "2016-02-30", "2016-04-27"].iter().map(|s| s.to_string()).collect();
    assert_eq!(
        parse_dates(&texts),
        vec![Date { year: 2016, month: 4, day: 25 }, Date { year: 2016, month: 4, day: 27 }]
    );
    assert_eq!(parse_dates(&Vec::new()), Vec::new());
}

#[test]
fn part_from_a_start_and_maybe_a_stop() {
    let eight = Time { hour: 8, minute: 0 };
    let noon = Time { hour: 12, minute: 0 };
    assert_eq!(
        part_from_times("08:00", None),
        Some(Part { start: eight, stop: None, factor: None })
    );
    assert_eq!(
        part_from_times("0800", Some("12:00")),
        Some(Part { start: eight, stop: Some(noon), factor: None })
    );
    assert_eq!(
        part_from_times("08:00", Some("noon")),
        Some(Part { start: eight, stop: None, factor: None })
    );
    assert_eq!(part_from_times("8", Some("12:00")), None);
    let backwards = part_from_times("12:00", Some("08:00")).unwrap();
    assert!(!backwards.is_valid());
}

#[test]
fn characters_to_and_fro() {
    let v = chars_of("a-ü-c");
    assert_eq!(v, vec!['a', '-', 'ü', '-', 'c']);
    assert_eq!(string_of(&v), "a-ü-c");
    assert_eq!(find_char(&v, 0, '-'), 1);
    assert_eq!(find_char(&v, 2, '-'), 3);
    assert_eq!(find_char(&v, 4, '-'), 5);
    assert_eq!(slice_of(&v, 2, 4), vec!['ü', '-']);
    assert_eq!(digit_of('7'), Some(7));
    assert_eq!(digit_of('x'), None);
    assert_eq!(digit_of('٣'), None);
    assert_eq!(digit_char(9), '9');
}
