//! The line format of hand-written timesheets.
//!
//! ```text
//! line   := date WS part (WS part)* [WS? "#" comment]
//! date   := YYYY "-" MM "-" DD
//! part   := time "-" time ["-" factor] | time
//! time   := HH ":" MM | HHMM
//! factor := digit ["." digit{1,6}]        more than 0, at most 1
//! ```
//!
//! The grammar is stated as spec functions on sequences of characters; the
//! parsers are proved to compute exactly these.

use vstd::prelude::*;
use crate::date::{is_calendar_date, Date};
use crate::factor::{Factor, FACTOR_ONE, FACTOR_PLACES};
use crate::record::{Day, DayView, Part};
use crate::text::{
    all_digits, chars_of, decimal_value, digit_of, digit_value, find_char, first_index, is_digit,
    is_space, is_space_char, slice_of,
};
use crate::time::Time;

verus! {

/// Why a line is not a day of the timesheet.
#[derive(Clone, Copy, Debug, PartialEq, Eq, Structural)]
pub enum ParseError {
    /// The line holds no word before its comment.
    Empty,
    /// The first word is not a date.
    BadDate,
    /// Nothing follows the date.
    NoParts,
    /// The word at `index` after the date, counted from 0, is not a part.
    BadPart { index: usize },
}

/// Ten to the power of `n`.
pub open spec fn pow10(n: nat) -> nat
    decreases n,
{
    if n == 0 {
        1
    } else {
        10 * pow10((n - 1) as nat)
    }
}

/// The number written by the two digits of `s` at `i` and `i + 1`.
pub open spec fn two_digits(s: Seq<char>, i: int) -> int {
    digit_value(s[i]) * 10 + digit_value(s[i + 1])
}

/// `s` holds digits at `i` and `i + 1`.
pub open spec fn two_digits_at(s: Seq<char>, i: int) -> bool {
    is_digit(s[i]) && is_digit(s[i + 1])
}

/// The time of the given hour and minute, if the day has such a minute.
pub open spec fn time_of(hour: int, minute: int) -> Option<Time> {
    if 0 <= hour < 24 && 0 <= minute < 60 {
        Some(Time { hour: hour as u8, minute: minute as u8 })
    } else {
        None
    }
}

/// The time that `s` writes: `HH:MM` or `HHMM` with an hour below 24 and a
/// minute below 60.
pub open spec fn time_from_text(s: Seq<char>) -> Option<Time> {
    if s.len() == 5 && s[2] == ':' && two_digits_at(s, 0) && two_digits_at(s, 3) {
        time_of(two_digits(s, 0), two_digits(s, 3))
    } else if s.len() == 4 && two_digits_at(s, 0) && two_digits_at(s, 2) {
        time_of(two_digits(s, 0), two_digits(s, 2))
    } else {
        None
    }
}

/// The date that `s` writes: `YYYY-MM-DD`, every digit present, naming a day
/// that the calendar has.
pub open spec fn date_from_text(s: Seq<char>) -> Option<Date> {
    if s.len() == 10 && s[4] == '-' && s[7] == '-' && two_digits_at(s, 0) && two_digits_at(s, 2)
        && two_digits_at(s, 5) && two_digits_at(s, 8) {
        let year = two_digits(s, 0) * 100 + two_digits(s, 2);
        let month = two_digits(s, 5);
        let day = two_digits(s, 8);
        if is_calendar_date(year, month, day) {
            Some(Date { year: year as u16, month: month as u8, day: day as u8 })
        } else {
            None
        }
    } else {
        None
    }
}

/// `s` has the shape of a factor: one digit, or one digit, a point and one to
/// six digits.
pub open spec fn factor_shape(s: Seq<char>) -> bool {
    &&& s.len() >= 1
    &&& is_digit(s[0])
    &&& s.len() == 1 || (3 <= s.len() <= 2 + FACTOR_PLACES && s[1] == '.' && all_digits(s.skip(2)))
}

/// The number of millionths that a text of the shape of a factor writes.
pub open spec fn factor_millionths(s: Seq<char>) -> int {
    if s.len() == 1 {
        digit_value(s[0]) * FACTOR_ONE
    } else {
        digit_value(s[0]) * FACTOR_ONE + decimal_value(s.skip(2)) * pow10(
            (2 + FACTOR_PLACES - s.len()) as nat,
        )
    }
}

/// The factor that `s` writes: a decimal number above 0 and not above 1.
pub open spec fn factor_from_text(s: Seq<char>) -> Option<Factor> {
    if factor_shape(s) && 0 < factor_millionths(s) <= FACTOR_ONE {
        Some(Factor { millionths: factor_millionths(s) as u32 })
    } else {
        None
    }
}

/// The closed part of the given times and factor, if both times are there and
/// the stop is not before the start.
pub open spec fn closed_part(start: Option<Time>, stop: Option<Time>, factor: Option<Factor>)
    -> Option<Part> {
    match (start, stop) {
        (Some(a), Some(b)) => if a.minute_of_day() <= b.minute_of_day() {
            Some(Part { start: a, stop: Some(b), factor })
        } else {
            None
        },
        _ => None,
    }
}

/// The part that `s` writes: a start alone, `start-stop`, or
/// `start-stop-factor`.
pub open spec fn part_from_text(s: Seq<char>) -> Option<Part> {
    let i = first_index(s, '-');
    if i == s.len() {
        match time_from_text(s) {
            Some(t) => Some(Part { start: t, stop: None, factor: None }),
            None => None,
        }
    } else {
        let rest = s.skip(i + 1);
        let j = first_index(rest, '-');
        if j == rest.len() {
            closed_part(time_from_text(s.take(i)), time_from_text(rest), None)
        } else {
            match factor_from_text(rest.skip(j + 1)) {
                Some(f) => closed_part(
                    time_from_text(s.take(i)),
                    time_from_text(rest.take(j)),
                    Some(f),
                ),
                None => None,
            }
        }
    }
}

/// The line without its comment: what stands before the first `#`.
pub open spec fn strip_comment(s: Seq<char>) -> Seq<char> {
    s.take(first_index(s, '#'))
}

/// The words of `s`: its longest runs of characters that are not spaces, in
/// order.
pub open spec fn words(s: Seq<char>) -> Seq<Seq<char>>
    decreases s.len(),
{
    if s.len() == 0 {
        Seq::empty()
    } else {
        let before = words(s.drop_last());
        let c = s.last();
        if is_space(c) {
            before
        } else if s.len() >= 2 && !is_space(s[s.len() - 2]) && before.len() > 0 {
            before.drop_last().push(before.last().push(c))
        } else {
            before.push(seq![c])
        }
    }
}

/// The index of the first of `tokens` that is not a part, or their number
/// where each is one.
pub open spec fn first_bad_part(tokens: Seq<Seq<char>>) -> int
    decreases tokens.len(),
{
    if tokens.len() == 0 {
        0
    } else if part_from_text(tokens[0]) is None {
        0
    } else {
        1 + first_bad_part(tokens.drop_first())
    }
}

/// The parts that `tokens` write, one for one.
pub open spec fn parts_from_text(tokens: Seq<Seq<char>>) -> Seq<Part> {
    Seq::new(tokens.len(), |i: int| part_from_text(tokens[i]).unwrap())
}

/// The day that the line `s` writes, or why it writes none.
pub open spec fn line_from_text(s: Seq<char>) -> Result<DayView, ParseError> {
    let w = words(strip_comment(s));
    if w.len() == 0 {
        Err(ParseError::Empty)
    } else {
        match date_from_text(w[0]) {
            None => Err(ParseError::BadDate),
            Some(date) => {
                let tokens = w.skip(1);
                if tokens.len() == 0 {
                    Err(ParseError::NoParts)
                } else if first_bad_part(tokens) < tokens.len() {
                    Err(ParseError::BadPart { index: first_bad_part(tokens) as usize })
                } else {
                    Ok(DayView { date, parts: parts_from_text(tokens) })
                }
            },
        }
    }
}

/// `first_bad_part` stays within the tokens, stops at one that is no part,
/// and passes over parts only.
pub proof fn lemma_first_bad_part(tokens: Seq<Seq<char>>)
    ensures
        0 <= first_bad_part(tokens) <= tokens.len(),
        first_bad_part(tokens) < tokens.len() ==> part_from_text(
            tokens[first_bad_part(tokens)],
        ) is None,
        forall|i: int|
            0 <= i < first_bad_part(tokens) ==> part_from_text(#[trigger] tokens[i]) is Some,
    decreases tokens.len(),
{
    if tokens.len() > 0 && part_from_text(tokens[0]) is Some {
        let rest = tokens.drop_first();
        lemma_first_bad_part(rest);
        assert forall|i: int| 0 <= i < first_bad_part(tokens) implies part_from_text(
            #[trigger] tokens[i],
        ) is Some by {
            if i > 0 {
                assert(tokens[i] == rest[i - 1]);
            }
        }
    }
}

/// An index that holds no part and has only parts before it is the first bad
/// part.
pub proof fn lemma_first_bad_part_is(tokens: Seq<Seq<char>>, k: int)
    requires
        0 <= k <= tokens.len(),
        k < tokens.len() ==> part_from_text(tokens[k]) is None,
        forall|i: int| 0 <= i < k ==> part_from_text(#[trigger] tokens[i]) is Some,
    ensures
        first_bad_part(tokens) == k,
{
    lemma_first_bad_part(tokens);
}

/// The value of a digit string grows by one digit at its end.
pub proof fn lemma_decimal_value_push(s: Seq<char>, c: char)
    requires
        is_digit(c),
    ensures
        decimal_value(s.push(c)) == decimal_value(s) * 10 + digit_value(c),
{
    assert(s.push(c).drop_last() == s);
    assert(s.push(c).last() == c);
}

/// The two digits at `i`, if both are digits.
fn read_two_digits(v: &Vec<char>, i: usize) -> (r: Option<u8>)
    requires
        i + 1 < v.len(),
    ensures
        r == (if two_digits_at(v@, i as int) {
            Some(two_digits(v@, i as int) as u8)
        } else {
            None::<u8>
        }),
{
    match (digit_of(v[i]), digit_of(v[i + 1])) {
        (Some(a), Some(b)) => Some(a * 10 + b),
        _ => None,
    }
}

/// The time that the characters write.
pub fn parse_time_chars(v: &Vec<char>) -> (r: Option<Time>)
    ensures
        r == time_from_text(v@),
{
    if v.len() == 5 {
        if v[2] != ':' {
            return None;
        }
        match (read_two_digits(v, 0), read_two_digits(v, 3)) {
            (Some(h), Some(m)) => Time::new(h, m),
            _ => None,
        }
    } else if v.len() == 4 {
        match (read_two_digits(v, 0), read_two_digits(v, 2)) {
            (Some(h), Some(m)) => Time::new(h, m),
            _ => None,
        }
    } else {
        None
    }
}

/// The date that the characters write.
pub fn parse_date_chars(v: &Vec<char>) -> (r: Option<Date>)
    ensures
        r == date_from_text(v@),
        r matches Some(d) ==> d.wf(),
{
    if v.len() != 10 || v[4] != '-' || v[7] != '-' {
        return None;
    }
    match (read_two_digits(v, 0), read_two_digits(v, 2), read_two_digits(v, 5), read_two_digits(v, 8)) {
        (Some(c), Some(y), Some(m), Some(d)) => {
            let year: u16 = (c as u16) * 100 + (y as u16);
            Date::new(year, m, d)
        },
        _ => None,
    }
}

/// The factor that the characters write.
pub fn parse_factor_chars(v: &Vec<char>) -> (r: Option<Factor>)
    ensures
        r == factor_from_text(v@),
        r matches Some(f) ==> f.wf(),
{
    let n = v.len();
    if n == 0 {
        return None;
    }
    let whole = match digit_of(v[0]) {
        Some(d) => d,
        None => { return None; },
    };
    if n == 1 {
        return Factor::new((whole as u32) * FACTOR_ONE);
    }
    if n < 3 || n > 2 + FACTOR_PLACES || v[1] != '.' {
        return None;
    }
    let ghost frac = v@.skip(2);
    let mut acc: u32 = 0;
    let mut i: usize = 2;
    while i < n
        invariant
            2 <= i <= n <= 8,
            n == v.len(),
            frac == v@.skip(2),
            all_digits(frac.take(i - 2)),
            acc == decimal_value(frac.take(i - 2)),
            acc < pow10((i - 2) as nat),
            pow10((i - 2) as nat) <= 1_000_000,
        decreases n - i,
    {
        let d = match digit_of(v[i]) {
            Some(d) => d,
            None => {
                proof {
                    assert(frac[i - 2] == v@[i as int]);
                }
                return None;
            },
        };
        proof {
            let before = frac.take(i - 2);
            let after = frac.take(i - 1);
            assert(frac[i - 2] == v@[i as int]);
            assert(after == before.push(frac[i - 2]));
            lemma_decimal_value_push(before, frac[i - 2]);
            assert forall|k: int| 0 <= k < after.len() implies is_digit(#[trigger] after[k]) by {
                if k < before.len() {
                    assert(after[k] == before[k]);
                }
            }
            lemma_pow10_small();
            assert(pow10((i - 1) as nat) == 10 * pow10((i - 2) as nat));
        }
        acc = acc * 10 + d as u32;
        i = i + 1;
    }
    let mut scaled: u32 = acc;
    let mut k: usize = n - 2;
    proof {
        assert(frac.take(n - 2) == frac);
        lemma_pow10_small();
        assert(pow10((k - (n - 2)) as nat) == 1);
    }
    while k < FACTOR_PLACES
        invariant
            n - 2 <= k <= 6,
            3 <= n <= 8,
            acc < pow10((n - 2) as nat),
            scaled == acc * pow10((k - (n - 2)) as nat),
            scaled < pow10(k as nat),
        decreases 6 - k,
    {
        proof {
            lemma_pow10_small();
            let e = (k - (n - 2)) as nat;
            assert(pow10(e + 1) == 10 * pow10(e));
            assert(acc * (10 * pow10(e)) == (acc * pow10(e)) * 10) by (nonlinear_arith);
            assert(pow10((k + 1) as nat) == 10 * pow10(k as nat));
        }
        scaled = scaled * 10;
        k = k + 1;
    }
    proof {
        lemma_pow10_small();
    }
    let total: u32 = (whole as u32) * FACTOR_ONE + scaled;
    Factor::new(total)
}

/// The powers of ten up to the millionth.
pub proof fn lemma_pow10_small()
    ensures
        pow10(0) == 1,
        pow10(1) == 10,
        pow10(2) == 100,
        pow10(3) == 1_000,
        pow10(4) == 10_000,
        pow10(5) == 100_000,
        pow10(6) == 1_000_000,
{
    reveal_with_fuel(pow10, 8);
}

/// The part of the given times and factor, as `closed_part` has it.
fn make_closed_part(start: Option<Time>, stop: Option<Time>, factor: Option<Factor>) -> (r: Option<
    Part,
>)
    ensures
        r == closed_part(start, stop, factor),
{
    match (start, stop) {
        (Some(a), Some(b)) => if a.minutes() <= b.minutes() {
            Some(Part { start: a, stop: Some(b), factor })
        } else {
            None
        },
        _ => None,
    }
}

/// The part that the characters write.
pub fn parse_part_chars(v: &Vec<char>) -> (r: Option<Part>)
    ensures
        r == part_from_text(v@),
{
    let n = v.len();
    let i = find_char(v, 0, '-');
    proof {
        assert(v@.skip(0) == v@);
    }
    if i == n {
        return match parse_time_chars(v) {
            Some(t) => Some(Part { start: t, stop: None, factor: None }),
            None => None,
        };
    }
    let start_text = slice_of(v, 0, i);
    let j = find_char(v, i + 1, '-');
    let stop_text = slice_of(v, i + 1, j);
    proof {
        let rest = v@.skip(i + 1);
        assert(start_text@ == v@.take(i as int));
        assert(stop_text@ == rest.take(j - (i + 1)));
        assert(j == n ==> rest.take(j - (i + 1)) == rest);
    }
    let start = parse_time_chars(&start_text);
    let stop = parse_time_chars(&stop_text);
    if j == n {
        make_closed_part(start, stop, None)
    } else {
        let factor_text = slice_of(v, j + 1, n);
        proof {
            let rest = v@.skip(i + 1);
            assert(factor_text@ == rest.skip(j - (i + 1) + 1));
        }
        match parse_factor_chars(&factor_text) {
            Some(f) => make_closed_part(start, stop, Some(f)),
            None => None,
        }
    }
}

/// The character sequences that the vectors of `ws` hold.
pub open spec fn word_views(ws: Seq<Vec<char>>) -> Seq<Seq<char>> {
    Seq::new(ws.len(), |i: int| ws[i]@)
}

/// The words among the first `end` characters of `v`.
pub fn split_words(v: &Vec<char>, end: usize) -> (r: Vec<Vec<char>>)
    requires
        end <= v.len(),
    ensures
        word_views(r@) == words(v@.take(end as int)),
{
    let mut done: Vec<Vec<char>> = Vec::new();
    let mut cur: Vec<char> = Vec::new();
    let mut i: usize = 0;
    proof {
        assert(word_views(done@) == Seq::<Seq<char>>::empty());
    }
    while i < end
        invariant
            i <= end <= v.len(),
            cur@.len() == 0 ==> word_views(done@) == words(v@.take(i as int)) && (i == 0
                || is_space(v@[i - 1])),
            cur@.len() > 0 ==> word_views(done@).push(cur@) == words(v@.take(i as int)) && i > 0
                && !is_space(v@[i - 1]),
        decreases end - i,
    {
        let c = v[i];
        let ghost before = words(v@.take(i as int));
        let ghost views = word_views(done@);
        let ghost word = cur@;
        proof {
            let s = v@.take(i as int + 1);
            assert(s.drop_last() == v@.take(i as int));
            assert(s.last() == c);
            if i > 0 {
                assert(s[s.len() - 2] == v@[i - 1]);
            }
        }
        if is_space_char(c) {
            if cur.len() > 0 {
                done.push(cur);
                cur = Vec::new();
                proof {
                    assert(word_views(done@) == views.push(word));
                }
            }
        } else {
            cur.push(c);
            proof {
                let after = words(v@.take(i as int + 1));
                if word.len() > 0 {
                    assert(before.drop_last() == views);
                    assert(before.last() == word);
                    assert(after == views.push(word.push(c)));
                } else {
                    assert(cur@ == seq![c]);
                    assert(after == views.push(seq![c]));
                }
            }
        }
        i = i + 1;
    }
    if cur.len() > 0 {
        let ghost views = word_views(done@);
        let ghost word = cur@;
        done.push(cur);
        proof {
            assert(word_views(done@) == views.push(word));
        }
    }
    done
}

/// The day that the characters of a line write, or why they write none.
pub fn parse_line_chars(v: &Vec<char>) -> (r: Result<Day, ParseError>)
    ensures
        match r {
            Ok(day) => line_from_text(v@) == Ok::<DayView, ParseError>(day@) && day.wf(),
            Err(e) => line_from_text(v@) == Err::<DayView, ParseError>(e),
        },
{
    let end = find_char(v, 0, '#');
    proof {
        assert(v@.skip(0) == v@);
    }
    let ws = split_words(v, end);
    let ghost w = words(strip_comment(v@));
    assert(word_views(ws@) == w);
    if ws.len() == 0 {
        return Err(ParseError::Empty);
    }
    assert(w[0] == ws@[0]@);
    let date = match parse_date_chars(&ws[0]) {
        Some(d) => d,
        None => { return Err(ParseError::BadDate); },
    };
    if ws.len() == 1 {
        return Err(ParseError::NoParts);
    }
    let ghost tokens = w.skip(1);
    let mut parts: Vec<Part> = Vec::new();
    let mut i: usize = 1;
    while i < ws.len()
        invariant
            1 <= i <= ws.len(),
            word_views(ws@) == w,
            w == words(strip_comment(v@)),
            date_from_text(w[0]) == Some(date),
            tokens == w.skip(1),
            parts@.len() == i - 1,
            forall|k: int|
                0 <= k < i - 1 ==> part_from_text(#[trigger] tokens[k]) == Some(parts@[k]),
        decreases ws.len() - i,
    {
        assert(tokens[i - 1] == ws@[i as int]@) by {
            assert(w[i as int] == ws@[i as int]@);
        }
        match parse_part_chars(&ws[i]) {
            Some(p) => {
                parts.push(p);
            },
            None => {
                proof {
                    lemma_first_bad_part_is(tokens, i - 1);
                }
                return Err(ParseError::BadPart { index: i - 1 });
            },
        }
        i = i + 1;
    }
    proof {
        lemma_first_bad_part_is(tokens, tokens.len() as int);
        assert(parts@ == parts_from_text(tokens));
        assert forall|k: int| 0 <= k < parts@.len() implies (#[trigger] parts@[k]).wf() by {
            lemma_part_from_text_wf(tokens[k]);
        }
    }
    Ok(Day::with_parts(date, parts))
}

/// Every part that a text writes is well formed.
pub proof fn lemma_part_from_text_wf(s: Seq<char>)
    ensures
        part_from_text(s) matches Some(p) ==> p.wf(),
{
}

/// The time that `s` writes: `HH:MM` or `HHMM`, the hour below 24 and the
/// minute below 60. Anything else is no time.
pub fn parse_time(s: &str) -> (r: Option<Time>)
    ensures
        r == time_from_text(s@),
        r matches Some(t) ==> t.wf(),
{
    let v = chars_of(s);
    parse_time_chars(&v)
}

/// The date that `s` writes: `YYYY-MM-DD` with every digit present, naming a
/// day of the calendar. Anything else is no date.
pub fn parse_date(s: &str) -> (r: Option<Date>)
    ensures
        r == date_from_text(s@),
        r matches Some(d) ==> d.wf(),
{
    let v = chars_of(s);
    parse_date_chars(&v)
}

/// The factor that `s` writes: a decimal number above 0 and at most 1, with
/// at most six places after the point.
pub fn parse_factor(s: &str) -> (r: Option<Factor>)
    ensures
        r == factor_from_text(s@),
        r matches Some(f) ==> f.wf(),
{
    let v = chars_of(s);
    parse_factor_chars(&v)
}

/// The part that `s` writes: `start`, `start-stop` or `start-stop-factor`,
/// the stop not before the start.
pub fn parse_part(s: &str) -> (r: Option<Part>)
    ensures
        r == part_from_text(s@),
        r matches Some(p) ==> p.wf(),
{
    let v = chars_of(s);
    proof {
        lemma_part_from_text_wf(v@);
    }
    parse_part_chars(&v)
}

/// The day that the line `s` writes. The words before the first `#` are read:
/// the first is the date, each of the others one part, in order. One word
/// that cannot be read fails the whole line.
pub fn parse_line(s: &str) -> (r: Result<Day, ParseError>)
    ensures
        match r {
            Ok(day) => line_from_text(s@) == Ok::<DayView, ParseError>(day@) && day.wf(),
            Err(e) => line_from_text(s@) == Err::<DayView, ParseError>(e),
        },
{
    let v = chars_of(s);
    parse_line_chars(&v)
}

/// The part that begins at the time that `start` writes and, where `stop`
/// writes a time too, ends at that one. Without a start there is no part; a
/// stop that cannot be read leaves the part open.
pub fn part_from_times(start: &str, stop: Option<&str>) -> (r: Option<Part>)
    ensures
        r == (match time_from_text(start@) {
            Some(a) => Some(
                Part {
                    start: a,
                    stop: match stop {
                        Some(text) => time_from_text(text@),
                        None => None,
                    },
                    factor: None,
                },
            ),
            None => None,
        }),
{
    match parse_time(start) {
        Some(a) => {
            let b = match stop {
                Some(text) => parse_time(text),
                None => None,
            };
            Some(Part { start: a, stop: b, factor: None })
        },
        None => None,
    }
}

/// The dates that `texts` write, in order; a text that writes none is left
/// out.
pub open spec fn dates_from_texts(texts: Seq<Seq<char>>) -> Seq<Date>
    decreases texts.len(),
{
    if texts.len() == 0 {
        Seq::empty()
    } else {
        let before = dates_from_texts(texts.drop_last());
        match date_from_text(texts.last()) {
            Some(d) => before.push(d),
            None => before,
        }
    }
}

/// The character sequences of `texts`, one for one.
pub open spec fn string_views(texts: Seq<String>) -> Seq<Seq<char>> {
    Seq::new(texts.len(), |i: int| texts[i]@)
}

/// The dates among `texts`, in order. What is not a date is left out.
pub fn parse_dates(texts: &Vec<String>) -> (r: Vec<Date>)
    ensures
        r@ == dates_from_texts(string_views(texts@)),
        forall|i: int| 0 <= i < r@.len() ==> (#[trigger] r@[i]).wf(),
{
    let ghost all = string_views(texts@);
    let mut out: Vec<Date> = Vec::new();
    let mut i: usize = 0;
    while i < texts.len()
        invariant
            i <= texts.len(),
            all == string_views(texts@),
            out@ == dates_from_texts(all.take(i as int)),
            forall|k: int| 0 <= k < out@.len() ==> (#[trigger] out@[k]).wf(),
        decreases texts.len() - i,
    {
        proof {
            let next = all.take(i as int + 1);
            assert(next.drop_last() =~= all.take(i as int));
            assert(next.last() == texts@[i as int]@);
        }
        match parse_date(texts[i].as_str()) {
            Some(d) => {
                out.push(d);
            },
            None => {},
        }
        i = i + 1;
    }
    proof {
        assert(all.take(i as int) =~= all);
    }
    out
}

} // verus!
