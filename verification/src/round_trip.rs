//! What is written can be read back: the parser undoes the writer.

use vstd::prelude::*;
use crate::date::Date;
use crate::factor::{Factor, FACTOR_ONE};
use crate::import::import_line;
use crate::legacy_parser::{
    date_from_text, factor_from_text, factor_millionths, factor_shape, lemma_first_bad_part,
    lemma_first_bad_part_is, lemma_part_from_text_wf, lemma_pow10_small, line_from_text,
    part_from_text, parts_from_text, pow10, strip_comment, time_from_text, words, ParseError,
};
use crate::legacy_writer::{
    date_text, day_text, digit_text, factor_text, part_text, six_digit_text, time_text,
    trim_zeros, two_digit_text,
};
use crate::record::{DayView, Part};
use crate::text::{
    all_digits, decimal_value, digit_value, is_digit, is_space, lemma_first_index_is,
};
use crate::time::Time;

verus! {

/// The characters that the writer uses within a word.
pub open spec fn is_word_char(c: char) -> bool {
    is_digit(c) || c == ':' || c == '-' || c == '.'
}

/// A word of the writer: not empty, made of its characters.
pub open spec fn is_word(s: Seq<char>) -> bool {
    s.len() > 0 && forall|i: int| 0 <= i < s.len() ==> is_word_char(#[trigger] s[i])
}

/// The character of a digit is a digit and stands for it.
pub proof fn lemma_digit_text(d: int)
    requires
        0 <= d < 10,
    ensures
        is_digit(digit_text(d)),
        digit_value(digit_text(d)) == d,
{
}

/// A time that is written is read back.
pub proof fn lemma_time_round_trip(t: Time)
    requires
        t.wf(),
    ensures
        time_from_text(time_text(t)) == Some(t),
        time_text(t).len() == 5,
        forall|i: int| 0 <= i < 5 ==> (#[trigger] time_text(t)[i]) != '-' && is_word_char(time_text(t)[i]),
{
    let s = time_text(t);
    let h = t.hour as int;
    let m = t.minute as int;
    lemma_digit_text(h / 10);
    lemma_digit_text(h % 10);
    lemma_digit_text(m / 10);
    lemma_digit_text(m % 10);
    assert(s =~= seq![
        digit_text(h / 10),
        digit_text(h % 10),
        ':',
        digit_text(m / 10),
        digit_text(m % 10),
    ]);
}

/// A date that is written is read back.
pub proof fn lemma_date_round_trip(d: Date)
    requires
        d.wf(),
    ensures
        date_from_text(date_text(d)) == Some(d),
        is_word(date_text(d)),
{
    let s = date_text(d);
    let c = d.year as int / 100;
    let y = d.year as int % 100;
    let m = d.month as int;
    let n = d.day as int;
    lemma_digit_text(c / 10);
    lemma_digit_text(c % 10);
    lemma_digit_text(y / 10);
    lemma_digit_text(y % 10);
    lemma_digit_text(m / 10);
    lemma_digit_text(m % 10);
    lemma_digit_text(n / 10);
    lemma_digit_text(n % 10);
    assert(s =~= seq![
        digit_text(c / 10),
        digit_text(c % 10),
        digit_text(y / 10),
        digit_text(y % 10),
        '-',
        digit_text(m / 10),
        digit_text(m % 10),
        '-',
        digit_text(n / 10),
        digit_text(n % 10),
    ]);
}

/// Zeros at the end of a digit string add nothing to what it means as a
/// fraction of `places` places.
pub proof fn lemma_trim_zeros(s: Seq<char>, places: nat)
    requires
        all_digits(s),
        s.len() <= places,
    ensures
        all_digits(trim_zeros(s)),
        trim_zeros(s).len() <= s.len(),
        decimal_value(trim_zeros(s)) * pow10((places - trim_zeros(s).len()) as nat)
            == decimal_value(s) * pow10((places - s.len()) as nat),
    decreases s.len(),
{
    if s.len() > 0 && s.last() == '0' {
        let init = s.drop_last();
        assert forall|i: int| 0 <= i < init.len() implies is_digit(#[trigger] init[i]) by {
            assert(init[i] == s[i]);
        }
        lemma_trim_zeros(init, places);
        let e = (places - s.len()) as nat;
        assert(pow10((places - init.len()) as nat) == 10 * pow10(e));
        assert(decimal_value(s) == decimal_value(init) * 10);
        assert(decimal_value(init) * (10 * pow10(e)) == (decimal_value(init) * 10) * pow10(e))
            by (nonlinear_arith);
    }
}

/// Six digits mean the number they were written for.
pub proof fn lemma_six_digits(m: int)
    requires
        0 <= m < 1_000_000,
    ensures
        all_digits(six_digit_text(m)),
        six_digit_text(m).len() == 6,
        decimal_value(six_digit_text(m)) == m,
{
    let s = six_digit_text(m);
    lemma_digit_text(m / 100_000 % 10);
    lemma_digit_text(m / 10_000 % 10);
    lemma_digit_text(m / 1_000 % 10);
    lemma_digit_text(m / 100 % 10);
    lemma_digit_text(m / 10 % 10);
    lemma_digit_text(m % 10);
    let s5 = s.drop_last();
    let s4 = s5.drop_last();
    let s3 = s4.drop_last();
    let s2 = s3.drop_last();
    let s1 = s2.drop_last();
    let s0 = s1.drop_last();
    assert(s0.len() == 0);
    assert(decimal_value(s0) == 0);
    assert(decimal_value(s1) == m / 100_000 % 10);
    assert(decimal_value(s2) == m / 10_000 % 100);
    assert(decimal_value(s3) == m / 1_000 % 1_000);
    assert(decimal_value(s4) == m / 100 % 10_000);
    assert(decimal_value(s5) == m / 10 % 100_000);
    assert(decimal_value(s) == m);
}

/// A factor that is written is read back.
pub proof fn lemma_factor_round_trip(f: Factor)
    requires
        f.wf(),
    ensures
        factor_from_text(factor_text(f)) == Some(f),
        is_word(factor_text(f)),
        forall|i: int| 0 <= i < factor_text(f).len() ==> (#[trigger] factor_text(f)[i]) != '-',
{
    let s = factor_text(f);
    lemma_digit_text(0);
    lemma_digit_text(1);
    lemma_pow10_small();
    if f.millionths == FACTOR_ONE {
        assert(s.len() == 1 && s[0] == '1');
        assert(digit_text(1) == '1');
    } else {
        let m = f.millionths as int;
        let six = six_digit_text(m);
        let frac = trim_zeros(six);
        lemma_six_digits(m);
        lemma_trim_zeros(six, 6);
        assert(digit_text(0) == '0');
        assert(s.skip(2) =~= frac);
        assert(s[0] == '0' && s[1] == '.');
        let one = pow10((6nat - six.len()) as nat);
        assert(one == 1);
        assert(decimal_value(six) * one == m) by (nonlinear_arith)
            requires
                one == 1,
                decimal_value(six) == m,
        ;
        assert(decimal_value(frac) * pow10((6nat - frac.len()) as nat) == m);
        if frac.len() == 0 {
            assert(decimal_value(frac) == 0);
            assert(decimal_value(frac) * pow10(6) == 0);
        }
        assert(factor_shape(s));
        assert(factor_millionths(s) == m);
        assert forall|i: int| 0 <= i < s.len() implies (#[trigger] s[i]) != '-' && is_word_char(
            s[i],
        ) by {
            if i >= 2 {
                assert(s[i] == frac[i - 2]);
            }
        }
    }
}

/// A time as `HHMM`.
pub open spec fn compact_time_text(t: Time) -> Seq<char> {
    two_digit_text(t.hour as int) + two_digit_text(t.minute as int)
}

/// A time reads the same with and without its colon.
pub proof fn lemma_time_colon_optional(h1: char, h2: char, m1: char, m2: char)
    ensures
        time_from_text(seq![h1, h2, ':', m1, m2]) == time_from_text(seq![h1, h2, m1, m2]),
{
}

/// A digit is the character of the number it stands for.
pub proof fn lemma_digit_is_its_text(c: char)
    requires
        is_digit(c),
    ensures
        digit_text(digit_value(c)) == c,
{
}

/// A text is read as a time exactly when it is `HH:MM` or `HHMM` for an hour
/// below 24 and a minute below 60. So a text of another length, one with
/// anything but a colon between hour and minute, one with a digit missing,
/// an hour of 24 or more and a minute of 60 or more are all refused.
pub proof fn lemma_time_texts(s: Seq<char>, t: Time)
    ensures
        time_from_text(s) == Some(t) <==> t.wf() && (s == time_text(t) || s == compact_time_text(
            t,
        )),
        time_from_text(s) is Some ==> s.len() == 4 || s.len() == 5,
        s.len() == 5 && s[2] != ':' ==> time_from_text(s) is None,
{
    let h = t.hour as int;
    let m = t.minute as int;
    if t.wf() {
        lemma_time_round_trip(t);
        lemma_digit_text(h / 10);
        lemma_digit_text(h % 10);
        lemma_digit_text(m / 10);
        lemma_digit_text(m % 10);
        let c = compact_time_text(t);
        assert(c =~= seq![
            digit_text(h / 10),
            digit_text(h % 10),
            digit_text(m / 10),
            digit_text(m % 10),
        ]);
        assert(time_from_text(c) == Some(t));
    }
    if time_from_text(s) == Some(t) {
        if s.len() == 5 {
            lemma_digit_is_its_text(s[0]);
            lemma_digit_is_its_text(s[1]);
            lemma_digit_is_its_text(s[3]);
            lemma_digit_is_its_text(s[4]);
            assert(s =~= time_text(t));
        } else {
            lemma_digit_is_its_text(s[0]);
            lemma_digit_is_its_text(s[1]);
            lemma_digit_is_its_text(s[2]);
            lemma_digit_is_its_text(s[3]);
            assert(s =~= compact_time_text(t));
        }
    }
}

/// A part that is written is read back.
pub proof fn lemma_part_round_trip(p: Part)
    requires
        p.wf(),
    ensures
        part_from_text(part_text(p)) == Some(p),
        is_word(part_text(p)),
{
    let s = part_text(p);
    let a = time_text(p.start);
    lemma_time_round_trip(p.start);
    match p.stop {
        None => {
            assert(s == a);
            lemma_first_index_is(s, '-', 5);
        },
        Some(stop) => {
            let b = time_text(stop);
            lemma_time_round_trip(stop);
            match p.factor {
                None => {
                    assert(s =~= a + seq!['-'] + b);
                    assert forall|i: int| 0 <= i < 5 implies s[i] != '-' by {
                        assert(s[i] == a[i]);
                    }
                    lemma_first_index_is(s, '-', 5);
                    let rest = s.skip(6);
                    assert(rest =~= b);
                    assert(s.take(5) =~= a);
                    lemma_first_index_is(rest, '-', 5);
                    assert forall|i: int| 0 <= i < s.len() implies is_word_char(
                        #[trigger] s[i],
                    ) by {
                        if i < 5 {
                            assert(s[i] == a[i]);
                        } else if i > 5 {
                            assert(s[i] == b[i - 6]);
                        }
                    }
                },
                Some(f) => {
                    let c = factor_text(f);
                    lemma_factor_round_trip(f);
                    assert(s =~= a + seq!['-'] + b + seq!['-'] + c);
                    assert forall|i: int| 0 <= i < 5 implies s[i] != '-' by {
                        assert(s[i] == a[i]);
                    }
                    lemma_first_index_is(s, '-', 5);
                    let rest = s.skip(6);
                    assert(rest =~= b + seq!['-'] + c);
                    assert(s.take(5) =~= a);
                    assert forall|i: int| 0 <= i < 5 implies rest[i] != '-' by {
                        assert(rest[i] == b[i]);
                    }
                    lemma_first_index_is(rest, '-', 5);
                    assert(rest.take(5) =~= b);
                    assert(rest.skip(6) =~= c);
                    assert forall|i: int| 0 <= i < s.len() implies is_word_char(
                        #[trigger] s[i],
                    ) by {
                        if i < 5 {
                            assert(s[i] == a[i]);
                        } else if 5 < i < 11 {
                            assert(s[i] == b[i - 6]);
                        } else if i > 11 {
                            assert(s[i] == c[i - 12]);
                        }
                    }
                },
            }
        },
    }
}

/// A word written after a text that is empty or ends in a space is the last
/// word of the whole, and the words before it are those of the text.
pub proof fn lemma_words_append(prefix: Seq<char>, word: Seq<char>)
    requires
        prefix.len() == 0 || is_space(prefix.last()),
        is_word(word),
    ensures
        words(prefix + word) == words(prefix).push(word),
    decreases word.len(),
{
    let t = prefix + word;
    let c = word.last();
    let init = word.drop_last();
    assert(is_word_char(c));
    assert(t.drop_last() =~= prefix + init);
    assert(t.last() == c);
    if init.len() == 0 {
        assert(prefix + init =~= prefix);
        assert(word =~= seq![c]);
        if prefix.len() > 0 {
            assert(t[t.len() - 2] == prefix.last());
        }
    } else {
        assert(is_word(init)) by {
            assert forall|i: int| 0 <= i < init.len() implies is_word_char(#[trigger] init[i]) by {
                assert(init[i] == word[i]);
            }
        }
        lemma_words_append(prefix, init);
        assert(t[t.len() - 2] == init.last());
        assert(is_word_char(init.last())) by {
            assert(init.last() == init[init.len() - 1]);
        }
        let before = words(prefix + init);
        assert(before.drop_last() =~= words(prefix));
        assert(before.last() == init);
        assert(init.push(c) =~= word);
    }
}

/// The texts of `parts`, one for one.
pub open spec fn part_texts(parts: Seq<Part>) -> Seq<Seq<char>> {
    Seq::new(parts.len(), |i: int| part_text(parts[i]))
}

/// The words of a written day are its date and its parts, and nothing in it
/// starts a comment.
pub proof fn lemma_day_words(day: DayView)
    requires
        day.wf(),
    ensures
        words(day_text(day)) == seq![date_text(day.date)] + part_texts(day.parts),
        forall|i: int| 0 <= i < day_text(day).len() ==> (#[trigger] day_text(day)[i]) != '#',
    decreases day.parts.len(),
{
    let d = date_text(day.date);
    lemma_date_round_trip(day.date);
    if day.parts.len() == 0 {
        assert(day_text(day) =~= Seq::<char>::empty() + d);
        lemma_words_append(Seq::empty(), d);
        assert(words(Seq::<char>::empty()) =~= Seq::<Seq<char>>::empty());
        assert(words(day_text(day)) =~= seq![d] + part_texts(day.parts));
    } else {
        let init = DayView { date: day.date, parts: day.parts.drop_last() };
        let p = day.parts.last();
        assert(init.wf()) by {
            assert forall|i: int| 0 <= i < init.parts.len() implies (#[trigger] init.parts[i]).wf() by {
                assert(init.parts[i] == day.parts[i]);
            }
        }
        assert(p.wf());
        lemma_day_words(init);
        lemma_part_round_trip(p);
        let prefix = day_text(init) + seq![' '];
        let w = part_text(p);
        assert(day_text(day) =~= prefix + w);
        assert(prefix.last() == ' ');
        assert(prefix.drop_last() =~= day_text(init));
        assert(words(prefix) == words(day_text(init)));
        lemma_words_append(prefix, w);
        assert(words(day_text(day)) =~= seq![d] + part_texts(day.parts));
        assert forall|i: int| 0 <= i < day_text(day).len() implies (#[trigger] day_text(day)[i])
            != '#' by {
            let t = day_text(day);
            let n = day_text(init).len() as int;
            if i < n {
                assert(t[i] == day_text(init)[i]);
            } else if i > n {
                assert(t[i] == w[i - n - 1]);
                assert(is_word_char(w[i - n - 1]));
            }
        }
    }
}

/// A well-formed day with at least one part, written as a line and read
/// again, is the same day: the same date and the same parts in the same
/// order, each with the same start, stop and factor.
pub proof fn lemma_round_trip(day: DayView)
    requires
        day.wf(),
        day.parts.len() > 0,
    ensures
        line_from_text(day_text(day)) == Ok::<DayView, ParseError>(day),
{
    let t = day_text(day);
    lemma_day_words(day);
    lemma_first_index_is(t, '#', t.len() as int);
    assert(strip_comment(t) =~= t);
    let w = words(t);
    lemma_date_round_trip(day.date);
    assert(w[0] == date_text(day.date));
    let tokens = w.skip(1);
    assert(tokens =~= part_texts(day.parts));
    assert forall|i: int| 0 <= i < tokens.len() implies part_from_text(#[trigger] tokens[i])
        == Some(day.parts[i]) by {
        lemma_part_round_trip(day.parts[i]);
    }
    lemma_first_bad_part_is(tokens, tokens.len() as int);
    assert(parts_from_text(tokens) =~= day.parts);
}

/// Every day that the parser reads from a line is well formed and has a
/// part, so that writing it and reading it again gives the same day.
pub proof fn lemma_parsed_day_round_trip(line: Seq<char>, day: DayView)
    requires
        line_from_text(line) == Ok::<DayView, ParseError>(day),
    ensures
        day.wf(),
        day.parts.len() > 0,
        line_from_text(day_text(day)) == Ok::<DayView, ParseError>(day),
{
    let w = words(strip_comment(line));
    let tokens = w.skip(1);
    lemma_first_bad_part(tokens);
    assert forall|i: int| 0 <= i < day.parts.len() implies (#[trigger] day.parts[i]).wf() by {
        lemma_part_from_text_wf(tokens[i]);
    }
    lemma_round_trip(day);
}

/// A line that was written from a day, read into a store, puts that day in
/// the place of what the store held for its date: so a text that was handed
/// out for editing and comes back unchanged changes nothing that was written
/// from the store.
pub proof fn lemma_import_written_day(store: Map<Date, Seq<Part>>, day: DayView)
    requires
        day.wf(),
        day.parts.len() > 0,
    ensures
        import_line(store, day_text(day)) == store.insert(day.date, day.parts),
{
    lemma_round_trip(day);
}

} // verus!
