//! Writing a day as a line of the timesheet, in the form that the parser
//! reads.

use vstd::prelude::*;
use crate::date::Date;
use crate::factor::{Factor, FACTOR_ONE};
use crate::record::{Day, DayView, Part};
use crate::text::{digit_char, string_of};
use crate::time::Time;

verus! {

/// The character that writes the digit `d`.
pub open spec fn digit_text(d: int) -> char {
    ((d + 48) as u8) as char
}

/// `n` written with two digits.
pub open spec fn two_digit_text(n: int) -> Seq<char> {
    seq![digit_text(n / 10), digit_text(n % 10)]
}

/// `m` written with six digits.
pub open spec fn six_digit_text(m: int) -> Seq<char> {
    seq![
        digit_text(m / 100_000 % 10),
        digit_text(m / 10_000 % 10),
        digit_text(m / 1_000 % 10),
        digit_text(m / 100 % 10),
        digit_text(m / 10 % 10),
        digit_text(m % 10),
    ]
}

/// `s` without the zeros at its end.
pub open spec fn trim_zeros(s: Seq<char>) -> Seq<char>
    decreases s.len(),
{
    if s.len() > 0 && s.last() == '0' {
        trim_zeros(s.drop_last())
    } else {
        s
    }
}

/// A time as `HH:MM`.
pub open spec fn time_text(t: Time) -> Seq<char> {
    two_digit_text(t.hour as int) + seq![':'] + two_digit_text(t.minute as int)
}

/// A date as `YYYY-MM-DD`.
pub open spec fn date_text(d: Date) -> Seq<char> {
    two_digit_text(d.year as int / 100) + two_digit_text(d.year as int % 100) + seq!['-'] + two_digit_text(
        d.month as int,
    ) + seq!['-'] + two_digit_text(d.day as int)
}

/// A factor as a decimal number: `1`, or `0.` and the millionths without the
/// zeros at their end.
pub open spec fn factor_text(f: Factor) -> Seq<char> {
    if f.millionths == FACTOR_ONE {
        seq!['1']
    } else {
        seq!['0', '.'] + trim_zeros(six_digit_text(f.millionths as int))
    }
}

/// A part as `start`, `start-stop` or `start-stop-factor`.
pub open spec fn part_text(p: Part) -> Seq<char> {
    match p.stop {
        None => time_text(p.start),
        Some(stop) => match p.factor {
            None => time_text(p.start) + seq!['-'] + time_text(stop),
            Some(f) => time_text(p.start) + seq!['-'] + time_text(stop) + seq!['-'] + factor_text(
                f,
            ),
        },
    }
}

/// The parts of a day, each after one space.
pub open spec fn parts_text(parts: Seq<Part>) -> Seq<char>
    decreases parts.len(),
{
    if parts.len() == 0 {
        Seq::empty()
    } else {
        parts_text(parts.drop_last()) + seq![' '] + part_text(parts.last())
    }
}

/// A day as one line: its date, then its parts in order.
pub open spec fn day_text(day: DayView) -> Seq<char> {
    date_text(day.date) + parts_text(day.parts)
}

/// Appends `n` with two digits.
fn push_two_digits(out: &mut Vec<char>, n: u8)
    requires
        n < 100,
    ensures
        final(out)@ == old(out)@ + two_digit_text(n as int),
{
    out.push(digit_char(n / 10));
    out.push(digit_char(n % 10));
    proof {
        assert(final(out)@ == old(out)@ + two_digit_text(n as int));
    }
}

/// Appends a time.
fn push_time(out: &mut Vec<char>, t: Time)
    requires
        t.wf(),
    ensures
        final(out)@ == old(out)@ + time_text(t),
{
    push_two_digits(out, t.hour);
    out.push(':');
    push_two_digits(out, t.minute);
    proof {
        assert(final(out)@ == old(out)@ + time_text(t));
    }
}

/// Appends a date.
fn push_date(out: &mut Vec<char>, d: Date)
    requires
        d.wf(),
    ensures
        final(out)@ == old(out)@ + date_text(d),
{
    let century: u8 = (d.year / 100) as u8;
    let year: u8 = (d.year % 100) as u8;
    push_two_digits(out, century);
    push_two_digits(out, year);
    out.push('-');
    push_two_digits(out, d.month);
    out.push('-');
    push_two_digits(out, d.day);
    proof {
        assert(final(out)@ == old(out)@ + date_text(d));
    }
}

/// Appends a factor.
fn push_factor(out: &mut Vec<char>, f: Factor)
    requires
        f.wf(),
    ensures
        final(out)@ == old(out)@ + factor_text(f),
{
    if f.millionths == FACTOR_ONE {
        out.push('1');
        proof {
            assert(final(out)@ == old(out)@ + factor_text(f));
        }
        return;
    }
    let m = f.millionths;
    let mut digits: Vec<char> = Vec::new();
    digits.push(digit_char((m / 100_000 % 10) as u8));
    digits.push(digit_char((m / 10_000 % 10) as u8));
    digits.push(digit_char((m / 1_000 % 10) as u8));
    digits.push(digit_char((m / 100 % 10) as u8));
    digits.push(digit_char((m / 10 % 10) as u8));
    digits.push(digit_char((m % 10) as u8));
    assert(digits@ == six_digit_text(m as int));
    assert(digits@.take(6) == digits@);
    let mut n: usize = 6;
    while n > 0 && digits[n - 1] == '0'
        invariant
            n <= 6,
            digits@.len() == 6,
            trim_zeros(digits@.take(n as int)) == trim_zeros(digits@),
        decreases n,
    {
        proof {
            assert(digits@.take(n as int).drop_last() == digits@.take(n as int - 1));
        }
        n = n - 1;
    }
    proof {
        assert(trim_zeros(digits@) == digits@.take(n as int));
    }
    out.push('0');
    out.push('.');
    let ghost base = out@;
    let mut i: usize = 0;
    while i < n
        invariant
            i <= n <= 6,
            digits@.len() == 6,
            out@ == base + digits@.take(i as int),
        decreases n - i,
    {
        out.push(digits[i]);
        proof {
            assert(digits@.take(i as int + 1) == digits@.take(i as int).push(digits@[i as int]));
        }
        i = i + 1;
    }
    proof {
        assert(final(out)@ == old(out)@ + factor_text(f));
    }
}

/// Appends a part.
fn push_part(out: &mut Vec<char>, p: &Part)
    requires
        p.wf(),
    ensures
        final(out)@ == old(out)@ + part_text(*p),
{
    push_time(out, p.start);
    if let Some(stop) = p.stop {
        out.push('-');
        push_time(out, stop);
        if let Some(f) = p.factor {
            out.push('-');
            push_factor(out, f);
        }
    }
    proof {
        assert(final(out)@ == old(out)@ + part_text(*p));
    }
}

impl Day {
    /// This day as one line of the timesheet: the date as `YYYY-MM-DD`, then
    /// each part after one space, a time as `HH:MM`.
    pub fn as_legacy(&self) -> (r: String)
        requires
            self.wf(),
        ensures
            r@ == day_text(self@),
    {
        let mut out: Vec<char> = Vec::new();
        push_date(&mut out, self.date);
        let mut i: usize = 0;
        proof {
            assert(out@ == date_text(self.date) + parts_text(self.parts@.take(0)));
        }
        while i < self.parts.len()
            invariant
                i <= self.parts.len(),
                self.wf(),
                out@ == date_text(self.date) + parts_text(self.parts@.take(i as int)),
            decreases self.parts.len() - i,
        {
            out.push(' ');
            push_part(&mut out, &self.parts[i]);
            proof {
                let next = self.parts@.take(i as int + 1);
                assert(next.drop_last() == self.parts@.take(i as int));
                assert(next.last() == self.parts@[i as int]);
                assert(out@ == date_text(self.date) + parts_text(next));
            }
            i = i + 1;
        }
        proof {
            assert(self.parts@.take(i as int) == self.parts@);
        }
        string_of(&out)
    }
}

} // verus!
