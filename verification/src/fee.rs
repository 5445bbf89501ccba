//! The fee for an hour, written as an amount of money.
//!
//! ```text
//! fee := digit{1,7} ["." digit{1,2}]
//! ```
//!
//! A fee is held as a number of hundredths of the currency unit.

use vstd::prelude::*;
use crate::legacy_parser::{lemma_decimal_value_push, lemma_pow10_small, pow10};
use crate::legacy_writer::{digit_text, two_digit_text};
use crate::text::{
    all_digits, chars_of, decimal_value, digit_char, digit_of, digit_value, find_char, first_index,
    is_digit, lemma_first_index_is, string_of,
};

verus! {

/// The most digits before the point of a fee.
pub const FEE_WHOLE_DIGITS: usize = 7;

/// The largest fee that can be written: 9999999.99.
pub const MAX_FEE: u32 = 999_999_999;

/// `s` has the shape of a fee: one to seven digits, and after them nothing
/// or a point and one or two digits.
pub open spec fn fee_shape(s: Seq<char>) -> bool {
    let i = first_index(s, '.');
    &&& 1 <= i <= FEE_WHOLE_DIGITS
    &&& all_digits(s.take(i))
    &&& i == s.len() || (i + 2 <= s.len() <= i + 3 && all_digits(s.skip(i + 1)))
}

/// The number of hundredths that a text of the shape of a fee writes.
pub open spec fn fee_hundredths(s: Seq<char>) -> nat {
    let i = first_index(s, '.');
    if i == s.len() {
        decimal_value(s) * 100
    } else {
        decimal_value(s.take(i)) * 100 + decimal_value(s.skip(i + 1)) * pow10(
            (i + 3 - s.len()) as nat,
        )
    }
}

/// The fee that `s` writes, in hundredths.
pub open spec fn fee_from_text(s: Seq<char>) -> Option<u32> {
    if fee_shape(s) {
        Some(fee_hundredths(s) as u32)
    } else {
        None
    }
}

/// `n` in decimal digits, without zeros in front.
pub open spec fn decimal_text(n: nat) -> Seq<char>
    decreases n,
{
    if n < 10 {
        seq![digit_text(n as int)]
    } else {
        decimal_text(n / 10).push(digit_text((n % 10) as int))
    }
}

/// A fee of `fee` hundredths as an amount with two places.
pub open spec fn fee_text(fee: u32) -> Seq<char> {
    decimal_text((fee / 100) as nat) + seq!['.'] + two_digit_text((fee % 100) as int)
}

/// The number that the digits of `v` from `from` up to `to` write, if they
/// are digits, and are at most nine.
fn read_digits(v: &Vec<char>, from: usize, to: usize) -> (r: Option<u32>)
    requires
        from <= to <= v.len(),
        to - from <= 9,
    ensures
        r == (if all_digits(v@.subrange(from as int, to as int)) {
            Some(decimal_value(v@.subrange(from as int, to as int)) as u32)
        } else {
            None::<u32>
        }),
        r matches Some(n) ==> n == decimal_value(v@.subrange(from as int, to as int)) && n < pow10(
            (to - from) as nat,
        ),
{
    let ghost s = v@.subrange(from as int, to as int);
    let mut acc: u32 = 0;
    let mut i: usize = from;
    proof {
        assert(s.take(0) =~= Seq::<char>::empty());
        lemma_pow10_bounds(0);
    }
    while i < to
        invariant
            from <= i <= to <= v.len(),
            to - from <= 9,
            s == v@.subrange(from as int, to as int),
            all_digits(s.take(i - from)),
            acc == decimal_value(s.take(i - from)),
            acc < pow10((i - from) as nat),
        decreases to - i,
    {
        let d = match digit_of(v[i]) {
            Some(d) => d,
            None => {
                proof {
                    assert(s[i - from] == v@[i as int]);
                }
                return None;
            },
        };
        proof {
            let before = s.take(i - from);
            let after = s.take(i - from + 1);
            assert(s[i - from] == v@[i as int]);
            assert(after =~= before.push(s[i - from]));
            lemma_decimal_value_push(before, s[i - from]);
            assert forall|k: int| 0 <= k < after.len() implies is_digit(#[trigger] after[k]) by {
                if k < before.len() {
                    assert(after[k] == before[k]);
                }
            }
            lemma_pow10_bounds((i - from) as nat);
            lemma_pow10_bounds((i - from + 1) as nat);
        }
        acc = acc * 10 + d as u32;
        i = i + 1;
    }
    proof {
        assert(s.take(to - from) =~= s);
    }
    Some(acc)
}

/// The powers of ten up to the ninth fit in 32 bits, and each is ten times
/// the one before.
pub proof fn lemma_pow10_bounds(n: nat)
    ensures
        pow10(n) >= 1,
        pow10(n + 1) == 10 * pow10(n),
        n <= 9 ==> pow10(n) <= 1_000_000_000,
    decreases n,
{
    reveal_with_fuel(pow10, 11);
    if n > 0 {
        lemma_pow10_bounds((n - 1) as nat);
    }
}

/// The fee that `s` writes, in hundredths of the currency unit: an amount of
/// one to seven digits, with a point and one or two digits after it or
/// without.
pub fn parse_fee(s: &str) -> (r: Option<u32>)
    ensures
        r == fee_from_text(s@),
        r matches Some(fee) ==> fee <= MAX_FEE,
{
    let v = chars_of(s);
    let n = v.len();
    let i = find_char(&v, 0, '.');
    proof {
        assert(v@.skip(0) =~= v@);
        assert(v@.subrange(0, i as int) =~= v@.take(i as int));
        lemma_pow10_small();
        lemma_pow10_bounds(6);
    }
    if i < 1 || i > FEE_WHOLE_DIGITS {
        return None;
    }
    let whole = match read_digits(&v, 0, i) {
        Some(w) => w,
        None => { return None; },
    };
    proof {
        lemma_pow10_bounds(i as nat);
        assert(pow10(i as nat) <= 10_000_000) by {
            reveal_with_fuel(pow10, 9);
        }
    }
    if i == n {
        proof {
            assert(v@.take(i as int) =~= v@);
        }
        return Some(whole * 100);
    }
    if n < i + 2 || n > i + 3 {
        return None;
    }
    proof {
        assert(v@.subrange(i as int + 1, n as int) =~= v@.skip(i as int + 1));
    }
    let frac = match read_digits(&v, i + 1, n) {
        Some(f) => f,
        None => { return None; },
    };
    proof {
        assert(pow10(1) == 10 && pow10(0) == 1);
        assert(frac * pow10(1) == frac * 10);
        assert(frac * pow10(0) == frac);
    }
    if n == i + 2 {
        Some(whole * 100 + frac * 10)
    } else {
        Some(whole * 100 + frac)
    }
}

/// A fee of `fee` hundredths of the currency unit as an amount with two
/// places.
pub fn write_fee(fee: u32) -> (r: String)
    ensures
        r@ == fee_text(fee),
{
    let whole = fee / 100;
    let mut rev: Vec<char> = Vec::new();
    let mut rest: u32 = whole;
    let ghost mut suffix: Seq<char> = Seq::empty();
    proof {
        assert(decimal_text(whole as nat) =~= decimal_text(rest as nat) + suffix);
    }
    while rest >= 10
        invariant
            decimal_text(whole as nat) == decimal_text(rest as nat) + suffix,
            suffix.len() == rev@.len(),
            forall|k: int| 0 <= k < suffix.len() ==> #[trigger] suffix[k] == rev@[rev@.len() - 1 - k],
        decreases rest,
    {
        let c = digit_char((rest % 10) as u8);
        let ghost old_suffix = suffix;
        let ghost old_rev = rev@;
        proof {
            let shorter = decimal_text((rest / 10) as nat);
            assert(decimal_text(rest as nat) == shorter.push(c));
            assert(shorter.push(c) + suffix =~= shorter + (seq![c] + suffix));
            suffix = seq![c] + suffix;
        }
        rev.push(c);
        rest = rest / 10;
        proof {
            assert forall|k: int| 0 <= k < suffix.len() implies #[trigger] suffix[k] == rev@[rev@.len()
                - 1 - k] by {
                if k > 0 {
                    assert(suffix[k] == old_suffix[k - 1]);
                    assert(old_suffix[k - 1] == old_rev[old_rev.len() - 1 - (k - 1)]);
                }
            }
        }
    }
    let mut out: Vec<char> = Vec::new();
    out.push(digit_char(rest as u8));
    let mut k: usize = rev.len();
    let ghost head = out@;
    while k > 0
        invariant
            k <= rev@.len(),
            suffix.len() == rev@.len(),
            forall|j: int| 0 <= j < suffix.len() ==> #[trigger] suffix[j] == rev@[rev@.len() - 1 - j],
            out@ == head + suffix.take(rev@.len() - k),
        decreases k,
    {
        k = k - 1;
        out.push(rev[k]);
        proof {
            let m = rev@.len() - 1 - k;
            assert(suffix[m] == rev@[rev@.len() - 1 - m]);
            assert(suffix.take(m + 1) =~= suffix.take(m).push(suffix[m]));
        }
    }
    proof {
        assert(suffix.take(rev@.len() as int) =~= suffix);
        assert(out@ == decimal_text(whole as nat));
    }
    out.push('.');
    let cents = (fee % 100) as u8;
    out.push(digit_char(cents / 10));
    out.push(digit_char(cents % 10));
    proof {
        assert(out@ =~= fee_text(fee));
    }
    string_of(&out)
}

/// The decimal digits of a number are digits, as many as the size of the
/// number asks for, and write that number.
pub proof fn lemma_decimal_text(n: nat, places: nat)
    requires
        places >= 1,
        n < pow10(places),
    ensures
        all_digits(decimal_text(n)),
        1 <= decimal_text(n).len() <= places,
        decimal_value(decimal_text(n)) == n,
    decreases n,
{
    let s = decimal_text(n);
    lemma_pow10_bounds(0);
    if n < 10 {
        assert(s.drop_last() =~= Seq::<char>::empty());
        assert(decimal_value(s.drop_last()) == 0);
    } else {
        lemma_pow10_bounds((places - 1) as nat);
        assert(places >= 2);
        let shorter = decimal_text(n / 10);
        lemma_decimal_text(n / 10, (places - 1) as nat);
        assert(s.drop_last() =~= shorter);
        assert forall|i: int| 0 <= i < s.len() implies is_digit(#[trigger] s[i]) by {
            if i < shorter.len() {
                assert(s[i] == shorter[i]);
            }
        }
    }
}

/// A fee of at most `MAX_FEE` that is written is read back.
pub proof fn lemma_fee_round_trip(fee: u32)
    requires
        fee <= MAX_FEE,
    ensures
        fee_from_text(fee_text(fee)) == Some(fee),
{
    let whole = (fee / 100) as nat;
    let cents = (fee % 100) as int;
    let w = decimal_text(whole);
    let c = two_digit_text(cents);
    let s = fee_text(fee);
    reveal_with_fuel(pow10, 9);
    lemma_decimal_text(whole, 7);
    assert(is_digit(c[0]) && is_digit(c[1]));
    assert(s =~= w + seq!['.'] + c);
    let i = w.len() as int;
    assert forall|k: int| 0 <= k < i implies s[k] != '.' by {
        assert(s[k] == w[k]);
        assert(is_digit(w[k]));
    }
    lemma_first_index_is(s, '.', i);
    assert(s.take(i) =~= w);
    assert(s.skip(i + 1) =~= c);
    let first = c.drop_last();
    assert(first =~= seq![c[0]]);
    assert(first.drop_last() =~= Seq::<char>::empty());
    assert(decimal_value(first.drop_last()) == 0);
    assert(first.last() == c[0]);
    assert(digit_value(c[0]) == cents / 10);
    assert(decimal_value(first) == cents / 10);
    assert(decimal_value(c) == cents);
    assert(pow10((i + 3 - s.len()) as nat) == 1);
    assert(decimal_value(c) * pow10((i + 3 - s.len()) as nat) == cents);
}

} // verus!
