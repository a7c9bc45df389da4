//! Byte counts for people: a number with at most three decimals and a unit.
//!
//! The unit is the largest of B, kB, MB, GB and TB, a thousand bytes to the
//! next, in which the count is at least one; a count of a thousand TB or more
//! stays in TB. The number is rounded to thousandths of the unit, a tie to the
//! even thousandth, and written without trailing zeros. A count so close under
//! the next unit that it rounds to a full thousand is shown as one of that
//! next unit, so below TB the number shown is always under a thousand.

use vstd::prelude::*;

verus! {

/// The place of the unit in which `num` bytes are shown: 0 for B up to 4 for
/// TB.
pub open spec fn unit_index(num: nat) -> nat {
    if num < 1_000 {
        0
    } else if num < 1_000_000 {
        1
    } else if num < 1_000_000_000 {
        2
    } else if num < 1_000_000_000_000 {
        3
    } else {
        4
    }
}

/// The bytes that make one of the unit at place `index`.
pub open spec fn unit_scale(index: nat) -> nat {
    if index == 0 {
        1
    } else if index == 1 {
        1_000
    } else if index == 2 {
        1_000_000
    } else if index == 3 {
        1_000_000_000
    } else {
        1_000_000_000_000
    }
}

/// The name of the unit at place `index`.
pub open spec fn unit_name(index: nat) -> Seq<char> {
    if index == 0 {
        seq!['B']
    } else if index == 1 {
        seq!['k', 'B']
    } else if index == 2 {
        seq!['M', 'B']
    } else if index == 3 {
        seq!['G', 'B']
    } else {
        seq!['T', 'B']
    }
}

/// `n` divided by `d`, rounded to the nearest whole number, a tie to the even
/// one.
pub open spec fn round_half_even(n: nat, d: nat) -> nat {
    let q = n / d;
    let r = n % d;
    if 2 * r > d || (2 * r == d && q % 2 == 1) {
        q + 1
    } else {
        q
    }
}

/// `num` bytes in thousandths of their unit, rounded.
pub open spec fn thousandths(num: nat) -> nat {
    round_half_even(num * 1000, unit_scale(unit_index(num)))
}

/// Rounding takes `num` bytes up to a full thousand of a unit below TB, which
/// is one of the next unit.
pub open spec fn carries(num: nat) -> bool {
    unit_index(num) < 4 && thousandths(num) >= 1_000_000
}

/// The place of the unit that is shown for `num` bytes: their unit, or the
/// next where rounding carries.
pub open spec fn shown_unit(num: nat) -> nat {
    if carries(num) {
        unit_index(num) + 1
    } else {
        unit_index(num)
    }
}

/// The number that is shown for `num` bytes, in thousandths of the unit shown.
pub open spec fn shown_thousandths(num: nat) -> nat {
    if carries(num) {
        1000
    } else {
        thousandths(num)
    }
}

/// Below TB the number shown is under a thousand, and for any count but zero
/// it is at least one. The unit shown is the count's own or the next, and
/// where it is the next, the one that is shown is what the count rounds to.
pub proof fn lemma_shown_magnitude(num: nat)
    ensures
        shown_unit(num) <= 4,
        shown_unit(num) < 4 ==> shown_thousandths(num) < 1_000_000,
        num > 0 ==> shown_thousandths(num) >= 1000,
        shown_unit(num) == unit_index(num) || shown_unit(num) == unit_index(num) + 1,
        shown_thousandths(num) * unit_scale(shown_unit(num)) == thousandths(num) * unit_scale(
            unit_index(num),
        ),
{
    let index = unit_index(num);
    let scale = unit_scale(index);
    if carries(num) {
        assert(num * 1000 / scale < 1_000_000);
        assert(thousandths(num) == 1_000_000);
        assert(unit_scale(index + 1) == 1000 * scale);
    }
}

/// The character of the digit `d`.
pub open spec fn digit(d: nat) -> char {
    if d == 0 {
        '0'
    } else if d == 1 {
        '1'
    } else if d == 2 {
        '2'
    } else if d == 3 {
        '3'
    } else if d == 4 {
        '4'
    } else if d == 5 {
        '5'
    } else if d == 6 {
        '6'
    } else if d == 7 {
        '7'
    } else if d == 8 {
        '8'
    } else {
        '9'
    }
}

/// `n` in decimal digits, without leading zeros.
pub open spec fn decimal(n: nat) -> Seq<char>
    decreases n,
{
    if n < 10 {
        seq![digit(n)]
    } else {
        decimal(n / 10).push(digit(n % 10))
    }
}

/// What follows the whole number for `t` thousandths, `t` under a thousand:
/// nothing for none, else the point and the decimals up to the last that is
/// not zero.
pub open spec fn fraction(t: nat) -> Seq<char> {
    if t == 0 {
        Seq::empty()
    } else if t % 100 == 0 {
        seq!['.', digit(t / 100)]
    } else if t % 10 == 0 {
        seq!['.', digit(t / 100), digit(t / 10 % 10)]
    } else {
        seq!['.', digit(t / 100), digit(t / 10 % 10), digit(t % 10)]
    }
}

/// `num` bytes as shown to people: the number, a blank, the unit.
pub open spec fn pretty(num: nat) -> Seq<char> {
    let t = shown_thousandths(num);
    decimal(t / 1000) + fraction(t % 1000) + seq![' '] + unit_name(shown_unit(num))
}

/// The digit `d` as text.
fn digit_text(d: u64) -> (text: &'static str)
    requires
        d < 10,
    ensures
        text@ == seq![digit(d as nat)],
{
    proof {
        reveal_strlit("0");
        reveal_strlit("1");
        reveal_strlit("2");
        reveal_strlit("3");
        reveal_strlit("4");
        reveal_strlit("5");
        reveal_strlit("6");
        reveal_strlit("7");
        reveal_strlit("8");
        reveal_strlit("9");
    }
    let text = if d == 0 {
        "0"
    } else if d == 1 {
        "1"
    } else if d == 2 {
        "2"
    } else if d == 3 {
        "3"
    } else if d == 4 {
        "4"
    } else if d == 5 {
        "5"
    } else if d == 6 {
        "6"
    } else if d == 7 {
        "7"
    } else if d == 8 {
        "8"
    } else {
        "9"
    };
    text
}

/// The name of the unit at place `index`.
fn unit_text(index: u8) -> (text: &'static str)
    ensures
        text@ == unit_name(index as nat),
{
    proof {
        reveal_strlit("B");
        reveal_strlit("kB");
        reveal_strlit("MB");
        reveal_strlit("GB");
        reveal_strlit("TB");
    }
    let text = if index == 0 {
        "B"
    } else if index == 1 {
        "kB"
    } else if index == 2 {
        "MB"
    } else if index == 3 {
        "GB"
    } else {
        "TB"
    };
    text
}

/// Writes `n` in decimal digits behind what `text` holds.
fn append_decimal(text: &mut String, n: u64)
    ensures
        final(text)@ == old(text)@ + decimal(n as nat),
    decreases n,
{
    if n >= 10 {
        append_decimal(text, n / 10);
    }
    text.append(digit_text(n % 10));
}

/// Writes the decimals of `t` thousandths behind what `text` holds.
fn append_fraction(text: &mut String, t: u64)
    requires
        t < 1000,
    ensures
        final(text)@ == old(text)@ + fraction(t as nat),
{
    if t == 0 {
        return ;
    }
    proof {
        reveal_strlit(".");
    }
    text.append(".");
    text.append(digit_text(t / 100));
    if t % 100 != 0 {
        text.append(digit_text(t / 10 % 10));
        if t % 10 != 0 {
            text.append(digit_text(t % 10));
        }
    }
}

/// `num` bytes as shown to people: `0 B`, `1.234 kB`, `874.94 MB`, and `1 GB`
/// for 999999900.
pub fn convert_pretty(num: u64) -> (text: String)
    ensures
        text@ == pretty(num as nat),
{
    let index: u8 = if num < 1_000 {
        0
    } else if num < 1_000_000 {
        1
    } else if num < 1_000_000_000 {
        2
    } else if num < 1_000_000_000_000 {
        3
    } else {
        4
    };
    let scale: u128 = if index == 0 {
        1
    } else if index == 1 {
        1_000
    } else if index == 2 {
        1_000_000
    } else if index == 3 {
        1_000_000_000
    } else {
        1_000_000_000_000
    };
    let scaled: u128 = num as u128 * 1000;
    let quotient: u128 = scaled / scale;
    let rest: u128 = scaled % scale;
    let rounded: u128 = if 2 * rest > scale || (2 * rest == scale && quotient % 2 == 1) {
        quotient + 1
    } else {
        quotient
    };
    let (shown, unit): (u128, u8) = if index < 4 && rounded >= 1_000_000 {
        (1000, index + 1)
    } else {
        (rounded, index)
    };
    let whole: u64 = (shown / 1000) as u64;
    let part: u64 = (shown % 1000) as u64;
    let mut text = String::new();
    append_decimal(&mut text, whole);
    append_fraction(&mut text, part);
    proof {
        reveal_strlit(" ");
    }
    text.append(" ");
    text.append(unit_text(unit));
    text
}

} // verus!
