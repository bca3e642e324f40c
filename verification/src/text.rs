//! Building text: decimal numbers appended to a `String`.

use vstd::prelude::*;
use vstd::string::StringExecFns;

verus! {

/// The character that stands for the digit `d`.
pub open spec fn digit_char(d: nat) -> char
    recommends
        d < 10,
{
    if d == 0 {
        '0'
    } else if d == 1 {
        '1'
    } else if d == 2 {
        '2'
    } else if d == 3 {
        '3'
    } else if d == 4 {
        '4'
    } else if d == 5 {
        '5'
    } else if d == 6 {
        '6'
    } else if d == 7 {
        '7'
    } else if d == 8 {
        '8'
    } else {
        '9'
    }
}

/// The decimal notation of `n`, without sign or leading zeros.
pub open spec fn decimal(n: nat) -> Seq<char>
    decreases n,
{
    if n < 10 {
        seq![digit_char(n)]
    } else {
        decimal(n / 10).push(digit_char(n % 10))
    }
}

/// The one-character text of a digit.
fn digit_str(d: u64) -> (text: &'static str)
    requires
        d < 10,
    ensures
        text@ == seq![digit_char(d as nat)],
{
    proof {
        reveal_strlit("0");
        reveal_strlit("1");
        reveal_strlit("2");
        reveal_strlit("3");
        reveal_strlit("4");
        reveal_strlit("5");
        reveal_strlit("6");
        reveal_strlit("7");
        reveal_strlit("8");
        reveal_strlit("9");
    }
    let text: &'static str = if d == 0 {
        "0"
    } else if d == 1 {
        "1"
    } else if d == 2 {
        "2"
    } else if d == 3 {
        "3"
    } else if d == 4 {
        "4"
    } else if d == 5 {
        "5"
    } else if d == 6 {
        "6"
    } else if d == 7 {
        "7"
    } else if d == 8 {
        "8"
    } else {
        "9"
    };
    assert(text@ =~= seq![digit_char(d as nat)]);
    text
}

/// Appends the decimal notation of `n` to `out`.
pub fn push_decimal(out: &mut String, n: u64)
    ensures
        final(out)@ == old(out)@ + decimal(n as nat),
    decreases n,
{
    if n >= 10 {
        push_decimal(out, n / 10);
    }
    let ghost head = out@;
    out.append(digit_str(n % 10));
    proof {
        if n >= 10 {
            assert(out@ =~= old(out)@ + decimal((n / 10) as nat).push(digit_char((n % 10) as nat)));
        } else {
            assert(out@ =~= old(out)@ + seq![digit_char(n as nat)]);
        }
    }
}

/// Whether `unit` is a power of ten.
pub open spec fn is_decimal_unit(unit: nat) -> bool
    decreases unit,
{
    unit == 1 || (unit >= 10 && unit % 10 == 0 && is_decimal_unit(unit / 10))
}

/// The digits after the decimal point of `rest / unit`, down to the last one
/// that is not zero.
pub open spec fn fraction_digits(rest: nat, unit: nat) -> Seq<char>
    recommends
        is_decimal_unit(unit),
        rest < unit,
    decreases unit,
{
    if unit < 10 || rest == 0 {
        Seq::empty()
    } else {
        seq![digit_char(rest / (unit / 10))] + fraction_digits(rest % (unit / 10), unit / 10)
    }
}

/// The decimal notation of `value / unit`, where `unit` is a power of ten:
/// the whole part, and the fraction, if there is one, after a point. Digits
/// are never rounded, and a fraction never ends in a zero.
pub open spec fn scaled(value: nat, unit: nat) -> Seq<char>
    recommends
        is_decimal_unit(unit),
{
    decimal(value / unit) + if value % unit == 0 {
        Seq::<char>::empty()
    } else {
        seq!['.'] + fraction_digits(value % unit, unit)
    }
}

/// Appends the digits of `fraction_digits` to `out`.
fn push_fraction(out: &mut String, rest: u64, unit: u64)
    requires
        is_decimal_unit(unit as nat),
        rest < unit,
    ensures
        final(out)@ == old(out)@ + fraction_digits(rest as nat, unit as nat),
    decreases unit,
{
    if unit < 10 || rest == 0 {
        assert(out@ =~= old(out)@ + fraction_digits(rest as nat, unit as nat));
    } else {
        let sub: u64 = unit / 10;
        proof {
            assert(is_decimal_unit(sub as nat));
            assert(sub > 0);
            crate::arith::lemma_div_below(rest as int, sub as int, 10);
        }
        out.append(digit_str(rest / sub));
        let ghost middle = out@;
        push_fraction(out, rest % sub, sub);
        assert(out@ =~= old(out)@ + (seq![digit_char((rest / sub) as nat)] + fraction_digits(
            (rest % sub) as nat,
            sub as nat,
        )));
    }
}

/// Appends the decimal notation of `value / unit` to `out`: see `scaled`.
pub fn push_scaled(out: &mut String, value: u64, unit: u64)
    requires
        is_decimal_unit(unit as nat),
    ensures
        final(out)@ == old(out)@ + scaled(value as nat, unit as nat),
{
    push_decimal(out, value / unit);
    let rest: u64 = value % unit;
    if rest != 0 {
        proof {
            reveal_strlit(".");
        }
        out.append(".");
        push_fraction(out, rest, unit);
        assert(out@ =~= old(out)@ + (decimal((value / unit) as nat) + (seq!['.'] + fraction_digits(
            rest as nat,
            unit as nat,
        ))));
    } else {
        assert(out@ =~= old(out)@ + (decimal((value / unit) as nat) + Seq::<char>::empty()));
    }
}

} // verus!
