//! Numbers as text: counts and IDs as decimal integers, times as decimal
//! numbers of time units.

use crate::interval::TICKS_PER_UNIT;
use vstd::prelude::*;
use vstd::string::StringExecFns;

verus! {

/// The character of the decimal digit `d`.
pub open spec fn digit(d: int) -> char {
    if d == 0 {
        '0'
    } else if d == 1 {
        '1'
    } else if d == 2 {
        '2'
    } else if d == 3 {
        '3'
    } else if d == 4 {
        '4'
    } else if d == 5 {
        '5'
    } else if d == 6 {
        '6'
    } else if d == 7 {
        '7'
    } else if d == 8 {
        '8'
    } else {
        '9'
    }
}

/// The decimal digits of `n`, without leading zeros.
pub open spec fn decimal(n: nat) -> Seq<char>
    decreases n,
{
    if n < 10 {
        seq![digit(n as int)]
    } else {
        decimal(n / 10).push(digit((n % 10) as int))
    }
}

/// The integer `x` in decimal, with a minus sign where it is negative.
pub open spec fn integer_text(x: int) -> Seq<char> {
    if x < 0 {
        seq!['-'] + decimal((-x) as nat)
    } else {
        decimal(x as nat)
    }
}

/// The last `width` decimal digits of `f`, with leading zeros.
pub open spec fn padded(f: nat, width: nat) -> Seq<char>
    decreases width,
{
    if width == 0 {
        Seq::empty()
    } else {
        padded(f / 10, (width - 1) as nat).push(digit((f % 10) as int))
    }
}

/// The digits after the decimal point of the fraction `f / 10^width`, where
/// `f < 10^width`: `width` digits less the trailing zeros.
pub open spec fn fraction(f: nat, width: nat) -> Seq<char>
    decreases width,
{
    if width == 0 || f == 0 {
        Seq::empty()
    } else if f % 10 == 0 {
        fraction(f / 10, (width - 1) as nat)
    } else {
        padded(f, width)
    }
}

/// The time `t`, given in ticks, as a decimal number of time units: `20` for
/// twenty units, `-1.5` for one and a half units before zero. A whole
/// number has no decimal point, and no fraction ends in a zero.
pub open spec fn ticks_text(t: int) -> Seq<char> {
    let m = if t < 0 {
        -t
    } else {
        t
    };
    let sign = if t < 0 {
        seq!['-']
    } else {
        Seq::<char>::empty()
    };
    let whole = decimal((m / TICKS_PER_UNIT as int) as nat);
    let f = (m % TICKS_PER_UNIT as int) as nat;
    if f == 0 {
        sign + whole
    } else {
        sign + whole + seq!['.'] + fraction(f, 6)
    }
}

/// Appends the decimal digit `d`.
fn push_digit(s: &mut String, d: u8)
    requires
        d < 10,
    ensures
        final(s)@ == old(s)@.push(digit(d as int)),
{
    proof {
        reveal_strlit("0");
        reveal_strlit("1");
        reveal_strlit("2");
        reveal_strlit("3");
        reveal_strlit("4");
        reveal_strlit("5");
        reveal_strlit("6");
        reveal_strlit("7");
        reveal_strlit("8");
        reveal_strlit("9");
    }
    let text = if d == 0 {
        "0"
    } else if d == 1 {
        "1"
    } else if d == 2 {
        "2"
    } else if d == 3 {
        "3"
    } else if d == 4 {
        "4"
    } else if d == 5 {
        "5"
    } else if d == 6 {
        "6"
    } else if d == 7 {
        "7"
    } else if d == 8 {
        "8"
    } else {
        "9"
    };
    assert(text@ =~= seq![digit(d as int)]);
    s.append(text);
    assert(s@ =~= old(s)@.push(digit(d as int)));
}

/// Appends `n` in decimal.
pub fn push_decimal(s: &mut String, n: u128)
    ensures
        final(s)@ == old(s)@ + decimal(n as nat),
    decreases n,
{
    if n >= 10 {
        push_decimal(s, n / 10);
    }
    push_digit(s, (n % 10) as u8);
    assert(s@ =~= old(s)@ + decimal(n as nat));
}

/// Appends the integer `x` in decimal.
pub fn push_integer(s: &mut String, x: i128)
    ensures
        final(s)@ == old(s)@ + integer_text(x as int),
{
    if x < 0 {
        proof {
            reveal_strlit("-");
        }
        s.append("-");
    }
    push_decimal(s, magnitude(x));
    assert(s@ =~= old(s)@ + integer_text(x as int));
}

/// The distance of `x` from zero.
fn magnitude(x: i128) -> (r: u128)
    ensures
        r == if x < 0 {
            -x
        } else {
            x as int
        },
{
    if x >= 0 {
        x as u128
    } else {
        (-(x + 1)) as u128 + 1
    }
}

/// Appends the last `width` decimal digits of `f`, with leading zeros.
fn push_padded(s: &mut String, f: u64, width: u8)
    ensures
        final(s)@ == old(s)@ + padded(f as nat, width as nat),
    decreases width,
{
    if width > 0 {
        push_padded(s, f / 10, width - 1);
        push_digit(s, (f % 10) as u8);
    }
    assert(s@ =~= old(s)@ + padded(f as nat, width as nat));
}

/// Appends the digits of the fraction `f / 10^width`, less the trailing
/// zeros.
fn push_fraction(s: &mut String, f: u64, width: u8)
    ensures
        final(s)@ == old(s)@ + fraction(f as nat, width as nat),
    decreases width,
{
    if width == 0 || f == 0 {
        assert(s@ =~= old(s)@ + fraction(f as nat, width as nat));
    } else if f % 10 == 0 {
        push_fraction(s, f / 10, width - 1);
    } else {
        push_padded(s, f, width);
    }
}

/// Appends the time `t`, given in ticks, as a decimal number of time units.
pub fn push_ticks(s: &mut String, t: i128)
    ensures
        final(s)@ == old(s)@ + ticks_text(t as int),
{
    let m = magnitude(t);
    if t < 0 {
        proof {
            reveal_strlit("-");
        }
        s.append("-");
    }
    push_decimal(s, m / (TICKS_PER_UNIT as u128));
    let f = (m % (TICKS_PER_UNIT as u128)) as u64;
    if f != 0 {
        proof {
            reveal_strlit(".");
        }
        s.append(".");
        push_fraction(s, f, 6);
    }
    assert(s@ =~= old(s)@ + ticks_text(t as int));
}

/// The time `t`, given in ticks, as a decimal number of time units.
pub fn render_ticks(t: i64) -> (r: String)
    ensures
        r@ == ticks_text(t as int),
{
    let mut s = String::new();
    push_ticks(&mut s, t as i128);
    assert(s@ =~= ticks_text(t as int));
    s
}

/// The integer `x` in decimal.
pub fn render_integer(x: i64) -> (r: String)
    ensures
        r@ == integer_text(x as int),
{
    let mut s = String::new();
    push_integer(&mut s, x as i128);
    assert(s@ =~= integer_text(x as int));
    s
}

} // verus!
