//! Numbers as text.

use vstd::prelude::*;

verus! {

/// The character of a digit, up to hexadecimal.
pub open spec fn digit(value: nat) -> char {
    if value < 10 {
        (48 + value) as char
    } else {
        (87 + value) as char
    }
}

/// A number written in a base, without leading zeros.
pub open spec fn in_base(value: nat, base: nat) -> Seq<char>
    decreases value,
{
    if base < 2 || value < base {
        seq![digit(value)]
    } else {
        proof {
            vstd::arithmetic::div_mod::lemma_div_decreases(value as int, base as int);
        }
        in_base(value / base, base).push(digit(value % base))
    }
}

/// A number in decimal.
pub open spec fn decimal(value: nat) -> Seq<char> {
    in_base(value, 10)
}

/// A number in decimal, with a minus sign where it is negative.
pub open spec fn signed_decimal(value: int) -> Seq<char> {
    if value < 0 {
        seq!['-'] + decimal((-value) as nat)
    } else {
        decimal(value as nat)
    }
}

/// A text filled up from the left to a width.
pub open spec fn padded(text: Seq<char>, fill: char, width: nat) -> Seq<char> {
    if text.len() < width {
        Seq::new((width - text.len()) as nat, |k: int| fill) + text
    } else {
        text
    }
}

/// The number that digits of a base spell.
pub open spec fn spelled(digits: Seq<char>, base: nat) -> nat
    decreases digits.len(),
{
    if digits.len() == 0 {
        0
    } else {
        spelled(digits.drop_last(), base) * base + digit_value(digits.last())
    }
}

/// The value of a digit's character.
pub open spec fn digit_value(character: char) -> nat {
    if (character as int) < 97 {
        (character as int - 48) as nat
    } else {
        (character as int - 87) as nat
    }
}

/// A written number spells the number, so no two are written alike.
pub proof fn written_is_spelled(value: nat, base: nat)
    requires
        2 <= base <= 16,
    ensures
        spelled(in_base(value, base), base) == value,
        in_base(value, base).len() > 0,
    decreases value,
{
    if value < base {
        let text = in_base(value, base);
        assert(text.drop_last() =~= Seq::<char>::empty());
        assert(spelled(text.drop_last(), base) == 0);
        assert(0 * base == 0);
        assert(digit_value(digit(value)) == value);
    } else {
        vstd::arithmetic::div_mod::lemma_div_decreases(value as int, base as int);
        written_is_spelled(value / base, base);
        let text = in_base(value, base);
        assert(text.drop_last() =~= in_base(value / base, base));
        vstd::arithmetic::div_mod::lemma_fundamental_div_mod(value as int, base as int);
        assert((value / base) * base == base * (value / base)) by (nonlinear_arith);
        vstd::arithmetic::div_mod::lemma_mod_bound(value as int, base as int);
        assert(digit_value(digit(value % base)) == value % base);
    }
}

fn digit_text(value: u128) -> (text: &'static str)
    requires
        value < 16,
    ensures
        text@ == seq![digit(value as nat)],
{
    proof {
        reveal_strlit("0");
        reveal_strlit("1");
        reveal_strlit("2");
        reveal_strlit("3");
        reveal_strlit("4");
        reveal_strlit("5");
        reveal_strlit("6");
        reveal_strlit("7");
        reveal_strlit("8");
        reveal_strlit("9");
        reveal_strlit("a");
        reveal_strlit("b");
        reveal_strlit("c");
        reveal_strlit("d");
        reveal_strlit("e");
        reveal_strlit("f");
    }
    let text: &'static str = match value {
        0 => "0",
        1 => "1",
        2 => "2",
        3 => "3",
        4 => "4",
        5 => "5",
        6 => "6",
        7 => "7",
        8 => "8",
        9 => "9",
        10 => "a",
        11 => "b",
        12 => "c",
        13 => "d",
        14 => "e",
        _ => "f",
    };
    assert(text@ =~= seq![digit(value as nat)]);
    text
}

/// Append a number written in a base.
pub fn push_in_base(out: &mut String, value: u128, base: u128)
    requires
        2 <= base <= 16,
    ensures
        final(out)@ == old(out)@ + in_base(value as nat, base as nat),
    decreases value,
{
    if value >= base {
        proof {
            vstd::arithmetic::div_mod::lemma_div_decreases(value as int, base as int);
        }
        push_in_base(out, value / base, base);
    }
    proof {
        vstd::arithmetic::div_mod::lemma_mod_bound(value as int, base as int);
        if value < base {
            vstd::arithmetic::div_mod::lemma_small_mod(value as nat, base as nat);
        }
    }
    out.append(digit_text(value % base));
    assert(out@ =~= old(out)@ + in_base(value as nat, base as nat));
}

/// Append a number in decimal.
pub fn push_decimal(out: &mut String, value: u128)
    ensures
        final(out)@ == old(out)@ + decimal(value as nat),
{
    push_in_base(out, value, 10);
}

/// Append a number written in a base, filled up with zeros to two digits.
pub fn push_two_digits(out: &mut String, value: u128, base: u128)
    requires
        2 <= base <= 16,
    ensures
        final(out)@ == old(out)@ + padded(in_base(value as nat, base as nat), '0', 2),
{
    if value < base {
        proof {
            reveal_strlit("0");
        }
        out.append("0");
    } else {
        proof {
            lemma_two_digits(value as nat, base as nat);
        }
    }
    push_in_base(out, value, base);
    assert(out@ =~= old(out)@ + padded(in_base(value as nat, base as nat), '0', 2));
}

proof fn lemma_two_digits(value: nat, base: nat)
    requires
        2 <= base <= value,
    ensures
        in_base(value, base).len() >= 2,
{
    vstd::arithmetic::div_mod::lemma_div_decreases(value as int, base as int);
    lemma_written(value / base, base);
}

proof fn lemma_written(value: nat, base: nat)
    ensures
        in_base(value, base).len() >= 1,
{
}

/// A number is written with the digits that it has, the least one last, each
/// from `0` to `9`, and a number below ten with one.
pub proof fn digits_are_written_in_order(value: nat)
    ensures
        value < 10 ==> decimal(value).len() == 1,
        value >= 10 ==> decimal(value).len() == decimal(value / 10).len() + 1 && decimal(
            value,
        ).drop_last() == decimal(value / 10),
        decimal(value).last() as int == '0' as int + value % 10,
{
    if value >= 10 {
        assert(decimal(value).drop_last() =~= decimal(value / 10));
    }
}

/// A number below zero is written with a minus sign before it, and any other
/// without one.
pub proof fn signs_are_written(value: int)
    ensures
        value >= 0 ==> signed_decimal(value) == decimal(value as nat),
        value < 0 ==> signed_decimal(value).len() == decimal((-value) as nat).len() + 1
            && signed_decimal(value)[0] == '-' && signed_decimal(value).skip(1) == decimal(
            (-value) as nat,
        ),
{
    if value < 0 {
        assert(signed_decimal(value).skip(1) =~= decimal((-value) as nat));
    }
}

/// Filling up puts in front what is missing, and nothing where nothing is.
pub proof fn filling_goes_in_front(text: Seq<char>, fill: char, width: nat)
    ensures
        padded(text, fill, width).len() == if text.len() < width {
            width
        } else {
            text.len()
        },
        padded(text, fill, width).skip(padded(text, fill, width).len() - text.len()) == text,
        forall|k: int|
            0 <= k < padded(text, fill, width).len() - text.len() ==> padded(text, fill, width)[k]
                == fill,
{
    let all = padded(text, fill, width);
    assert(all.skip(all.len() - text.len()) =~= text);
}

} // verus!
