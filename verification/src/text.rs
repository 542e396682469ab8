//! Decimal rendering of integers, written to match what Rust's `{}`
//! formatting prints for an integer.

use vstd::prelude::*;

verus! {

/// The character of the decimal digit `d` (for `0 <= d < 10`).
pub open spec fn digit_char(d: int) -> char {
    if d == 0 {
        '0'
    } else if d == 1 {
        '1'
    } else if d == 2 {
        '2'
    } else if d == 3 {
        '3'
    } else if d == 4 {
        '4'
    } else if d == 5 {
        '5'
    } else if d == 6 {
        '6'
    } else if d == 7 {
        '7'
    } else if d == 8 {
        '8'
    } else {
        '9'
    }
}

/// The numeric value of a decimal digit character, if it is one.
pub open spec fn digit_value(c: char) -> Option<int> {
    if c == '0' {
        Some(0)
    } else if c == '1' {
        Some(1)
    } else if c == '2' {
        Some(2)
    } else if c == '3' {
        Some(3)
    } else if c == '4' {
        Some(4)
    } else if c == '5' {
        Some(5)
    } else if c == '6' {
        Some(6)
    } else if c == '7' {
        Some(7)
    } else if c == '8' {
        Some(8)
    } else if c == '9' {
        Some(9)
    } else {
        None
    }
}

/// The decimal digits of `n`, most significant first, without leading zeros.
pub open spec fn decimal_nat(n: nat) -> Seq<char>
    decreases n,
{
    if n < 10 {
        seq![digit_char(n as int)]
    } else {
        decimal_nat(n / 10) + seq![digit_char((n % 10) as int)]
    }
}

/// The decimal text of `n`, with a leading `-` when it is negative.
pub open spec fn decimal(n: int) -> Seq<char> {
    if n < 0 {
        seq!['-'] + decimal_nat((-n) as nat)
    } else {
        decimal_nat(n as nat)
    }
}

/// The number that a sequence of decimal digits denotes.
pub open spec fn digits_value(s: Seq<char>) -> int
    decreases s.len(),
{
    if s.len() == 0 {
        0
    } else {
        digits_value(s.drop_last()) * 10 + match digit_value(s.last()) {
            Some(v) => v,
            None => 0,
        }
    }
}

/// Whether every character of `s` is a decimal digit.
pub open spec fn all_digits(s: Seq<char>) -> bool {
    forall|i: int| 0 <= i < s.len() ==> (#[trigger] digit_value(s[i])).is_some()
}

/// The decimal text of a natural number is a non-empty run of digits whose
/// value is the number itself.
pub proof fn lemma_decimal_nat_value(n: nat)
    ensures
        decimal_nat(n).len() >= 1,
        all_digits(decimal_nat(n)),
        digits_value(decimal_nat(n)) == n,
        n >= 10 ==> decimal_nat(n)[0] != '0',
    decreases n,
{
    if n < 10 {
        let s = decimal_nat(n);
        assert(s.drop_last() =~= Seq::<char>::empty());
        assert(digit_value(digit_char(n as int)) == Some(n as int));
        assert(digits_value(s.drop_last()) == 0);
        assert(digits_value(s) == digits_value(s.drop_last()) * 10 + n);
    }
    if n >= 10 {
        lemma_decimal_nat_value(n / 10);
        let s = decimal_nat(n);
        assert(s.drop_last() =~= decimal_nat(n / 10));
        assert(s[0] == decimal_nat(n / 10)[0]);
        assert(s.last() == digit_char((n % 10) as int));
        assert(digit_value(digit_char((n % 10) as int)) == Some((n % 10) as int));
        assert((n / 10) * 10 + n % 10 == n) by (nonlinear_arith);
        assert(digits_value(s) == digits_value(decimal_nat(n / 10)) * 10 + (n % 10) as int);
        if n / 10 < 10 {
            assert(n / 10 >= 1);
        }
    }
}

/// Decimal rendering never produces the same text for two different numbers.
pub proof fn lemma_decimal_injective(a: int, b: int)
    requires
        decimal(a) == decimal(b),
    ensures
        a == b,
{
    if a < 0 {
        lemma_decimal_nat_value((-a) as nat);
    } else {
        lemma_decimal_nat_value(a as nat);
    }
    if b < 0 {
        lemma_decimal_nat_value((-b) as nat);
    } else {
        lemma_decimal_nat_value(b as nat);
    }
    if a < 0 && b >= 0 {
        assert(decimal(a)[0] == '-');
        assert(digit_value(decimal(b)[0]).is_some());
    } else if a >= 0 && b < 0 {
        assert(decimal(b)[0] == '-');
        assert(digit_value(decimal(a)[0]).is_some());
    } else if a < 0 && b < 0 {
        assert(decimal_nat((-a) as nat) =~= decimal(a).subrange(1, decimal(a).len() as int));
        assert(decimal_nat((-b) as nat) =~= decimal(b).subrange(1, decimal(b).len() as int));
    }
}

/// No character of a decimal rendering is `_`.
pub proof fn lemma_decimal_no_underscore(n: int)
    ensures
        !decimal(n).contains('_'),
        decimal(n).len() >= 1,
{
    let m: nat = if n < 0 { (-n) as nat } else { n as nat };
    lemma_decimal_nat_value(m);
    if decimal(n).contains('_') {
        let i = choose|i: int| 0 <= i < decimal(n).len() && decimal(n)[i] == '_';
        if n < 0 {
            if i > 0 {
                assert(decimal(n)[i] == decimal_nat(m)[i - 1]);
                assert(digit_value(decimal_nat(m)[i - 1]).is_some());
            }
        } else {
            assert(digit_value(decimal_nat(m)[i]).is_some());
        }
    }
}

/// The one-character text of the digit `d`.
fn digit_str(d: u128) -> (r: &'static str)
    requires
        d < 10,
    ensures
        r@ == seq![digit_char(d as int)],
{
    proof {
        reveal_strlit("0");
        reveal_strlit("1");
        reveal_strlit("2");
        reveal_strlit("3");
        reveal_strlit("4");
        reveal_strlit("5");
        reveal_strlit("6");
        reveal_strlit("7");
        reveal_strlit("8");
        reveal_strlit("9");
    }
    if d == 0 {
        "0"
    } else if d == 1 {
        "1"
    } else if d == 2 {
        "2"
    } else if d == 3 {
        "3"
    } else if d == 4 {
        "4"
    } else if d == 5 {
        "5"
    } else if d == 6 {
        "6"
    } else if d == 7 {
        "7"
    } else if d == 8 {
        "8"
    } else {
        "9"
    }
}

/// Appends the decimal digits of `n`.
fn push_decimal_nat(out: &mut String, n: u128)
    ensures
        final(out)@ == old(out)@ + decimal_nat(n as nat),
    decreases n,
{
    if n >= 10 {
        push_decimal_nat(out, n / 10);
    }
    out.append(digit_str(n % 10));
    proof {
        if n >= 10 {
            assert(decimal_nat(n as nat) == decimal_nat((n / 10) as nat) + seq![digit_char((n % 10) as int)]);
        }
    }
}

/// Appends the decimal text of `n`, as `{}` formatting would print it.
pub fn push_decimal(out: &mut String, n: isize)
    ensures
        final(out)@ == old(out)@ + decimal(n as int),
{
    let wide: i128 = n as i128;
    if wide < 0 {
        proof {
            reveal_strlit("-");
        }
        out.append("-");
        let m: u128 = (-wide) as u128;
        push_decimal_nat(out, m);
    } else {
        push_decimal_nat(out, wide as u128);
    }
}

} // verus!
