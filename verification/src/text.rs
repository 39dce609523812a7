//! Numbers as text.

use vstd::prelude::*;

verus! {

/// The character that stands for the digit `d`, at most 15.
pub open spec fn digit(d: nat) -> char {
    "0123456789abcdef"@[d as int]
}

/// `n` in decimal, without leading zeros.
pub open spec fn decimal(n: nat) -> Seq<char>
    decreases n,
{
    if n < 10 {
        seq![digit(n)]
    } else {
        decimal(n / 10).push(digit(n % 10))
    }
}

/// `n` in hexadecimal, in lower case, without leading zeros.
pub open spec fn hexadecimal(n: nat) -> Seq<char>
    decreases n,
{
    if n < 16 {
        seq![digit(n)]
    } else {
        hexadecimal(n / 16).push(digit(n % 16))
    }
}

fn push_digit(out: &mut String, d: usize)
    requires
        d < 16,
    ensures
        final(out)@ == old(out)@.push(digit(d as nat)),
{
    let digits = "0123456789abcdef";
    proof {
        reveal_strlit("0123456789abcdef");
    }
    out.append(digits.substring_ascii(d, d + 1));
    assert(out@ =~= old(out)@.push(digit(d as nat)));
}

/// Writes `n` in decimal at the end of `out`.
pub fn push_decimal(out: &mut String, n: u64)
    ensures
        final(out)@ == old(out)@ + decimal(n as nat),
    decreases n,
{
    if n >= 10 {
        push_decimal(out, n / 10);
    }
    push_digit(out, (n % 10) as usize);
    assert(out@ =~= old(out)@ + decimal(n as nat));
}

/// Writes `n` in hexadecimal at the end of `out`.
pub fn push_hexadecimal(out: &mut String, n: u64)
    ensures
        final(out)@ == old(out)@ + hexadecimal(n as nat),
    decreases n,
{
    if n >= 16 {
        push_hexadecimal(out, n / 16);
    }
    push_digit(out, (n % 16) as usize);
    assert(out@ =~= old(out)@ + hexadecimal(n as nat));
}

/// The number that a digit stands for, whatever the base.
pub open spec fn digit_value(c: char) -> int {
    if c as int <= 57 {
        c as int - 48
    } else {
        c as int - 87
    }
}

/// `c` is one of `0` to `9`.
pub open spec fn is_decimal_digit(c: char) -> bool {
    48 <= c as int <= 57
}

/// `c` is one of `0` to `9` or of `a` to `f`.
pub open spec fn is_hex_digit(c: char) -> bool {
    is_decimal_digit(c) || 97 <= c as int <= 102
}

/// The number that `s` writes in base `base`.
pub open spec fn value_in(s: Seq<char>, base: int) -> int
    decreases s.len(),
{
    if s.len() == 0 {
        0
    } else {
        value_in(s.drop_last(), base) * base + digit_value(s.last())
    }
}

proof fn lemma_digit(d: nat)
    requires
        d < 16,
    ensures
        digit_value(digit(d)) == d,
        d < 10 ==> is_decimal_digit(digit(d)),
        is_hex_digit(digit(d)),
        digit(d) as int == 48 <==> d == 0,
{
    reveal_strlit("0123456789abcdef");
}

/// A number can be read back from its decimal form, which has only digits, at least
/// one, and no zero in front.
pub proof fn law_decimal_is_read_back(n: nat)
    ensures
        decimal(n).len() > 0,
        forall|i: int| 0 <= i < decimal(n).len() ==> is_decimal_digit(#[trigger] decimal(n)[i]),
        value_in(decimal(n), 10) == n,
        decimal(n)[0] as int == 48 ==> decimal(n).len() == 1,
        n > 0 ==> decimal(n)[0] as int != 48,
    decreases n,
{
    reveal_with_fuel(value_in, 2);
    lemma_digit(n % 10);
    if n >= 10 {
        law_decimal_is_read_back(n / 10);
        assert(decimal(n).drop_last() =~= decimal(n / 10));
    }
}

/// A number can be read back from its hexadecimal form, which has only digits, at
/// least one, and no zero in front.
pub proof fn law_hexadecimal_is_read_back(n: nat)
    ensures
        hexadecimal(n).len() > 0,
        forall|i: int| 0 <= i < hexadecimal(n).len() ==> is_hex_digit(#[trigger] hexadecimal(n)[i]),
        value_in(hexadecimal(n), 16) == n,
        hexadecimal(n)[0] as int == 48 ==> hexadecimal(n).len() == 1,
        n > 0 ==> hexadecimal(n)[0] as int != 48,
    decreases n,
{
    reveal_with_fuel(value_in, 2);
    lemma_digit(n % 16);
    if n >= 16 {
        law_hexadecimal_is_read_back(n / 16);
        assert(hexadecimal(n).drop_last() =~= hexadecimal(n / 16));
    }
}

} // verus!
