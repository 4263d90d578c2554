//! Base-10 digit strings as the exact model of arbitrary-precision values.
//!
//! Big integers are carried as their base-10 text; these spec functions
//! give that text its mathematical meaning.

use vstd::prelude::*;

verus! {

/// A decimal digit character.
pub open spec fn is_digit(c: char) -> bool {
    '0' <= c && c <= '9'
}

/// The numeric value of a digit character.
pub open spec fn digit_val(c: char) -> nat
    recommends
        is_digit(c),
{
    (c as int - '0' as int) as nat
}

/// A non-empty string of decimal digits.
pub open spec fn is_dec_digits(s: Seq<char>) -> bool {
    s.len() > 0 && forall|i: int| 0 <= i < s.len() ==> is_digit(#[trigger] s[i])
}

/// A canonical digit string: no leading zero unless the string is "0".
pub open spec fn is_canon_dec(s: Seq<char>) -> bool {
    is_dec_digits(s) && (s.len() > 1 ==> s[0] != '0')
}

/// The natural number a digit string denotes, most significant digit first.
pub open spec fn nat_of_dec(s: Seq<char>) -> nat
    decreases s.len(),
{
    if s.len() == 0 {
        0
    } else {
        nat_of_dec(s.drop_last()) * 10 + digit_val(s.last())
    }
}

/// A signed integer string: an optional leading minus sign before digits.
pub open spec fn is_int_str(s: Seq<char>) -> bool {
    if s.len() > 0 && s[0] == '-' {
        is_dec_digits(s.skip(1))
    } else {
        is_dec_digits(s)
    }
}

/// The integer a signed digit string denotes.
pub open spec fn int_of_dec(s: Seq<char>) -> int {
    if s.len() > 0 && s[0] == '-' {
        -(nat_of_dec(s.skip(1)) as int)
    } else {
        nat_of_dec(s) as int
    }
}

/// Ten raised to the given power.
pub open spec fn pow10(n: nat) -> nat
    decreases n,
{
    if n == 0 {
        1
    } else {
        10 * pow10((n - 1) as nat)
    }
}

/// Ten to any power is positive.
pub proof fn lemma_pow10_pos(n: nat)
    ensures
        pow10(n) >= 1,
    decreases n,
{
    if n > 0 {
        lemma_pow10_pos((n - 1) as nat);
    }
}

/// Powers of ten multiply when their exponents add.
pub proof fn lemma_pow10_add(a: nat, b: nat)
    ensures
        pow10(a + b) == pow10(a) * pow10(b),
    decreases a,
{
    if a > 0 {
        let a1 = (a - 1) as nat;
        lemma_pow10_add(a1, b);
        assert(pow10(a + b) == 10 * pow10(a1 + b));
        assert(pow10(a) == 10 * pow10(a1));
        assert(pow10(a + b) == pow10(a) * pow10(b)) by (nonlinear_arith)
            requires
                pow10(a1 + b) == pow10(a1) * pow10(b),
                pow10(a + b) == 10 * pow10(a1 + b),
                pow10(a) == 10 * pow10(a1),
        ;
    } else {
        assert(pow10(a) == 1);
        assert(pow10(a + b) == pow10(b));
    }
}

} // verus!
