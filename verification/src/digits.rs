//! The digit-sum evaluator: the sum of the decimal digits of the absolute
//! value of an integer, as a mathematical definition, an executable trait,
//! and the lemmas the rest of the crate needs about it.

use vstd::prelude::*;

verus! {

/// Sum of the decimal digits of a natural number.
pub open spec fn digit_sum_nat(n: nat) -> nat
    decreases n,
{
    if n == 0 {
        0
    } else {
        n % 10 + digit_sum_nat(n / 10)
    }
}

/// Absolute value of an integer, as a natural number.
pub open spec fn abs_nat(n: int) -> nat {
    if n >= 0 {
        n as nat
    } else {
        (-n) as nat
    }
}

/// Sum of the decimal digits of the absolute value of an integer.
pub open spec fn digit_sum_int(n: int) -> nat {
    digit_sum_nat(abs_nat(n))
}

/// Powers of ten.
pub open spec fn pow10(k: nat) -> nat
    decreases k,
{
    if k == 0 {
        1
    } else {
        10 * pow10((k - 1) as nat)
    }
}

/// The digit sum of a number never exceeds the number itself.
pub proof fn lemma_digit_sum_le_self(n: nat)
    ensures
        digit_sum_nat(n) <= n,
    decreases n,
{
    if n != 0 {
        lemma_digit_sum_le_self(n / 10);
    }
}

/// A number below 10^k has digit sum at most 9 per digit.
pub proof fn lemma_digit_sum_digits_bound(n: nat, k: nat)
    requires
        n < pow10(k),
    ensures
        digit_sum_nat(n) <= 9 * k,
    decreases k,
{
    if k == 0 {
    } else {
        let p = pow10((k - 1) as nat);
        assert(n < 10 * p);
        assert(n / 10 < p) by (nonlinear_arith)
            requires
                n < 10 * p,
                p > 0,
        ;
        lemma_digit_sum_digits_bound(n / 10, (k - 1) as nat);
    }
}

/// The digit sum of an integer equals the digit sum of its negation.
pub proof fn lemma_digit_sum_sign_invariant(n: int)
    ensures
        digit_sum_int(n) == digit_sum_int(-n),
{
}

/// A value whose decimal digit sum can be computed.
pub trait DigitSum {
    /// The digit sum, as a mathematical value.
    spec fn digit_sum_spec(&self) -> nat;

    /// True where the digit sum can be computed without overflow.
    spec fn digit_sum_in_range(&self) -> bool;

    /// Sum of the decimal digits of the absolute value.
    fn digit_sum(&self) -> (r: u32)
        requires
            self.digit_sum_in_range(),
        ensures
            r == self.digit_sum_spec(),
    ;
}

impl DigitSum for i32 {
    open spec fn digit_sum_spec(&self) -> nat {
        digit_sum_int(*self as int)
    }

    open spec fn digit_sum_in_range(&self) -> bool {
        *self != i32::MIN
    }

    fn digit_sum(&self) -> (r: u32) {
        let mut copy: u32 = if *self < 0 {
            (-*self) as u32
        } else {
            *self as u32
        };
        let ghost orig: nat = abs_nat(*self as int);
        let mut sum: u32 = 0;
        proof {
            lemma_digit_sum_le_self(orig);
        }
        while copy != 0
            invariant
                sum + digit_sum_nat(copy as nat) == digit_sum_nat(orig),
                digit_sum_nat(orig) <= u32::MAX,
            decreases copy,
        {
            sum = sum + copy % 10;
            copy = copy / 10;
        }
        sum
    }
}

} // verus!
