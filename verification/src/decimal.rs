//! Configuration numbers as decimals, exactly as they are written.

use vstd::prelude::*;

verus! {

/// A number of the configuration file: `digits * 10^exponent` with a sign, or one of the special
/// values that the file format knows.
#[derive(Debug, Clone, Copy, PartialEq, Eq, Structural)]
pub enum Decimal {
    Finite { negative: bool, digits: u64, exponent: i32 },
    Infinite { negative: bool },
    Nan,
}

/// Ten to the power of `n`.
pub open spec fn pow10(n: nat) -> nat
    decreases n,
{
    if n == 0 {
        1
    } else {
        10 * pow10((n - 1) as nat)
    }
}

impl Decimal {
    /// The numerator of the absolute value of a finite number.
    pub open spec fn num(self) -> nat {
        match self {
            Decimal::Finite { digits, exponent, .. } => if exponent > 0 {
                digits as nat * pow10(exponent as nat)
            } else {
                digits as nat
            },
            _ => 0,
        }
    }

    /// The denominator of the absolute value of a finite number.
    pub open spec fn den(self) -> nat {
        match self {
            Decimal::Finite { exponent, .. } => if exponent < 0 {
                pow10((-exponent) as nat)
            } else {
                1
            },
            _ => 1,
        }
    }

    /// The number is greater than zero.
    pub open spec fn positive(self) -> bool {
        match self {
            Decimal::Finite { negative, digits, .. } => !negative && digits > 0,
            Decimal::Infinite { negative } => !negative,
            Decimal::Nan => false,
        }
    }

    /// The number is less than `a / b`, for a positive fraction.
    pub open spec fn less_than(self, a: nat, b: nat) -> bool {
        match self {
            Decimal::Finite { negative, .. } => negative || self.num() * b < a * self.den(),
            Decimal::Infinite { negative } => negative,
            Decimal::Nan => false,
        }
    }

    /// The number is greater than `a / b`, for a positive fraction.
    pub open spec fn greater_than(self, a: nat, b: nat) -> bool {
        match self {
            Decimal::Finite { negative, .. } => !negative && self.num() * b > a * self.den(),
            Decimal::Infinite { negative } => !negative,
            Decimal::Nan => false,
        }
    }

    /// The number lies strictly between zero and one.
    pub open spec fn inside_unit(self) -> bool {
        self.positive() && self.less_than(1, 1)
    }

    /// The number is greater than zero and at most one.
    pub open spec fn upto_unit(self) -> bool {
        self.positive() && !self.greater_than(1, 1)
    }

    pub fn is_inside_unit(&self) -> (r: bool)
        ensures
            r == self.inside_unit(),
    {
        match *self {
            Decimal::Finite { negative, digits, exponent } => {
                if negative || digits == 0 {
                    return false;
                }
                if exponent >= 0 {
                    proof {
                        lemma_pow10_positive(exponent as nat);
                        assert(digits as nat * pow10(exponent as nat) >= 1) by (nonlinear_arith)
                            requires
                                digits >= 1,
                                pow10(exponent as nat) >= 1,
                        ;
                    }
                    return false;
                }
                let scale: u32 = unscale(exponent);
                below_power(digits, scale)
            },
            _ => false,
        }
    }

    pub fn is_upto_unit(&self) -> (r: bool)
        ensures
            r == self.upto_unit(),
    {
        match *self {
            Decimal::Finite { negative, digits, exponent } => {
                if negative || digits == 0 {
                    return false;
                }
                if exponent > 0 {
                    proof {
                        lemma_pow10_positive((exponent - 1) as nat);
                        assert(digits as nat * pow10(exponent as nat) > 1) by (nonlinear_arith)
                            requires
                                digits >= 1,
                                pow10(exponent as nat) >= 10,
                        ;
                    }
                    return false;
                }
                if exponent == 0 {
                    return digits == 1;
                }
                let scale: u32 = unscale(exponent);
                below_power(digits - 1, scale)
            },
            _ => false,
        }
    }
}

/// The number of decimal places that a negative exponent stands for.
pub(crate) fn unscale(exponent: i32) -> (r: u32)
    requires
        exponent < 0,
    ensures
        r == -exponent,
{
    (-(exponent as i64)) as u32
}

pub proof fn lemma_pow10_positive(n: nat)
    ensures
        pow10(n) >= 1,
    decreases n,
{
    if n > 0 {
        lemma_pow10_positive((n - 1) as nat);
    }
}

pub proof fn lemma_pow10_monotone(a: nat, b: nat)
    requires
        a <= b,
    ensures
        pow10(a) <= pow10(b),
    decreases b,
{
    if a < b {
        lemma_pow10_positive((b - 1) as nat);
        lemma_pow10_monotone(a, (b - 1) as nat);
    }
}

pub(crate) proof fn lemma_pow10_values()
    ensures
        pow10(2) == 100,
        pow10(20) == 100_000_000_000_000_000_000,
        pow10(30) == 1_000_000_000_000_000_000_000_000_000_000,
        pow10(38) == 100_000_000_000_000_000_000_000_000_000_000_000_000,
        pow10(39) == 1_000_000_000_000_000_000_000_000_000_000_000_000_000,
{
    reveal_with_fuel(pow10, 40);
}

/// Ten to the power of `n`, for powers that fit.
pub(crate) fn power_of_ten(n: u32) -> (r: u128)
    requires
        n <= 38,
    ensures
        r == pow10(n as nat),
{
    let mut r: u128 = 1;
    let mut i: u32 = 0;
    while i < n
        invariant
            i <= n <= 38,
            r == pow10(i as nat),
        decreases n - i,
    {
        proof {
            lemma_pow10_values();
            lemma_pow10_monotone((i + 1) as nat, 38);
        }
        r = r * 10;
        i += 1;
    }
    r
}

/// Whether a number lies below ten to the power of `scale`.
fn below_power(digits: u64, scale: u32) -> (r: bool)
    ensures
        r == (digits < pow10(scale as nat)),
{
    if scale >= 20 {
        proof {
            lemma_pow10_values();
            lemma_pow10_monotone(20, scale as nat);
        }
        return true;
    }
    (digits as u128) < power_of_ten(scale)
}

/// Powers of ten multiply where their exponents add up, beginning with ten itself.
pub proof fn lemma_pow10_adds(a: nat, b: nat)
    ensures
        pow10(1) == 10,
        pow10(a + b) == pow10(a) * pow10(b),
    decreases a,
{
    reveal_with_fuel(pow10, 2);
    if a == 0 {
        assert(pow10(0) * pow10(b) == pow10(b)) by (nonlinear_arith)
            requires
                pow10(0) == 1,
        ;
    } else {
        let c = (a - 1) as nat;
        lemma_pow10_adds(c, b);
        assert(a + b - 1 == c + b);
        assert(10 * (pow10(c) * pow10(b)) == (10 * pow10(c)) * pow10(b)) by (nonlinear_arith);
    }
}

/// A number lies inside the unit exactly when it is positive and its digits are fewer than the
/// places behind the point can hold, and up to the unit when it may also be one. Nothing that is
/// not a finite number does.
pub proof fn lemma_unit_ranges(negative: bool, digits: u64, exponent: i32)
    ensures
        ({
            let d = Decimal::Finite { negative, digits, exponent };
            &&& d.inside_unit() <==> !negative && digits > 0 && exponent < 0 && digits < pow10(
                (-exponent) as nat,
            )
            &&& d.upto_unit() <==> !negative && digits > 0 && exponent <= 0 && digits <= pow10(
                (-exponent) as nat,
            )
        }),
        !Decimal::Nan.inside_unit() && !Decimal::Nan.upto_unit(),
        !(Decimal::Infinite { negative }).inside_unit(),
        !(Decimal::Infinite { negative }).upto_unit(),
{
    if exponent > 0 {
        lemma_pow10_positive((exponent - 1) as nat);
        if digits >= 1 {
            assert(digits as nat * pow10(exponent as nat) >= 10) by (nonlinear_arith)
                requires
                    digits >= 1,
                    pow10(exponent as nat) >= 10,
            ;
        }
    }
}

} // verus!
