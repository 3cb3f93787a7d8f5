//! Measured values, held as the bit patterns of double precision numbers.
//!
//! Values are ordered and truncated to integers here; no arithmetic is done on them.

use vstd::arithmetic::power2;
use vstd::bits;
use vstd::prelude::*;

verus! {

/// The bit of the sign.
pub const SIGN_BIT: u64 = 0x8000_0000_0000_0000;

/// The magnitude bits of infinity; greater ones belong to no number.
pub const INFINITY_BITS: u64 = 0x7FF0_0000_0000_0000;

/// The bit of the lowest exponent.
pub const EXPONENT_UNIT: u64 = 0x0010_0000_0000_0000;

/// A double precision number, by its bits.
#[derive(Clone, Copy, Debug, PartialEq, Eq, Structural)]
pub struct Number {
    pub bits: u64,
}

impl Number {
    /// The bits without the sign.
    pub open spec fn magnitude(self) -> nat {
        if self.bits >= SIGN_BIT {
            (self.bits - SIGN_BIT) as nat
        } else {
            self.bits as nat
        }
    }

    /// Whether the bits belong to no number.
    pub open spec fn is_nan(self) -> bool {
        self.magnitude() > INFINITY_BITS
    }

    /// The place of a number in the order of all numbers; the two zeros share theirs.
    pub open spec fn rank(self) -> int {
        if self.bits >= SIGN_BIT {
            -(self.magnitude() as int)
        } else {
            self.magnitude() as int
        }
    }

    /// Whether one number is less than another; never true where one is no number.
    pub open spec fn less(self, other: Number) -> bool {
        !self.is_nan() && !other.is_nan() && self.rank() < other.rank()
    }

    /// Whether one number is at most another; never true where one is no number.
    pub open spec fn at_most(self, other: Number) -> bool {
        !self.is_nan() && !other.is_nan() && self.rank() <= other.rank()
    }

    /// The exponent field.
    pub open spec fn exponent(self) -> nat {
        self.magnitude() / EXPONENT_UNIT as nat
    }

    /// The leading one and the fraction field, of a number that is not subnormal.
    pub open spec fn significand(self) -> nat {
        EXPONENT_UNIT as nat + self.magnitude() % EXPONENT_UNIT as nat
    }

    /// The absolute value rounded down to an integer, of a number with an exponent below 1086,
    /// that is, an absolute value below two to the power of 63.
    pub open spec fn whole(self) -> nat {
        let e = self.exponent();
        if e < 1023 {
            0
        } else if e < 1075 {
            self.significand() / power2::pow2((1075 - e) as nat)
        } else {
            self.significand() * power2::pow2((e - 1075) as nat)
        }
    }

    /// The number rounded toward zero to an integer, at the ends of the range where it lies
    /// beyond, and zero where there is no number.
    pub open spec fn truncated(self) -> int {
        let negative = self.bits >= SIGN_BIT;
        if self.is_nan() {
            0
        } else if self.exponent() >= 1086 {
            if negative {
                i64::MIN as int
            } else {
                i64::MAX as int
            }
        } else if negative {
            -(self.whole() as int)
        } else {
            self.whole() as int
        }
    }

    /// Whether the number is zero.
    pub open spec fn is_zero(self) -> bool {
        self.magnitude() == 0
    }

    /// The bits without the sign.
    fn magnitude_bits(self) -> (m: u64)
        ensures
            m == self.magnitude(),
    {
        if self.bits >= SIGN_BIT {
            self.bits - SIGN_BIT
        } else {
            self.bits
        }
    }

    /// Whether the bits belong to no number.
    pub fn not_a_number(self) -> (yes: bool)
        ensures
            yes == self.is_nan(),
    {
        self.magnitude_bits() > INFINITY_BITS
    }

    /// Whether this number is less than the other; never true where one is no number.
    pub fn lt(self, other: Number) -> (yes: bool)
        ensures
            yes == self.less(other),
    {
        if self.not_a_number() || other.not_a_number() {
            return false;
        }
        let a: u64 = self.magnitude_bits();
        let b: u64 = other.magnitude_bits();
        if self.bits >= SIGN_BIT {
            if other.bits >= SIGN_BIT {
                a > b
            } else {
                a > 0 || b > 0
            }
        } else if other.bits >= SIGN_BIT {
            false
        } else {
            a < b
        }
    }

    /// Whether this number is at most the other; never true where one is no number.
    pub fn le(self, other: Number) -> (yes: bool)
        ensures
            yes == self.at_most(other),
    {
        !self.not_a_number() && !other.not_a_number() && !other.lt(self)
    }

    /// Whether the number is zero.
    pub fn zero(self) -> (yes: bool)
        ensures
            yes == self.is_zero(),
    {
        self.magnitude_bits() == 0
    }

    /// The number rounded toward zero to an integer, at the ends of the range where it lies
    /// beyond, and zero where there is no number.
    pub fn trunc(self) -> (n: i64)
        ensures
            n == self.truncated(),
    {
        let m: u64 = self.magnitude_bits();
        if m > INFINITY_BITS {
            return 0;
        }
        let negative = self.bits >= SIGN_BIT;
        let e: u64 = m / EXPONENT_UNIT;
        if e < 1023 {
            return 0;
        }
        if e >= 1086 {
            return if negative {
                i64::MIN
            } else {
                i64::MAX
            };
        }
        let significand: u64 = EXPONENT_UNIT + m % EXPONENT_UNIT;
        let whole: u64 = if e < 1075 {
            let shift: u64 = 1075 - e;
            proof {
                bits::lemma_u64_shr_is_div(significand, shift);
                power2::lemma_pow2_pos(shift as nat);
                vstd::arithmetic::div_mod::lemma_div_is_ordered_by_denominator(
                    significand as int,
                    1,
                    power2::pow2(shift as nat) as int,
                );
            }
            significand >> shift
        } else {
            let shift: u64 = e - 1075;
            proof {
                lemma_whole_fits(significand as nat, shift as nat);
                bits::lemma_u64_shl_is_mul(significand, shift);
            }
            significand << shift
        };
        assert(whole == self.whole());
        assert(whole <= i64::MAX);
        if negative {
            -(whole as i64)
        } else {
            whole as i64
        }
    }
}

impl Number {
    /// A number rounded to an integer fits in 64 bits.
    pub proof fn lemma_truncated_fits(self)
        ensures
            i64::MIN <= self.truncated() <= i64::MAX,
    {
        let e = self.exponent();
        if 1023 <= e < 1075 {
            let shift = (1075 - e) as nat;
            power2::lemma_pow2_pos(shift);
            vstd::arithmetic::div_mod::lemma_div_is_ordered_by_denominator(
                self.significand() as int,
                1,
                power2::pow2(shift) as int,
            );
        } else if 1075 <= e < 1086 {
            lemma_whole_fits(self.significand(), (e - 1075) as nat);
        }
    }
}

/// A significand shifted to an exponent below 1086 stays below two to the power of 63.
proof fn lemma_whole_fits(significand: nat, shift: nat)
    requires
        significand < 2 * EXPONENT_UNIT,
        shift <= 10,
    ensures
        significand * power2::pow2(shift) < SIGN_BIT,
{
    power2::lemma2_to64();
    power2::lemma_pow2_pos(shift);
    if shift < 10 {
        power2::lemma_pow2_strictly_increases(shift, 10);
    }
    assert(power2::pow2(shift) <= 1024);
    assert(significand * power2::pow2(shift) <= significand * 1024) by (nonlinear_arith)
        requires
            power2::pow2(shift) <= 1024,
    ;
}

/// Numbers are ordered: of two numbers one is less than the other, or they rank alike.
pub proof fn law_numbers_are_ordered(a: Number, b: Number, c: Number)
    requires
        !a.is_nan(),
        !b.is_nan(),
        !c.is_nan(),
    ensures
        a.less(b) || b.less(a) || a.rank() == b.rank(),
        !(a.less(b) && b.less(a)),
        a.less(b) && b.less(c) ==> a.less(c),
        a.at_most(b) <==> !b.less(a),
{
}

/// A number between one integer and the next is truncated to the lesser, up to the size at which
/// every number is an integer: it has the integer in the leading bits of its significand and
/// what is left of it in the others.
pub proof fn law_truncation_drops_the_fraction(x: Number, n: nat, k: nat, f: nat)
    requires
        k <= 52,
        power2::pow2(k) <= n < power2::pow2(k + 1),
        f < power2::pow2((52 - k) as nat),
        x.bits == (1022 + k) * 0x0010_0000_0000_0000 + n * power2::pow2((52 - k) as nat) + f,
    ensures
        x.truncated() == n,
{
    let low = power2::pow2((52 - k) as nat);
    let m = n * low + f;
    power2::lemma_pow2_adds(k, (52 - k) as nat);
    power2::lemma_pow2_adds(k + 1, (52 - k) as nat);
    assert(power2::pow2(52) == 0x0010_0000_0000_0000 && power2::pow2(53) == 0x0020_0000_0000_0000)
        by {
        power2::lemma2_to64();
        power2::lemma2_to64_rest();
    }
    assert(power2::pow2(k) * low <= m) by (nonlinear_arith)
        requires
            power2::pow2(k) <= n,
            m == n * low + f,
            low >= 0,
            f >= 0,
    ;
    assert(m < power2::pow2(k + 1) * low) by (nonlinear_arith)
        requires
            n + 1 <= power2::pow2(k + 1),
            m == n * low + f,
            f < low,
    ;
    assert(x.bits == (1023 + k) * 0x0010_0000_0000_0000 + (m - 0x0010_0000_0000_0000));
    assert(x.bits < SIGN_BIT);
    assert(x.exponent() == 1023 + k);
    assert(x.significand() == m);
    assert(m / low == n) by (nonlinear_arith)
        requires
            m == n * low + f,
            0 <= f < low,
    ;
    if k == 52 {
        assert(low == 1) by {
            power2::lemma2_to64();
        }
        assert(power2::pow2(0) == 1) by {
            power2::lemma2_to64();
        }
        assert(n * low == n) by (nonlinear_arith)
            requires
                low == 1,
        ;
    }
}

/// A negative number is truncated to the negative of what its opposite is truncated to.
pub proof fn law_truncation_is_symmetric(x: Number, y: Number)
    requires
        x.bits < SIGN_BIT,
        y.bits == x.bits + 0x8000_0000_0000_0000,
        x.exponent() < 1086,
    ensures
        y.truncated() == -x.truncated(),
        y.rank() == -x.rank(),
{
}

/// What is no number is truncated to zero, and what is too great for an integer to the greatest
/// or the least integer.
pub proof fn law_truncation_stays_within(x: Number)
    ensures
        x.is_nan() ==> x.truncated() == 0,
        !x.is_nan() && x.exponent() >= 1086 && x.bits < SIGN_BIT ==> x.truncated() == i64::MAX,
        !x.is_nan() && x.exponent() >= 1086 && x.bits >= SIGN_BIT ==> x.truncated() == i64::MIN,
        x.exponent() < 1023 ==> x.truncated() == 0,
{
}

/// The infinities are numbers, and what lies beyond them is none.
pub proof fn law_nothing_lies_beyond_infinity(x: Number)
    ensures
        x.is_nan() <==> 0x7FF0_0000_0000_0000 < x.bits < 0x8000_0000_0000_0000 || x.bits
            > 0xFFF0_0000_0000_0000,
        x.is_zero() <==> x.bits == 0 || x.bits == 0x8000_0000_0000_0000,
        !x.is_nan() ==> x.at_most(Number { bits: 0x7FF0_0000_0000_0000 }),
        !x.is_nan() ==> (Number { bits: 0xFFF0_0000_0000_0000 }).at_most(x),
{
}

} // verus!
