//! Double-precision numbers by their bits.
//!
//! Prices, sizes and basis points are IEEE 754 doubles. The library compares, orders and
//! selects them; it adds and divides none. A `Double` carries a double as its 64 bits, and
//! the arithmetic stays with the caller.
use vstd::prelude::*;

use vstd::arithmetic::power2::{
    lemma2_to64, lemma2_to64_rest, lemma_pow2_adds, lemma_pow2_pos, lemma_pow2_strictly_increases,
    lemma_pow2_unfold, pow2,
};

verus! {

/// The bits of an IEEE 754 double: one sign bit above eleven bits of exponent and fifty-two
/// bits of fraction.
#[derive(Clone, Copy, Debug)]
pub struct Double {
    pub bits: u64,
}

/// The sign bit.
pub const SIGN: u64 = 0x8000_0000_0000_0000;

/// The bits of positive infinity: the largest magnitude of a number.
pub const INFINITY: u64 = 0x7ff0_0000_0000_0000;

/// The bits of zero.
pub const ZERO: u64 = 0;

/// The bits of one.
pub const ONE: u64 = 0x3ff0_0000_0000_0000;

/// The bits of two.
pub const TWO: u64 = 0x4000_0000_0000_0000;

/// The bits of five.
pub const FIVE: u64 = 0x4014_0000_0000_0000;

/// The bits of the largest finite double.
pub const MAX: u64 = 0x7fef_ffff_ffff_ffff;

/// The bits of the double that stands for no number.
pub const NAN: u64 = 0x7ff8_0000_0000_0000;

impl Double {
    /// The bits below the sign.
    pub open spec fn magnitude(self) -> int {
        if self.bits >= SIGN {
            self.bits - SIGN
        } else {
            self.bits as int
        }
    }

    /// Whether the bits stand for no number.
    pub open spec fn nan(self) -> bool {
        self.magnitude() > INFINITY
    }

    /// Where the number stands among all doubles: the magnitude counted away from zero, to
    /// the side of the sign. Doubles are equal, or one is below the other, as their keys
    /// are; the two zeros share the key zero.
    pub open spec fn key(self) -> int {
        if self.bits >= SIGN {
            -self.magnitude()
        } else {
            self.magnitude()
        }
    }

    /// `self < other`. Nothing is below or above a NaN.
    pub open spec fn below(self, other: Double) -> bool {
        !self.nan() && !other.nan() && self.key() < other.key()
    }

    /// `self == other`. A NaN equals nothing.
    pub open spec fn equals(self, other: Double) -> bool {
        !self.nan() && !other.nan() && self.key() == other.key()
    }

    /// The same number without its sign.
    pub open spec fn absolute(self) -> Double {
        Double { bits: self.magnitude() as u64 }
    }

    /// The smaller of two numbers; the other one where one is a NaN; `self` where they are
    /// equal.
    pub open spec fn smaller(self, other: Double) -> Double {
        if self.nan() || other.below(self) {
            other
        } else {
            self
        }
    }

    fn magnitude_bits(self) -> (r: u64)
        ensures
            r == self.magnitude(),
            r < SIGN,
    {
        if self.bits >= SIGN {
            self.bits - SIGN
        } else {
            self.bits
        }
    }

    /// Whether this is a NaN.
    pub fn is_nan(self) -> (r: bool)
        ensures
            r == self.nan(),
    {
        self.magnitude_bits() > INFINITY
    }

    /// The key by which doubles are ordered.
    pub fn order_key(self) -> (r: i128)
        ensures
            r == self.key(),
    {
        let m: i128 = self.magnitude_bits() as i128;
        if self.bits >= SIGN {
            -m
        } else {
            m
        }
    }

    /// `self < other`, as on doubles.
    pub fn lt(self, other: Double) -> (r: bool)
        ensures
            r == self.below(other),
    {
        !self.is_nan() && !other.is_nan() && self.order_key() < other.order_key()
    }

    /// `self == other`, as on doubles.
    pub fn eq(self, other: Double) -> (r: bool)
        ensures
            r == self.equals(other),
    {
        !self.is_nan() && !other.is_nan() && self.order_key() == other.order_key()
    }

    /// The absolute value.
    pub fn abs(self) -> (r: Double)
        ensures
            r == self.absolute(),
            r.bits < SIGN,
    {
        Double { bits: self.magnitude_bits() }
    }

    /// The smaller of two numbers, as `f64::min` gives it.
    pub fn min(self, other: Double) -> (r: Double)
        ensures
            r == self.smaller(other),
    {
        if self.is_nan() || other.lt(self) {
            other
        } else {
            self
        }
    }
}

// ---- laws ----

/// The number that bits stand for, counted in the smallest positive double, of which one has
/// two to the power 1074: the fraction, with a leading one where the exponent is not zero,
/// times two to the exponent, to the side of the sign. Infinity stands above all others.
pub open spec fn units(x: Double) -> int {
    let e = x.bits / 0x10_0000_0000_0000 % 2048;
    let f = x.bits % 0x10_0000_0000_0000;
    let size = if e == 0 {
        f as int
    } else {
        (0x10_0000_0000_0000 + f) * pow2((e - 1) as nat)
    };
    if x.bits / 0x8000_0000_0000_0000 == 1 {
        -size
    } else {
        size
    }
}

/// Whether bits stand for a number: the exponent is not all ones, or the fraction is zero.
pub open spec fn is_number(x: Double) -> bool {
    x.bits / 0x10_0000_0000_0000 % 2048 < 2047 || x.bits % 0x10_0000_0000_0000 == 0
}

/// The magnitude of bits below the sign, in units.
spec fn size_of(m: int) -> int {
    if m / 0x10_0000_0000_0000 == 0 {
        m % 0x10_0000_0000_0000
    } else {
        (0x10_0000_0000_0000 + m % 0x10_0000_0000_0000) * pow2(
            (m / 0x10_0000_0000_0000 - 1) as nat,
        )
    }
}

proof fn lemma_sizes_ascend(m: int, n: int)
    requires
        0 <= m < n,
    ensures
        0 <= size_of(m) < size_of(n),
{
    let w = 0x10_0000_0000_0000int;
    let e = m / w;
    let f = m % w;
    let g = n / w;
    let h = n % w;
    assert(m == e * w + f && n == g * w + h && 0 <= f < w && 0 <= h < w && e <= g);
    if e > 0 {
        lemma_pow2_pos((e - 1) as nat);
        let p = pow2((e - 1) as nat) as int;
        assert(0 <= (w + f) * p) by (nonlinear_arith)
            requires
                p > 0,
                f >= 0,
                w > 0,
        ;
    }
    if e == g {
        if e > 0 {
            let p = pow2((e - 1) as nat) as int;
            assert((w + f) * p < (w + h) * p) by (nonlinear_arith)
                requires
                    p > 0,
                    f < h,
            ;
        }
    } else {
        let q = pow2((g - 1) as nat) as int;
        lemma_pow2_pos((g - 1) as nat);
        lemma_pow2_pos(e as nat);
        let p = pow2(e as nat) as int;
        if e < g - 1 {
            lemma_pow2_strictly_increases(e as nat, (g - 1) as nat);
        }
        assert(size_of(m) < w * p) by {
            if e > 0 {
                lemma_pow2_unfold(e as nat);
                let b = pow2((e - 1) as nat) as int;
                assert((w + f) * b < w * (2 * b)) by (nonlinear_arith)
                    requires
                        b > 0,
                        f < w,
                ;
            } else {
                lemma2_to64();
            }
        }
        assert(w * p <= (w + h) * q) by (nonlinear_arith)
            requires
                0 < p <= q,
                h >= 0,
                w > 0,
        ;
    }
}

proof fn lemma_units(x: Double)
    ensures
        units(x) == (if x.bits >= SIGN {
            -size_of(x.magnitude())
        } else {
            size_of(x.magnitude())
        }),
        is_number(x) <==> !x.nan(),
        0 <= x.magnitude() < SIGN,
{
    let b = x.bits;
    if b >= 0x8000_0000_0000_0000 {
        let m: u64 = (b - 0x8000_0000_0000_0000) as u64;
        assert(b / 0x10_0000_0000_0000 % 2048 == m / 0x10_0000_0000_0000 && b % 0x10_0000_0000_0000
            == m % 0x10_0000_0000_0000 && b / 0x8000_0000_0000_0000 == 1);
    } else {
        assert(b / 0x10_0000_0000_0000 % 2048 == b / 0x10_0000_0000_0000 && b
            / 0x8000_0000_0000_0000 == 0);
    }
}

proof fn lemma_keys_follow_units(a: Double, b: Double)
    ensures
        a.key() < b.key() <==> units(a) < units(b),
        a.key() == b.key() <==> units(a) == units(b),
{
    lemma_units(a);
    lemma_units(b);
    let m = a.magnitude();
    let n = b.magnitude();
    assert(size_of(0) == 0);
    if m > 0 {
        lemma_sizes_ascend(0, m);
    }
    if n > 0 {
        lemma_sizes_ascend(0, n);
    }
    if m < n {
        lemma_sizes_ascend(m, n);
    }
    if n < m {
        lemma_sizes_ascend(n, m);
    }
}

/// Doubles compare as the numbers that their bits stand for, and a NaN with nothing.
pub proof fn law_doubles_compare_as_numbers(a: Double, b: Double)
    ensures
        a.nan() <==> !is_number(a),
        a.below(b) <==> is_number(a) && is_number(b) && units(a) < units(b),
        a.equals(b) <==> is_number(a) && is_number(b) && units(a) == units(b),
        a.key() < b.key() <==> units(a) < units(b),
        a.key() == b.key() <==> units(a) == units(b),
{
    lemma_units(a);
    lemma_units(b);
    lemma_keys_follow_units(a, b);
}

/// A number without its sign is as far from zero and not negative; what is no number stays
/// none.
pub proof fn law_absolute_is_the_distance_from_zero(x: Double)
    ensures
        units(x.absolute()) == if units(x) < 0 {
            -units(x)
        } else {
            units(x)
        },
        is_number(x.absolute()) <==> is_number(x),
{
    lemma_units(x);
    lemma_units(x.absolute());
    assert(size_of(0) == 0);
    if x.magnitude() > 0 {
        lemma_sizes_ascend(0, x.magnitude());
    }
}

/// The smaller of two is one of them, and neither is below it; where one is no number, it is
/// the other.
pub proof fn law_the_smaller_is_the_least(a: Double, b: Double)
    ensures
        a.smaller(b) == a || a.smaller(b) == b,
        is_number(a) && is_number(b) ==> units(a.smaller(b)) <= units(a) && units(a.smaller(b))
            <= units(b),
        !is_number(a) ==> a.smaller(b) == b,
        !is_number(b) && is_number(a) ==> a.smaller(b) == a,
{
    lemma_units(a);
    lemma_units(b);
    lemma_keys_follow_units(a, b);
}

/// The constants are what they are called: whole numbers of the units of which one has two to
/// the power 1074; a NaN; and the largest of the numbers that are not infinite.
pub proof fn law_constants_are_their_numbers(x: Double)
    ensures
        units(Double { bits: ZERO }) == 0,
        units(Double { bits: ONE }) == pow2(1074),
        units(Double { bits: TWO }) == 2 * pow2(1074),
        units(Double { bits: FIVE }) == 5 * pow2(1074),
        !is_number(Double { bits: NAN }),
        is_number(Double { bits: ONE }) && is_number(Double { bits: TWO }) && is_number(
            Double { bits: FIVE },
        ) && is_number(Double { bits: ZERO }) && is_number(Double { bits: MAX }),
        x.bits / 0x10_0000_0000_0000 % 2048 < 2047 ==> units(x) <= units(Double { bits: MAX }),
{
    lemma2_to64();
    lemma2_to64_rest();
    lemma_pow2_adds(52, 1022);
    lemma_pow2_adds(50, 1024);
    lemma_pow2_unfold(1075);
    lemma_pow2_unfold(1024);
    lemma_pow2_unfold(1023);
    lemma_pow2_adds(52, 1023);
    let p = pow2(1024) as int;
    assert(0x14_0000_0000_0000 * p == 5 * (0x4_0000_0000_0000 * p)) by (nonlinear_arith);
    lemma_units(x);
    let most = Double { bits: MAX };
    lemma_units(most);
    lemma_keys_follow_units(most, x);
}

/// What the comparisons answer: as on the numbers that the bits stand for.
pub proof fn law_comparisons_answer_for_numbers(a: Double, b: Double, lt: bool, eq: bool, nan: bool)
    requires
        call_ensures(Double::lt, (a, b), lt),
        call_ensures(Double::eq, (a, b), eq),
        call_ensures(Double::is_nan, (a,), nan),
    ensures
        lt == (is_number(a) && is_number(b) && units(a) < units(b)),
        eq == (is_number(a) && is_number(b) && units(a) == units(b)),
        nan == !is_number(a),
{
    law_doubles_compare_as_numbers(a, b);
}

/// What `abs`, `min` and `order_key` give: the distance from zero, the smaller, and keys that
/// ascend with the numbers.
pub proof fn law_operations_answer_for_numbers(
    a: Double,
    b: Double,
    abs: Double,
    min: Double,
    j: i128,
    k: i128,
)
    requires
        call_ensures(Double::abs, (a,), abs),
        call_ensures(Double::min, (a, b), min),
        call_ensures(Double::order_key, (a,), j),
        call_ensures(Double::order_key, (b,), k),
    ensures
        units(abs) == if units(a) < 0 {
            -units(a)
        } else {
            units(a)
        },
        is_number(a) && is_number(b) ==> units(min) == if units(b) < units(a) {
            units(b)
        } else {
            units(a)
        },
        !is_number(a) ==> min == b,
        is_number(a) && !is_number(b) ==> min == a,
        j < k <==> units(a) < units(b),
        j == k <==> units(a) == units(b),
{
    law_absolute_is_the_distance_from_zero(a);
    law_the_smaller_is_the_least(a, b);
    law_doubles_compare_as_numbers(a, b);
    law_doubles_compare_as_numbers(b, a);
}

} // verus!
