//! Binary floating-point readings, held as their bit patterns.
//!
//! Counters, sensors and clocks deliver IEEE 754 numbers. What such a number is,
//! and how two of them compare, is read off their patterns here; the order of
//! the patterns is proved to be the order of the numbers that they encode.
use vstd::arithmetic::div_mod::{lemma_fundamental_div_mod, lemma_fundamental_div_mod_converse};
use vstd::arithmetic::power2::{lemma_pow2_pos, lemma_pow2_unfold, pow2};
use vstd::prelude::*;

verus! {

/// The number that a sign-free pattern encodes, counted in units of the
/// smallest positive number of the format. The lowest `precision` bits are the
/// fraction, the bits above them the exponent field. The pattern of infinity
/// comes out one step above the largest finite number.
pub open spec fn magnitude_value(pattern: nat, precision: nat) -> nat {
    let exponent = pattern / pow2(precision);
    let fraction = pattern % pow2(precision);
    if exponent == 0 {
        fraction
    } else {
        (pow2(precision) + fraction) * pow2((exponent - 1) as nat)
    }
}

proof fn lemma_magnitude_step(pattern: nat, precision: nat)
    ensures
        magnitude_value(pattern, precision) < magnitude_value(pattern + 1, precision),
{
    let p = pow2(precision);
    lemma_pow2_pos(precision);
    let e = pattern / p;
    let f = pattern % p;
    lemma_fundamental_div_mod(pattern as int, p as int);
    assert(f < p);
    if f + 1 < p {
        lemma_fundamental_div_mod_converse((pattern + 1) as int, p as int, e as int, (f + 1) as int);
        if e > 0 {
            let s = pow2((e - 1) as nat);
            lemma_pow2_pos((e - 1) as nat);
            assert((p + f) * s < (p + (f + 1)) * s) by (nonlinear_arith)
                requires
                    s > 0,
            ;
        }
    } else {
        assert(p * e + p == p * (e + 1)) by (nonlinear_arith);
        lemma_fundamental_div_mod_converse((pattern + 1) as int, p as int, (e + 1) as int, 0);
        let s = pow2(e);
        lemma_pow2_pos(e);
        if e > 0 {
            let h = pow2((e - 1) as nat);
            lemma_pow2_pos((e - 1) as nat);
            lemma_pow2_unfold(e);
            assert((p + f) * h < (p + 0) * s) by (nonlinear_arith)
                requires
                    h > 0,
                    s == 2 * h,
                    f + 1 == p,
            ;
        } else {
            assert((p + 0) * s >= p) by (nonlinear_arith)
                requires
                    s > 0,
            ;
        }
    }
}

/// A larger sign-free pattern encodes a larger number.
pub proof fn lemma_magnitude_increases(low: nat, high: nat, precision: nat)
    requires
        low < high,
    ensures
        magnitude_value(low, precision) < magnitude_value(high, precision),
    decreases high,
{
    lemma_magnitude_step((high - 1) as nat, precision);
    if low < high - 1 {
        lemma_magnitude_increases(low, (high - 1) as nat, precision);
    }
}

/// The signed number that a pattern of `2 * half` values encodes: patterns from
/// `half` on are the negatives of the patterns below it.
pub open spec fn signed_value(pattern: nat, half: nat, precision: nat) -> int {
    if pattern < half {
        magnitude_value(pattern, precision) as int
    } else {
        -(magnitude_value((pattern - half) as nat, precision) as int)
    }
}

/// The place of a pattern in the order of the numbers: its sign-free part,
/// negated for the negative numbers.
pub open spec fn rank(pattern: nat, half: nat) -> int {
    if pattern < half {
        pattern as int
    } else {
        half - pattern
    }
}

/// Comparing ranks is comparing the encoded numbers.
pub proof fn lemma_rank_orders(a: nat, b: nat, half: nat, precision: nat)
    requires
        half > 0,
    ensures
        rank(a, half) < rank(b, half) <==> signed_value(a, half, precision) < signed_value(
            b,
            half,
            precision,
        ),
        rank(a, half) == rank(b, half) <==> signed_value(a, half, precision) == signed_value(
            b,
            half,
            precision,
        ),
{
    let ma = if a < half { a } else { (a - half) as nat };
    let mb = if b < half { b } else { (b - half) as nat };
    lemma_magnitude_zero(precision);
    if ma > 0 {
        lemma_magnitude_increases(0, ma, precision);
    }
    if mb > 0 {
        lemma_magnitude_increases(0, mb, precision);
    }
    if ma < mb {
        lemma_magnitude_increases(ma, mb, precision);
    }
    if mb < ma {
        lemma_magnitude_increases(mb, ma, precision);
    }
}

/// The pattern of zero encodes it.
pub proof fn lemma_magnitude_zero(precision: nat)
    ensures
        magnitude_value(0, precision) == 0,
{
    lemma_pow2_pos(precision);
    lemma_fundamental_div_mod_converse(0, pow2(precision) as int, 0, 0);
}

/// A single-precision number. Equality of two `Single`s is equality of the
/// patterns, so the two zeros differ and a NaN equals itself.
#[derive(Clone, Copy, PartialEq, Eq, Structural, Debug)]
pub struct Single {
    pub bits: u32,
}

/// The number one, in the units of `Single::value`.
pub open spec fn single_one() -> int {
    pow2(149) as int
}

impl Single {
    /// Whether the pattern encodes no number.
    pub open spec fn nan(self) -> bool {
        self.bits as nat % 0x8000_0000 > 0x7f80_0000
    }

    /// The encoded number, in units of the smallest positive single.
    pub open spec fn value(self) -> int {
        signed_value(self.bits as nat, 0x8000_0000, 23)
    }

    /// `self > other`, as numbers; nothing is above or below a NaN.
    pub open spec fn above(self, other: Single) -> bool {
        !self.nan() && !other.nan() && self.value() > other.value()
    }

    /// `self >= other`, as numbers; false where either is a NaN.
    pub open spec fn reaches(self, other: Single) -> bool {
        !self.nan() && !other.nan() && self.value() >= other.value()
    }

    /// `self > n`, for a whole number `n`.
    pub open spec fn above_whole(self, n: int) -> bool {
        !self.nan() && self.value() > n * single_one()
    }

    /// `self >= n`, for a whole number `n`.
    pub open spec fn reaches_whole(self, n: int) -> bool {
        !self.nan() && self.value() >= n * single_one()
    }

    /// Whether the number lies between the whole numbers `low` and `high`.
    pub open spec fn within(self, low: int, high: int) -> bool {
        !self.nan() && low * single_one() <= self.value() <= high * single_one()
    }

    /// Whether this is the whole number `n`, without a sign.
    pub open spec fn is_whole(self, n: int) -> bool {
        !self.nan() && self.bits < 0x8000_0000 && self.value() == n * single_one()
    }

    /// The larger of the two; `floor` also in place of a NaN.
    pub open spec fn raised(self, floor: Single) -> Single {
        if self.nan() || floor.above(self) {
            floor
        } else {
            self
        }
    }

    /// The positive zero.
    pub open spec fn nought() -> Single {
        Single { bits: 0 }
    }

    pub fn is_nan(self) -> (r: bool)
        ensures
            r == self.nan(),
            r == (self.bits % 0x8000_0000 > 0x7f80_0000),
    {
        self.bits % 0x8000_0000 > 0x7f80_0000
    }

    fn rank(self) -> (r: i64)
        ensures
            r == rank(self.bits as nat, 0x8000_0000),
    {
        if self.bits < 0x8000_0000 {
            self.bits as i64
        } else {
            0x8000_0000i64 - self.bits as i64
        }
    }

    /// `self > other`.
    pub fn is_above(self, other: Single) -> (r: bool)
        ensures
            r == self.above(other),
            r == (!self.nan() && !other.nan() && self.value() > other.value()),
    {
        proof {
            lemma_rank_orders(other.bits as nat, self.bits as nat, 0x8000_0000, 23);
        }
        !self.is_nan() && !other.is_nan() && self.rank() > other.rank()
    }

    /// `self >= other`.
    pub fn has_reached(self, other: Single) -> (r: bool)
        ensures
            r == self.reaches(other),
            r == (!self.nan() && !other.nan() && self.value() >= other.value()),
    {
        !self.is_nan() && !other.is_nan() && !other.is_above(self)
    }

    /// `self.max(floor)`.
    pub fn at_least(self, floor: Single) -> (r: Single)
        ensures
            r == self.raised(floor),
            self.nan() ==> r == floor,
            !self.nan() && !floor.nan() && self.value() > floor.value() ==> r == self,
            !self.nan() && !floor.nan() && self.value() < floor.value() ==> r == floor,
            !self.nan() && !floor.nan() && self.value() == floor.value() ==> r.value()
                == self.value(),
            !self.nan() && floor.nan() ==> r == self,
    {
        if self.is_nan() || floor.is_above(self) {
            floor
        } else {
            self
        }
    }

    /// The positive zero.
    pub fn zero() -> (r: Single)
        ensures
            r == Single::nought(),
            r.is_whole(0),
    {
        proof {
            lemma_magnitude_zero(23);
        }
        Single { bits: 0 }
    }
}

/// A number has one pattern for each sign, so nothing but the sign of zero is
/// lost in `Single::value`.
pub proof fn value_fixes_the_pattern(x: Single, y: Single)
    requires
        x.value() == y.value(),
    ensures
        x == y || x.value() == 0,
{
    lemma_rank_orders(x.bits as nat, y.bits as nat, 0x8000_0000, 23);
    lemma_magnitude_zero(23);
}

/// A double-precision number; equality as for `Single`.
#[derive(Clone, Copy, PartialEq, Eq, Structural, Debug)]
pub struct Double {
    pub bits: u64,
}

/// The number one, in the units of `Double::value`.
pub open spec fn double_one() -> int {
    pow2(1074) as int
}

impl Double {
    /// Whether the pattern encodes no number.
    pub open spec fn nan(self) -> bool {
        self.bits as nat % 0x8000_0000_0000_0000 > 0x7ff0_0000_0000_0000
    }

    /// The encoded number, in units of the smallest positive double.
    pub open spec fn value(self) -> int {
        signed_value(self.bits as nat, 0x8000_0000_0000_0000, 52)
    }

    /// `self >= other`, as numbers; false where either is a NaN.
    pub open spec fn reaches(self, other: Double) -> bool {
        !self.nan() && !other.nan() && self.value() >= other.value()
    }

    /// The larger of the two; `floor` also in place of a NaN.
    pub open spec fn raised(self, floor: Double) -> Double {
        if floor.reaches(self) || self.nan() {
            floor
        } else {
            self
        }
    }

    /// The positive zero.
    pub open spec fn nought() -> Double {
        Double { bits: 0 }
    }

    pub fn is_nan(self) -> (r: bool)
        ensures
            r == self.nan(),
            r == (self.bits % 0x8000_0000_0000_0000 > 0x7ff0_0000_0000_0000),
    {
        self.bits % 0x8000_0000_0000_0000 > 0x7ff0_0000_0000_0000
    }

    fn rank(self) -> (r: i128)
        ensures
            r == rank(self.bits as nat, 0x8000_0000_0000_0000),
    {
        if self.bits < 0x8000_0000_0000_0000 {
            self.bits as i128
        } else {
            0x8000_0000_0000_0000i128 - self.bits as i128
        }
    }

    /// `self >= other`.
    pub fn has_reached(self, other: Double) -> (r: bool)
        ensures
            r == self.reaches(other),
            r == (!self.nan() && !other.nan() && self.value() >= other.value()),
    {
        proof {
            lemma_rank_orders(self.bits as nat, other.bits as nat, 0x8000_0000_0000_0000, 52);
        }
        !self.is_nan() && !other.is_nan() && self.rank() >= other.rank()
    }

    /// `self.max(floor)`.
    pub fn at_least(self, floor: Double) -> (r: Double)
        ensures
            r == self.raised(floor),
            self.nan() ==> r == floor,
            !self.nan() && !floor.nan() && self.value() > floor.value() ==> r == self,
            !self.nan() && !floor.nan() && self.value() < floor.value() ==> r == floor,
            !self.nan() && !floor.nan() && self.value() == floor.value() ==> r.value()
                == self.value(),
            !self.nan() && floor.nan() ==> r == self,
    {
        if floor.has_reached(self) || self.is_nan() {
            floor
        } else {
            self
        }
    }
}

} // verus!
