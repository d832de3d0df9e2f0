//! Floating-point arithmetic on bit patterns: every result is the number nearest
//! to the exact one.
use crate::number::{
    double_one, lemma_magnitude_zero, magnitude_value, single_one, Double, Single,
};
use crate::rounding::{
    lemma_nearest_is_bounded, lemma_pattern_value, lies_at, nearest_pattern, power, round,
    rounding_keeps_numbers,
};
use vstd::arithmetic::div_mod::lemma_fundamental_div_mod;
use vstd::arithmetic::power2::{
    lemma2_to64, lemma2_to64_rest, lemma_pow2_adds, lemma_pow2_pos, lemma_pow2_strictly_increases,
    lemma_pow2_unfold, pow2,
};
use vstd::prelude::*;

verus! {

/// The pattern of infinity in single precision.
pub const SINGLE_INFINITY: u32 = 0x7f80_0000;

/// The pattern of infinity in double precision.
pub const DOUBLE_INFINITY: u64 = 0x7ff0_0000_0000_0000;

/// The absolute value of a number.
pub open spec fn absolute(v: int) -> nat {
    if v < 0 {
        (-v) as nat
    } else {
        v as nat
    }
}

/// The digits `m` and the place `e` of a sign-free pattern: it encodes
/// `m * 2^e`.
fn unpack(pattern: u64, precision: u32) -> (r: (u64, u32))
    requires
        1 <= precision <= 52,
        pattern < 2047 * pow2(precision as nat),
    ensures
        magnitude_value(pattern as nat, precision as nat) == r.0 * pow2(r.1 as nat),
        r.0 < 2 * pow2(precision as nat),
        r.0 == 0 <==> pattern == 0,
        r.1 <= 2045,
        r.1 > 0 ==> (r.1 + 1) * pow2(precision as nat) <= pattern,
        r.1 > 0 ==> r.0 >= pow2(precision as nat),
{
    proof {
        lemma2_to64();
        lemma2_to64_rest();
        if precision < 52 {
            lemma_pow2_strictly_increases(precision as nat, 52);
        }
        lemma_pow2_pos(precision as nat);
    }
    let p: u64 = power(precision) as u64;
    let exponent: u64 = pattern / p;
    let fraction: u64 = pattern % p;
    proof {
        lemma_fundamental_div_mod(pattern as int, p as int);
        assert(exponent < 2047) by (nonlinear_arith)
            requires
                p * exponent <= pattern,
                pattern < 2047 * p,
                p > 0,
        ;
        assert(exponent * p == p * exponent) by (nonlinear_arith);
        assert(p * 0 == 0) by (nonlinear_arith);
        assert(fraction * pow2(0) == fraction) by (nonlinear_arith)
            requires
                pow2(0) == 1,
        ;
    }
    if exponent == 0 {
        (fraction, 0)
    } else {
        (p + fraction, (exponent - 1) as u32)
    }
}

/// A sum, rounded: whether it is zero, its sign, and its sign-free pattern.
struct Sum {
    zero: bool,
    negative: bool,
    pattern: u64,
}

spec fn signed(negative: bool, m: nat, e: nat) -> int {
    if negative {
        -(m * pow2(e))
    } else {
        (m * pow2(e)) as int
    }
}

spec fn is_sum(r: Sum, v: int, precision: nat, infinity: nat) -> bool {
    &&& r.zero == (v == 0)
    &&& v != 0 ==> r.negative == (v < 0)
    &&& v != 0 ==> r.pattern == nearest_pattern(absolute(v), 1, precision, infinity)
}

proof fn lemma_whole_lies_at(m: nat, e: nat)
    ensures
        lies_at(m * pow2(e), 1, m, e as int, false),
{
    lemma2_to64();
    let q = pow2(e);
    assert((m * q) * 1 == (1 * q) * m) by (nonlinear_arith);
}

/// The sum of two numbers whose places are not too far apart, the first one's
/// not below the second one's.
#[verifier::spinoff_prover]
#[verifier::rlimit(60)]
fn near_sum(
    na: bool,
    ma: u64,
    ea: u32,
    nb: bool,
    mb: u64,
    eb: u32,
    precision: u32,
    infinity: u64,
) -> (r: Sum)
    requires
        eb <= ea <= eb + 64,
        ea <= 2045,
        ma < 0x20_0000_0000_0000,
        mb < 0x20_0000_0000_0000,
        1 <= precision <= 52,
    ensures
        is_sum(
            r,
            signed(na, ma as nat, ea as nat) + signed(nb, mb as nat, eb as nat),
            precision as nat,
            infinity as nat,
        ),
{
    let scale: u128 = power(ea - eb);
    let ghost q = pow2(eb as nat);
    proof {
        lemma2_to64();
        lemma2_to64_rest();
        lemma_pow2_adds((ea - eb) as nat, eb as nat);
        if ea - eb < 64 {
            lemma_pow2_strictly_increases((ea - eb) as nat, 64);
        }
        lemma_pow2_adds(64, 62);
        lemma_pow2_pos(eb as nat);
        assert(ma * scale <= 0x20_0000_0000_0000 * 0x1_0000_0000_0000_0000) by (nonlinear_arith)
            requires
                ma < 0x20_0000_0000_0000,
                scale <= 0x1_0000_0000_0000_0000,
        ;
        assert(ma * (scale * q) == (ma * scale) * q) by (nonlinear_arith);
    }
    let x: u128 = ma as u128 * scale;
    let y: u128 = mb as u128;
    let (m, negative): (u128, bool) = if na == nb {
        (x + y, na)
    } else if x >= y {
        (x - y, na)
    } else {
        (y - x, nb)
    };
    let ghost v = signed(na, ma as nat, ea as nat) + signed(nb, mb as nat, eb as nat);
    proof {
        assert((x + y) * q == x * q + y * q) by (nonlinear_arith);
        assert((x - y) * q == x * q - y * q) by (nonlinear_arith);
        assert((y - x) * q == y * q - x * q) by (nonlinear_arith);
        assert(m * q == 0 <==> m == 0) by (nonlinear_arith)
            requires
                q > 0,
        ;
        assert(m * q >= 0) by (nonlinear_arith);
        lemma_whole_lies_at(m as nat, eb as nat);
    }
    let pattern = round(
        m,
        eb as i32,
        false,
        precision,
        infinity,
        Ghost((m * pow2(eb as nat)) as nat),
        Ghost(1),
    );
    Sum { zero: m == 0, negative, pattern }
}

/// What is far below a number hardly moves it.
proof fn lemma_far(ma: nat, ea: nat, mb: nat, eb: nat, same: bool)
    requires
        eb + 64 < ea,
        0 < ma,
        0 < mb < 0x20_0000_0000_0000,
    ensures
        0 < mb * pow2(eb) < pow2((ea - 8) as nat),
        ma * pow2(ea) == (256 * ma) * pow2((ea - 8) as nat),
        same ==> lies_at(ma * pow2(ea) + mb * pow2(eb), 1, 256 * ma, ea - 8, true),
        !same ==> mb * pow2(eb) < ma * pow2(ea),
        !same ==> lies_at(
            (ma * pow2(ea) - mb * pow2(eb)) as nat,
            1,
            (256 * ma - 1) as nat,
            ea - 8,
            true,
        ),
{
    let g = pow2((ea - 8) as nat);
    let q = pow2(eb);
    lemma2_to64();
    lemma2_to64_rest();
    lemma_pow2_adds(8, (ea - 8) as nat);
    lemma_pow2_adds(53, eb);
    if eb + 53 < ea - 8 {
        lemma_pow2_strictly_increases(eb + 53, (ea - 8) as nat);
    }
    lemma_pow2_pos(eb);
    lemma_pow2_pos((ea - 8) as nat);
    assert(0 < mb * q < 0x20_0000_0000_0000 * q) by (nonlinear_arith)
        requires
            0 < mb < 0x20_0000_0000_0000,
            q > 0,
    ;
    assert(ma * (256 * g) == (256 * ma) * g) by (nonlinear_arith);
    assert((256 * ma) * g == (1 * g) * (256 * ma)) by (nonlinear_arith);
    assert((1 * g) * (256 * ma + 1) == (256 * ma) * g + g) by (nonlinear_arith);
    assert((1 * g) * ((256 * ma - 1) as nat) == (256 * ma) * g - g) by (nonlinear_arith)
        requires
            ma > 0,
    ;
    assert((256 * ma) * g >= g) by (nonlinear_arith)
        requires
            ma > 0,
    ;
}

/// The sum of two numbers whose places are far apart.
#[verifier::spinoff_prover]
#[verifier::rlimit(60)]
fn far_sum(
    na: bool,
    ma: u64,
    ea: u32,
    nb: bool,
    mb: u64,
    eb: u32,
    precision: u32,
    infinity: u64,
) -> (r: Sum)
    requires
        eb + 64 < ea <= 2045,
        pow2(precision as nat) <= ma < 0x20_0000_0000_0000,
        mb < 0x20_0000_0000_0000,
        1 <= precision <= 52,
    ensures
        is_sum(
            r,
            signed(na, ma as nat, ea as nat) + signed(nb, mb as nat, eb as nat),
            precision as nat,
            infinity as nat,
        ),
{
    proof {
        lemma2_to64();
        lemma2_to64_rest();
        lemma_pow2_pos(precision as nat);
        lemma_pow2_pos(ea as nat);
        lemma_pow2_unfold((precision + 1) as nat);
        lemma_pow2_adds(63, 63);
        assert(ma * pow2(ea as nat) > 0) by (nonlinear_arith)
            requires
                ma > 0,
                pow2(ea as nat) > 0,
        ;
        assert(0 * pow2(eb as nat) == 0) by (nonlinear_arith);
    }
    if mb == 0 {
        proof {
            lemma_whole_lies_at(ma as nat, ea as nat);
        }
        let pattern = round(
            ma as u128,
            ea as i32,
            false,
            precision,
            infinity,
            Ghost((ma * pow2(ea as nat)) as nat),
            Ghost(1),
        );
        return Sum { zero: false, negative: na, pattern };
    }
    let ghost a = (ma * pow2(ea as nat)) as nat;
    let ghost b = (mb * pow2(eb as nat)) as nat;
    proof {
        lemma_far(ma as nat, ea as nat, mb as nat, eb as nat, na == nb);
    }
    let wide: u128 = 256 * ma as u128;
    if na == nb {
        let pattern = round(
            wide,
            ea as i32 - 8,
            true,
            precision,
            infinity,
            Ghost(a + b),
            Ghost(1),
        );
        Sum { zero: false, negative: na, pattern }
    } else {
        let pattern = round(
            wide - 1,
            ea as i32 - 8,
            true,
            precision,
            infinity,
            Ghost((a - b) as nat),
            Ghost(1),
        );
        Sum { zero: false, negative: na, pattern }
    }
}

/// The sum of two numbers of one format.
fn sum(
    na: bool,
    a: u64,
    nb: bool,
    b: u64,
    precision: u32,
    infinity: u64,
) -> (r: Sum)
    requires
        1 <= precision <= 52,
        a < 2047 * pow2(precision as nat),
        b < 2047 * pow2(precision as nat),
    ensures
        ({
            let x = magnitude_value(a as nat, precision as nat);
            let y = magnitude_value(b as nat, precision as nat);
            is_sum(
                r,
                (if na { -x } else { x as int }) + (if nb { -y } else { y as int }),
                precision as nat,
                infinity as nat,
            )
        }),
{
    proof {
        lemma2_to64_rest();
        if precision < 52 {
            lemma_pow2_strictly_increases(precision as nat, 52);
        }
    }
    let (ma, ea) = unpack(a, precision);
    let (mb, eb) = unpack(b, precision);
    if ea >= eb {
        if ea - eb <= 64 {
            near_sum(na, ma, ea, nb, mb, eb, precision, infinity)
        } else {
            far_sum(na, ma, ea, nb, mb, eb, precision, infinity)
        }
    } else if eb - ea <= 64 {
        near_sum(nb, mb, eb, na, ma, ea, precision, infinity)
    } else {
        far_sum(nb, mb, eb, na, ma, ea, precision, infinity)
    }
}

impl Single {
    /// Whether the sign is set.
    pub open spec fn negative(self) -> bool {
        self.bits >= 0x8000_0000
    }

    /// The pattern without its sign.
    pub open spec fn unsigned(self) -> nat {
        self.bits as nat % 0x8000_0000
    }

    /// Whether this is an infinity.
    pub open spec fn infinite(self) -> bool {
        self.unsigned() == SINGLE_INFINITY
    }

    /// Whether this is a number, and no infinity.
    pub open spec fn finite(self) -> bool {
        self.unsigned() < SINGLE_INFINITY
    }

    /// The number with this sign and this sign-free pattern.
    pub open spec fn made_of(negative: bool, pattern: nat) -> Single {
        Single {
            bits: (if negative {
                0x8000_0000 + pattern
            } else {
                pattern
            }) as u32,
        }
    }

    /// The number nearest to `n / d`, in the units of `value`.
    pub open spec fn nearest(negative: bool, n: nat, d: nat) -> Single {
        Single::made_of(negative, nearest_pattern(n, d, 23, SINGLE_INFINITY as nat))
    }

    /// What stands for the result of an operation that has none.
    pub open spec fn no_number() -> Single {
        Single { bits: 0x7fc0_0000 }
    }

    /// `self + other`.
    pub open spec fn sum(self, other: Single) -> Single {
        let v = self.value() + other.value();
        if self.nan() || other.nan() {
            Single::no_number()
        } else if self.infinite() {
            if other.infinite() && self != other {
                Single::no_number()
            } else {
                self
            }
        } else if other.infinite() {
            other
        } else if v == 0 {
            Single::made_of(self.negative() && other.negative(), 0)
        } else {
            Single::nearest(v < 0, absolute(v), 1)
        }
    }

    /// `-self`.
    pub open spec fn opposite(self) -> Single {
        Single::made_of(!self.negative(), self.unsigned())
    }

    /// `self - other`.
    pub open spec fn difference(self, other: Single) -> Single {
        self.sum(other.opposite())
    }

    /// `self * other`.
    pub open spec fn product(self, other: Single) -> Single {
        let negative = self.negative() != other.negative();
        if self.nan() || other.nan() {
            Single::no_number()
        } else if self.infinite() || other.infinite() {
            if self.unsigned() == 0 || other.unsigned() == 0 {
                Single::no_number()
            } else {
                Single::made_of(negative, SINGLE_INFINITY as nat)
            }
        } else {
            Single::nearest(
                negative,
                absolute(self.value()) * absolute(other.value()),
                single_one() as nat,
            )
        }
    }

    /// `self / other`.
    pub open spec fn quotient(self, other: Single) -> Single {
        let negative = self.negative() != other.negative();
        if self.nan() || other.nan() || (self.infinite() && other.infinite()) || (self.unsigned()
            == 0 && other.unsigned() == 0) {
            Single::no_number()
        } else if self.infinite() || other.unsigned() == 0 {
            Single::made_of(negative, SINGLE_INFINITY as nat)
        } else if other.infinite() {
            Single::made_of(negative, 0)
        } else {
            Single::nearest(
                negative,
                absolute(self.value()) * single_one() as nat,
                absolute(other.value()),
            )
        }
    }

    /// The single nearest to the fraction `n / d`.
    pub open spec fn fraction(n: nat, d: nat) -> Single {
        Single::nearest(false, n * single_one() as nat, d)
    }

    /// `self` moved into the range of the whole numbers from `low` to `high`; a
    /// NaN stays what it is.
    pub open spec fn clamped(self, low: int, high: int) -> Single {
        if self.nan() {
            self
        } else if self.value() < low * single_one() {
            Single::of_int(low)
        } else if self.value() > high * single_one() {
            Single::of_int(high)
        } else {
            self
        }
    }

    /// The single nearest to the integer `i`.
    pub open spec fn of_int(i: int) -> Single {
        Single::nearest(i < 0, absolute(i) * single_one() as nat, 1)
    }

    fn is_negative(self) -> (r: bool)
        ensures
            r == self.negative(),
    {
        self.bits >= 0x8000_0000
    }

    fn pattern(self) -> (r: u32)
        ensures
            r == self.unsigned(),
    {
        self.bits % 0x8000_0000
    }

    fn with_sign(negative: bool, pattern: u32) -> (r: Single)
        requires
            pattern < 0x8000_0000,
        ensures
            r == Single::made_of(negative, pattern as nat),
    {
        if negative {
            Single { bits: 0x8000_0000 + pattern }
        } else {
            Single { bits: pattern }
        }
    }

    /// `self + other`.
    #[verifier::spinoff_prover]
    #[verifier::rlimit(60)]
    pub fn plus(self, other: Single) -> (r: Single)
        ensures
            r == self.sum(other),
    {
        if self.is_nan() || other.is_nan() {
            return Single { bits: 0x7fc0_0000 };
        }
        if self.pattern() == SINGLE_INFINITY {
            if other.pattern() == SINGLE_INFINITY && self != other {
                return Single { bits: 0x7fc0_0000 };
            }
            return self;
        }
        if other.pattern() == SINGLE_INFINITY {
            return other;
        }
        proof {
            lemma2_to64();
            lemma_nearest_is_bounded(absolute(self.value() + other.value()), 1, 23, 0x7f80_0000);
        }
        let r = sum(
            self.is_negative(),
            self.pattern() as u64,
            other.is_negative(),
            other.pattern() as u64,
            23,
            SINGLE_INFINITY as u64,
        );
        if r.zero {
            Single::with_sign(self.is_negative() && other.is_negative(), 0)
        } else {
            Single::with_sign(r.negative, r.pattern as u32)
        }
    }

    /// `-self`.
    pub fn negated(self) -> (r: Single)
        ensures
            r == self.opposite(),
    {
        Single::with_sign(!self.is_negative(), self.pattern())
    }

    /// `self - other`.
    pub fn minus(self, other: Single) -> (r: Single)
        ensures
            r == self.difference(other),
    {
        self.plus(other.negated())
    }

    /// `self * other`.
    #[verifier::spinoff_prover]
    #[verifier::rlimit(60)]
    pub fn times(self, other: Single) -> (r: Single)
        ensures
            r == self.product(other),
    {
        let negative = self.is_negative() != other.is_negative();
        if self.is_nan() || other.is_nan() {
            return Single { bits: 0x7fc0_0000 };
        }
        if self.pattern() == SINGLE_INFINITY || other.pattern() == SINGLE_INFINITY {
            if self.pattern() == 0 || other.pattern() == 0 {
                return Single { bits: 0x7fc0_0000 };
            }
            return Single::with_sign(negative, SINGLE_INFINITY);
        }
        let ghost n = absolute(self.value()) * absolute(other.value());
        let ghost d = single_one() as nat;
        proof {
            lemma2_to64();
            lemma2_to64_rest();
            lemma_pow2_pos(149);
            lemma_pow2_adds(63, 63);
            lemma_nearest_is_bounded(n, d, 23, 0x7f80_0000);
        }
        let (ma, ea) = unpack(self.pattern() as u64, 23);
        let (mb, eb) = unpack(other.pattern() as u64, 23);
        proof {
            lemma_product_lies_at(ma as nat, ea as nat, mb as nat, eb as nat);
        }
        let pattern = round(
            ma as u128 * mb as u128,
            ea as i32 + eb as i32 - 149,
            false,
            23,
            SINGLE_INFINITY as u64,
            Ghost(n),
            Ghost(d),
        );
        Single::with_sign(negative, pattern as u32)
    }

    /// `self / other`.
    #[verifier::spinoff_prover]
    #[verifier::rlimit(60)]
    pub fn over(self, other: Single) -> (r: Single)
        ensures
            r == self.quotient(other),
    {
        let negative = self.is_negative() != other.is_negative();
        let a = self.pattern();
        let b = other.pattern();
        if self.is_nan() || other.is_nan() || (a == SINGLE_INFINITY && b == SINGLE_INFINITY) || (a
            == 0 && b == 0) {
            return Single { bits: 0x7fc0_0000 };
        }
        if a == SINGLE_INFINITY || b == 0 {
            return Single::with_sign(negative, SINGLE_INFINITY);
        }
        if b == SINGLE_INFINITY {
            return Single::with_sign(negative, 0);
        }
        let ghost n = absolute(self.value()) * single_one() as nat;
        let ghost d = absolute(other.value());
        proof {
            lemma2_to64();
            lemma2_to64_rest();
            lemma_pow2_adds(63, 63);
        }
        let (ma, ea) = unpack(a as u64, 23);
        let (mb, eb) = unpack(b as u64, 23);
        let wide: u128 = ma as u128 * 0x1_0000_0000_0000_0000;
        let m: u128 = wide / mb as u128;
        let rem: u128 = wide % mb as u128;
        proof {
            assert(ma * pow2(ea as nat) >= 0 && mb * pow2(eb as nat) >= 0) by (nonlinear_arith);
            lemma_fundamental_div_mod(wide as int, mb as int);
            lemma_quotient_lies_at(
                ma as nat,
                ea as nat,
                mb as nat,
                eb as nat,
                m as nat,
                rem as nat,
            );
            lemma_nearest_is_bounded(n, d, 23, 0x7f80_0000);
            assert(m <= wide) by (nonlinear_arith)
                requires
                    wide == mb * m + rem,
                    mb >= 1,
                    rem >= 0,
            ;
            if ma > 0 {
                assert(m >= 0x100_0000) by (nonlinear_arith)
                    requires
                        wide == mb * m + rem,
                        rem < mb < 0x100_0000,
                        wide >= 0x1_0000_0000_0000_0000,
                ;
            } else {
                assert(rem == 0) by (nonlinear_arith)
                    requires
                        0 == mb * m + rem,
                        mb >= 1,
                        rem >= 0,
                        m >= 0,
                ;
            }
        }
        let pattern = round(
            m,
            ea as i32 - eb as i32 + 85,
            rem != 0,
            23,
            SINGLE_INFINITY as u64,
            Ghost(n),
            Ghost(d),
        );
        Single::with_sign(negative, pattern as u32)
    }

    /// `i as f32`.
    pub fn from_u64(i: u64) -> (r: Single)
        ensures
            r == Single::of_int(i as int),
    {
        Single::from_magnitude(false, i)
    }

    /// `i as f32`.
    pub fn from_i64(i: i64) -> (r: Single)
        ensures
            r == Single::of_int(i as int),
    {
        if i < 0 {
            Single::from_magnitude(true, (0 - i as i128) as u64)
        } else {
            Single::from_magnitude(false, i as u64)
        }
    }

    /// The decimal fraction `n / d`, as a literal has it.
    #[verifier::spinoff_prover]
    #[verifier::rlimit(60)]
    pub fn ratio(n: u16, d: u16) -> (r: Single)
        requires
            d > 0,
        ensures
            r == Single::fraction(n as nat, d as nat),
    {
        let wide: u128 = n as u128 * 0x1_0000_0000_0000_0000;
        let m: u128 = wide / d as u128;
        let rem: u128 = wide % d as u128;
        let ghost exact = n as nat * single_one() as nat;
        proof {
            lemma2_to64();
            lemma2_to64_rest();
            lemma_pow2_adds(63, 63);
            lemma_fundamental_div_mod(wide as int, d as int);
            lemma_quotient_lies_at(n as nat, 0, d as nat, 0, m as nat, rem as nat);
            assert(n * 1 == n && d * 1 == d);
            lemma_nearest_is_bounded(exact, d as nat, 23, 0x7f80_0000);
            assert(m <= wide) by (nonlinear_arith)
                requires
                    wide == d * m + rem,
                    d >= 1,
                    rem >= 0,
            ;
            if n > 0 {
                assert(m >= 0x100_0000) by (nonlinear_arith)
                    requires
                        wide == d * m + rem,
                        rem < d < 0x100_0000,
                        wide >= 0x1_0000_0000_0000_0000,
                ;
            } else {
                assert(rem == 0) by (nonlinear_arith)
                    requires
                        0 == d * m + rem,
                        d >= 1,
                        rem >= 0,
                        m >= 0,
                ;
            }
        }
        let pattern = round(
            m,
            85,
            rem != 0,
            23,
            SINGLE_INFINITY as u64,
            Ghost(exact),
            Ghost(d as nat),
        );
        Single::with_sign(false, pattern as u32)
    }

    /// A small whole number.
    pub fn whole(n: u8) -> (r: Single)
        ensures
            r == Single::of_int(n as int),
            r.is_whole(n as int),
    {
        proof {
            small_integers_are_exact(n as nat);
        }
        Single::from_u64(n as u64)
    }

    /// `self > n`.
    pub fn is_above_whole(self, n: u8) -> (r: bool)
        ensures
            r == self.above_whole(n as int),
            r == (!self.nan() && self.value() > n * single_one()),
    {
        self.is_above(Single::whole(n))
    }

    /// `self >= n`.
    pub fn has_reached_whole(self, n: u8) -> (r: bool)
        ensures
            r == self.reaches_whole(n as int),
            r == (!self.nan() && self.value() >= n * single_one()),
    {
        self.has_reached(Single::whole(n))
    }

    /// `self.clamp(low, high)`.
    pub fn clamp(self, low: u8, high: u8) -> (r: Single)
        ensures
            r == self.clamped(low as int, high as int),
            self.nan() ==> r == self,
            !self.nan() && low <= high && self.value() < low * single_one() ==> r.value() == low
                * single_one(),
            !self.nan() && low <= high && self.value() > high * single_one() ==> r.value() == high
                * single_one(),
            low * single_one() <= self.value() <= high * single_one() ==> r == self,
    {
        proof {
            lemma_pow2_pos(149);
            assert(low <= high ==> low * single_one() <= high * single_one()) by (nonlinear_arith)
                requires
                    single_one() > 0,
            ;
        }
        let floor = Single::whole(low);
        let ceiling = Single::whole(high);
        if floor.is_above(self) {
            floor
        } else if self.is_above(ceiling) {
            ceiling
        } else {
            self
        }
    }

    fn from_magnitude(negative: bool, i: u64) -> (r: Single)
        ensures
            r == Single::nearest(negative, i as nat * single_one() as nat, 1),
    {
        let ghost n = i as nat * single_one() as nat;
        proof {
            lemma2_to64();
            lemma2_to64_rest();
            lemma_pow2_adds(63, 63);
            lemma_nearest_is_bounded(n, 1, 23, 0x7f80_0000);
            lemma_whole_lies_at(i as nat, 149);
        }
        let pattern = round(
            i as u128,
            149,
            false,
            23,
            SINGLE_INFINITY as u64,
            Ghost(n),
            Ghost(1),
        );
        Single::with_sign(negative, pattern as u32)
    }
}

impl Double {
    /// Whether the sign is set.
    pub open spec fn negative(self) -> bool {
        self.bits >= 0x8000_0000_0000_0000
    }

    /// The pattern without its sign.
    pub open spec fn unsigned(self) -> nat {
        self.bits as nat % 0x8000_0000_0000_0000
    }

    /// Whether this is an infinity.
    pub open spec fn infinite(self) -> bool {
        self.unsigned() == DOUBLE_INFINITY
    }

    /// The number with this sign and this sign-free pattern.
    pub open spec fn made_of(negative: bool, pattern: nat) -> Double {
        Double {
            bits: (if negative {
                0x8000_0000_0000_0000 + pattern
            } else {
                pattern
            }) as u64,
        }
    }

    /// The number nearest to `n / d`, in the units of `value`.
    pub open spec fn nearest(negative: bool, n: nat, d: nat) -> Double {
        Double::made_of(negative, nearest_pattern(n, d, 52, DOUBLE_INFINITY as nat))
    }

    /// What stands for the result of an operation that has none.
    pub open spec fn no_number() -> Double {
        Double { bits: 0x7ff8_0000_0000_0000 }
    }

    /// `self + other`.
    pub open spec fn sum(self, other: Double) -> Double {
        let v = self.value() + other.value();
        if self.nan() || other.nan() {
            Double::no_number()
        } else if self.infinite() {
            if other.infinite() && self != other {
                Double::no_number()
            } else {
                self
            }
        } else if other.infinite() {
            other
        } else if v == 0 {
            Double::made_of(self.negative() && other.negative(), 0)
        } else {
            Double::nearest(v < 0, absolute(v), 1)
        }
    }

    /// `-self`.
    pub open spec fn opposite(self) -> Double {
        Double::made_of(!self.negative(), self.unsigned())
    }

    /// `self - other`.
    pub open spec fn difference(self, other: Double) -> Double {
        self.sum(other.opposite())
    }

    /// The double nearest to the integer `i`.
    pub open spec fn of_int(i: int) -> Double {
        Double::nearest(i < 0, absolute(i) * double_one() as nat, 1)
    }

    /// `self / 1024`.
    pub open spec fn kilos(self) -> Double {
        if self.nan() {
            Double::no_number()
        } else if self.infinite() {
            self
        } else {
            Double::nearest(self.negative(), absolute(self.value()), 1024)
        }
    }

    /// The single nearest to this number. The units of `Single::value` are larger
    /// than those of `Double::value` by the ratio of their ones.
    pub open spec fn narrowed(self) -> Single {
        if self.nan() {
            Single::no_number()
        } else if self.infinite() {
            Single::made_of(self.negative(), SINGLE_INFINITY as nat)
        } else {
            Single::nearest(
                self.negative(),
                absolute(self.value()) * single_one() as nat,
                double_one() as nat,
            )
        }
    }

    fn is_negative(self) -> (r: bool)
        ensures
            r == self.negative(),
    {
        self.bits >= 0x8000_0000_0000_0000
    }

    fn pattern(self) -> (r: u64)
        ensures
            r == self.unsigned(),
    {
        self.bits % 0x8000_0000_0000_0000
    }

    fn with_sign(negative: bool, pattern: u64) -> (r: Double)
        requires
            pattern < 0x8000_0000_0000_0000,
        ensures
            r == Double::made_of(negative, pattern as nat),
    {
        if negative {
            Double { bits: 0x8000_0000_0000_0000 + pattern }
        } else {
            Double { bits: pattern }
        }
    }

    /// `self + other`.
    #[verifier::spinoff_prover]
    #[verifier::rlimit(60)]
    pub fn plus(self, other: Double) -> (r: Double)
        ensures
            r == self.sum(other),
    {
        if self.is_nan() || other.is_nan() {
            return Double { bits: 0x7ff8_0000_0000_0000 };
        }
        if self.pattern() == DOUBLE_INFINITY {
            if other.pattern() == DOUBLE_INFINITY && self != other {
                return Double { bits: 0x7ff8_0000_0000_0000 };
            }
            return self;
        }
        if other.pattern() == DOUBLE_INFINITY {
            return other;
        }
        proof {
            lemma2_to64_rest();
            lemma_nearest_is_bounded(
                absolute(self.value() + other.value()),
                1,
                52,
                DOUBLE_INFINITY as nat,
            );
        }
        let r = sum(
            self.is_negative(),
            self.pattern(),
            other.is_negative(),
            other.pattern(),
            52,
            DOUBLE_INFINITY,
        );
        if r.zero {
            Double::with_sign(self.is_negative() && other.is_negative(), 0)
        } else {
            Double::with_sign(r.negative, r.pattern)
        }
    }

    /// `i as f64`.
    pub fn from_u64(i: u64) -> (r: Double)
        ensures
            r == Double::of_int(i as int),
    {
        let ghost n = i as nat * double_one() as nat;
        proof {
            lemma2_to64();
            lemma2_to64_rest();
            lemma_pow2_adds(63, 63);
            lemma_nearest_is_bounded(n, 1, 52, DOUBLE_INFINITY as nat);
            lemma_whole_lies_at(i as nat, 1074);
        }
        let pattern = round(i as u128, 1074, false, 52, DOUBLE_INFINITY, Ghost(n), Ghost(1));
        Double::with_sign(false, pattern)
    }

    /// `self - other`.
    pub fn minus(self, other: Double) -> (r: Double)
        ensures
            r == self.difference(other),
    {
        self.plus(Double::with_sign(!other.is_negative(), other.pattern()))
    }

    /// `self / 1024.0`.
    pub fn over_1024(self) -> (r: Double)
        ensures
            r == self.kilos(),
    {
        if self.is_nan() {
            return Double { bits: 0x7ff8_0000_0000_0000 };
        }
        if self.pattern() == DOUBLE_INFINITY {
            return self;
        }
        let ghost n = absolute(self.value());
        proof {
            lemma2_to64();
            lemma2_to64_rest();
            lemma_pow2_adds(63, 63);
            lemma_nearest_is_bounded(n, 1024, 52, DOUBLE_INFINITY as nat);
        }
        let (m, e) = unpack(self.pattern(), 52);
        proof {
            assert(m * pow2(e as nat) >= 0) by (nonlinear_arith);
            lemma_scaled_lies_at(m as nat, e as nat, 10);
        }
        let pattern = round(
            m as u128,
            e as i32 - 10,
            false,
            52,
            DOUBLE_INFINITY,
            Ghost(n),
            Ghost(1024),
        );
        Double::with_sign(self.is_negative(), pattern)
    }

    /// `self as f32`.
    pub fn to_single(self) -> (r: Single)
        ensures
            r == self.narrowed(),
    {
        if self.is_nan() {
            return Single { bits: 0x7fc0_0000 };
        }
        if self.pattern() == DOUBLE_INFINITY {
            return Single::with_sign(self.is_negative(), SINGLE_INFINITY);
        }
        let ghost n = absolute(self.value()) * single_one() as nat;
        let ghost d = double_one() as nat;
        proof {
            lemma2_to64();
            lemma2_to64_rest();
            lemma_pow2_adds(63, 63);
            lemma_pow2_pos(1074);
            lemma_nearest_is_bounded(n, d, 23, 0x7f80_0000);
        }
        let (m, e) = unpack(self.pattern(), 52);
        proof {
            let q = pow2(e as nat);
            assert(m * q >= 0) by (nonlinear_arith);
            lemma_pow2_adds(e as nat, 149);
            assert((m * q) * pow2(149) == m * (q * pow2(149))) by (nonlinear_arith);
            lemma_scaled_lies_at(m as nat, (e + 149) as nat, 1074);
        }
        let pattern = round(
            m as u128,
            e as i32 - 925,
            false,
            23,
            SINGLE_INFINITY as u64,
            Ghost(n),
            Ghost(d),
        );
        Single::with_sign(self.is_negative(), pattern as u32)
    }
}

/// The number of bits that `n` takes, if it is not more than `most`.
proof fn lemma_length(n: nat, most: nat) -> (length: nat)
    requires
        0 < n < pow2(most),
    ensures
        0 < length <= most,
        pow2((length - 1) as nat) <= n < pow2(length),
    decreases most,
{
    lemma2_to64();
    if most == 0 {
        0
    } else if n >= pow2((most - 1) as nat) {
        most
    } else {
        lemma_length(n, (most - 1) as nat)
    }
}

/// A whole number of up to 24 bits has a single of its own.
pub proof fn small_integers_are_exact(n: nat)
    requires
        n < 0x100_0000,
    ensures
        Single::of_int(n as int).is_whole(n as int),
{
    let one = single_one() as nat;
    lemma2_to64();
    if n == 0 {
        lemma_magnitude_zero(23);
        rounding_keeps_numbers(1, 23, 0x7f80_0000, 0);
        assert(n * one == 0) by (nonlinear_arith)
            requires
                n == 0,
        ;
        assert(n as int * single_one() == 0) by (nonlinear_arith)
            requires
                n == 0,
        ;
    } else {
        let length = lemma_length(n, 24);
        let shift = (24 - length) as nat;
        let k = (125 + length) as nat;
        let c = pow2(shift);
        let t = n * c;
        let q = k * 0x80_0000 + t;
        lemma_pow2_pos(shift);
        lemma_pow2_adds(length, shift);
        lemma_pow2_adds((length - 1) as nat, shift);
        lemma_pow2_adds(shift, k);
        assert(t < pow2(length) * c) by (nonlinear_arith)
            requires
                t == n * c,
                n < pow2(length),
                c > 0,
        ;
        assert(t >= pow2((length - 1) as nat) * c) by (nonlinear_arith)
            requires
                t == n * c,
                n >= pow2((length - 1) as nat),
        ;
        assert(t * pow2(k) == n * (c * pow2(k))) by (nonlinear_arith)
            requires
                t == n * c,
        ;
        lemma_pattern_value(k, t, 23);
        rounding_keeps_numbers(1, 23, 0x7f80_0000, q);
    }
}

/// `m * 2^e` over `2^c` is `m` at the place `e - c`.
proof fn lemma_scaled_lies_at(m: nat, e: nat, c: nat)
    ensures
        lies_at(m * pow2(e), pow2(c), m, e - c, false),
{
    lemma2_to64();
    if e < c {
        let a = (c - e) as nat;
        lemma_pow2_adds(e, a);
        assert((m * pow2(e)) * pow2(a) == (pow2(c) * 1) * m) by (nonlinear_arith)
            requires
                pow2(e) * pow2(a) == pow2(c),
        ;
    } else {
        let b = (e - c) as nat;
        lemma_pow2_adds(c, b);
        assert((m * pow2(e)) * 1 == (pow2(c) * pow2(b)) * m) by (nonlinear_arith)
            requires
                pow2(c) * pow2(b) == pow2(e),
        ;
    }
}

/// Long multiplication, and the place of its result.
proof fn lemma_product_lies_at(ma: nat, ea: nat, mb: nat, eb: nat)
    requires
        ma < 0x100_0000,
        mb < 0x100_0000,
    ensures
        ma * mb < 0x1_0000_0000_0000,
        ma * pow2(ea) >= 0,
        mb * pow2(eb) >= 0,
        lies_at((ma * pow2(ea)) * (mb * pow2(eb)), pow2(149), ma * mb, ea + eb - 149, false),
{
    let qa = pow2(ea);
    let qb = pow2(eb);
    assert(ma * mb < 0x100_0000 * 0x100_0000) by (nonlinear_arith)
        requires
            ma < 0x100_0000,
            mb < 0x100_0000,
    ;
    lemma_pow2_adds(ea, eb);
    assert((ma * qa) * (mb * qb) == (ma * mb) * (qa * qb)) by (nonlinear_arith);
    assert(ma * qa >= 0 && mb * qb >= 0) by (nonlinear_arith);
    lemma_scaled_lies_at(ma * mb, ea + eb, 149);
}

/// Long division, and the place of its result.
proof fn lemma_quotient_lies_at(ma: nat, ea: nat, mb: nat, eb: nat, m: nat, rem: nat)
    requires
        mb > 0,
        ma * 0x1_0000_0000_0000_0000 == mb * m + rem,
        rem < mb,
    ensures
        mb * pow2(eb) > 0,
        lies_at((ma * pow2(ea)) * pow2(149), mb * pow2(eb), m, ea - eb + 85, rem != 0),
{
    let e = ea - eb + 85;
    let a = if e < 0 { (-e) as nat } else { 0 };
    let b = if e < 0 { 0 } else { e as nat };
    let g = pow2(eb + b);
    lemma2_to64();
    lemma2_to64_rest();
    lemma_pow2_pos(eb);
    lemma_pow2_pos(eb + b);
    lemma_pow2_adds(ea, 149);
    lemma_pow2_adds(ea + 149, a);
    lemma_pow2_adds(64, eb + b);
    lemma_pow2_adds(eb, b);
    let x = ((ma * pow2(ea)) * pow2(149)) * pow2(a);
    let y = (mb * pow2(eb)) * pow2(b);
    assert(mb * pow2(eb) > 0) by (nonlinear_arith)
        requires
            mb > 0,
            pow2(eb) > 0,
    ;
    assert(x == ma * ((pow2(ea) * pow2(149)) * pow2(a))) by (nonlinear_arith)
        requires
            x == ((ma * pow2(ea)) * pow2(149)) * pow2(a),
    ;
    assert(ea + 149 + a == 64 + (eb + b));
    assert(x == ma * (0x1_0000_0000_0000_0000 * g));
    assert(x == (ma * 0x1_0000_0000_0000_0000) * g) by (nonlinear_arith)
        requires
            x == ma * (0x1_0000_0000_0000_0000 * g),
    ;
    assert(y == mb * g) by (nonlinear_arith)
        requires
            y == (mb * pow2(eb)) * pow2(b),
            pow2(eb) * pow2(b) == g,
    ;
    assert((mb * m + rem) * g == (mb * g) * m + rem * g) by (nonlinear_arith);
    assert((mb * g) * (m + 1) == (mb * g) * m + mb * g) by (nonlinear_arith);
    assert(rem * g < mb * g) by (nonlinear_arith)
        requires
            rem < mb,
            g > 0,
    ;
    assert(rem * g == 0 <==> rem == 0) by (nonlinear_arith)
        requires
            g > 0,
    ;
    assert(rem * g >= 0) by (nonlinear_arith);
}

} // verus!
