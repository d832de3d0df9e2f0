//! How near the results of the arithmetic are to the true ones.
//!
//! Every law bounds a result by one part in 2^23 of the true value, and the smallest
//! number above zero. Values are counted in the units of `Single::value`, in which
//! `single_one()` is one.
use crate::arithmetic::{absolute, small_integers_are_exact, DOUBLE_INFINITY, SINGLE_INFINITY};
use crate::bounds::{integers_are_finite, rounded_result_is_a_number};
use crate::number::{
    double_one, lemma_magnitude_increases, lemma_magnitude_zero, magnitude_value, single_one,
    Double, Single,
};
use crate::rounding::{
    lemma_nearest_is_bounded, lemma_pattern_value, nearest_pattern, rounding_error_is_small,
    rounding_finds_the_nearest, rounding_keeps_order,
};
use vstd::arithmetic::power2::{
    lemma2_to64, lemma2_to64_rest, lemma_pow2_adds, lemma_pow2_pos, lemma_pow2_strictly_increases,
    pow2,
};
use vstd::prelude::*;

verus! {

/// How far two values lie apart.
pub open spec fn apart(a: int, b: int) -> int {
    if a < b {
        b - a
    } else {
        a - b
    }
}

/// Two values lie apart by what has to be added to the smaller one to get the larger.
pub proof fn distance_makes_up_the_difference(a: int, b: int)
    ensures
        a <= b ==> a + apart(a, b) == b,
        b <= a ==> b + apart(a, b) == a,
{
}

/// The value that stands for infinity, as a power of two.
pub proof fn lemma_infinity()
    ensures
        magnitude_value(SINGLE_INFINITY as nat, 23) == pow2(277),
{
    lemma2_to64();
    lemma_pow2_adds(23, 254);
    lemma_pattern_value(254, 0x80_0000, 23);
}

/// What is below infinity is finite.
pub proof fn lemma_below_infinity(x: Single)
    requires
        !x.nan(),
        apart(x.value(), 0) < pow2(277),
    ensures
        x.finite(),
{
    lemma_infinity();
}

/// A finite number is below infinity.
pub proof fn lemma_finite(x: Single)
    requires
        x.finite(),
    ensures
        apart(x.value(), 0) < pow2(277),
{
    lemma_infinity();
    lemma_magnitude_increases(x.unsigned(), SINGLE_INFINITY as nat, 23);
}

/// A rounded result is near to `n / d`.
pub proof fn lemma_rounded_is_near(negative: bool, n: nat, d: nat)
    requires
        d > 0,
        n <= d * pow2(277),
    ensures
        ({
            let r = Single::nearest(negative, n, d);
            &&& !r.nan()
            &&& negative ==> r.value() <= 0
            &&& !negative ==> r.value() >= 0
            &&& 0x80_0000 * apart(apart(r.value(), 0) * d, n as int) <= n + 0x80_0000 * d
        }),
{
    let inf = SINGLE_INFINITY as nat;
    let m = magnitude_value(nearest_pattern(n, d, 23, inf), 23);
    lemma2_to64();
    lemma_infinity();
    rounded_result_is_a_number(negative, n, d);
    rounding_error_is_small(n, d, 23, inf);
    assert(m * d == d * m) by (nonlinear_arith);
    let r = d * m;
    assert(apart(Single::nearest(negative, n, d).value(), 0) == m);
    assert(apart(Single::nearest(negative, n, d).value(), 0) * d == r);
    assert(0x80_0000 * r <= 0x80_0001 * n + 0x80_0000 * d);
    assert(0x80_0000 * n <= 0x80_0000 * r + n + 0x80_0000 * d);
}

/// The sum of two numbers is near to the true one, and on the same side of zero.
pub proof fn sum_is_near(a: Single, b: Single)
    requires
        a.finite(),
        b.finite(),
        apart(a.value() + b.value(), 0) <= pow2(277),
    ensures
        ({
            let v = a.value() + b.value();
            let r = a.sum(b).value();
            &&& 0x80_0000 * apart(r, v) <= apart(v, 0) + 0x80_0000
            &&& v >= 0 ==> r >= 0
            &&& v <= 0 ==> r <= 0
        }),
        !a.sum(b).nan(),
{
    let v = a.value() + b.value();
    lemma_magnitude_zero(23);
    if v != 0 {
        lemma_rounded_is_near(v < 0, absolute(v), 1);
    }
}

/// The opposite of a number has the opposite value.
pub proof fn opposite_is_exact(a: Single)
    ensures
        a.opposite().value() == -a.value(),
        a.opposite().finite() == a.finite(),
        a.opposite().nan() == a.nan(),
        a.opposite().infinite() == a.infinite(),
{
}

/// The difference of two numbers is near to the true one, and on the same side of
/// zero.
pub proof fn difference_is_near(a: Single, b: Single)
    requires
        a.finite(),
        b.finite(),
        apart(a.value(), b.value()) <= pow2(277),
    ensures
        ({
            let v = a.value() - b.value();
            let r = a.difference(b).value();
            &&& 0x80_0000 * apart(r, v) <= apart(v, 0) + 0x80_0000
            &&& v >= 0 ==> r >= 0
            &&& v <= 0 ==> r <= 0
        }),
        !a.difference(b).nan(),
{
    opposite_is_exact(b);
    sum_is_near(a, b.opposite());
}

/// The product of two numbers that are not below zero is near to the true one.
pub proof fn product_is_near(a: Single, b: Single)
    requires
        a.finite(),
        b.finite(),
        a.value() >= 0,
        b.value() >= 0,
        a.value() * b.value() <= single_one() * pow2(277),
    ensures
        ({
            let exact = a.value() * b.value();
            let r = a.product(b).value();
            &&& 0x80_0000 * apart(r * single_one(), exact) <= exact + 0x80_0000 * single_one()
            &&& r >= 0
        }),
        !a.product(b).nan(),
{
    let one = single_one() as nat;
    let n = absolute(a.value()) * absolute(b.value());
    let negative = a.negative() != b.negative();
    lemma_pow2_pos(149);
    lemma_magnitude_zero(23);
    lemma_rounded_is_near(negative, n, one);
    if negative {
        lemma_negative_zero(a);
        lemma_negative_zero(b);
        assert(n == 0) by (nonlinear_arith)
            requires
                n == absolute(a.value()) * absolute(b.value()),
                absolute(a.value()) == 0 || absolute(b.value()) == 0,
        ;
        lemma_nothing(negative, one);
    }
}

/// A number that is not below zero, and has a sign, is zero.
proof fn lemma_negative_zero(x: Single)
    requires
        x.value() >= 0,
    ensures
        x.negative() ==> x.value() == 0,
{
    lemma_magnitude_zero(23);
}

proof fn lemma_nothing(negative: bool, d: nat)
    requires
        d > 0,
    ensures
        Single::nearest(negative, 0, d).value() == 0,
{
    lemma_magnitude_zero(23);
    assert(d * 0 == 0) by (nonlinear_arith);
    crate::rounding::rounding_stops_at_numbers(0, d, 23, SINGLE_INFINITY as nat, 0);
    rounded_result_is_a_number(negative, 0, d);
}

/// The opposite of one number makes the product the opposite.
pub proof fn opposites_move_out_of_products(a: Single, b: Single)
    requires
        !a.product(b).nan(),
    ensures
        a.opposite().product(b) == a.product(b).opposite(),
{
    let n = absolute(a.value()) * absolute(b.value());
    let p = nearest_pattern(n, single_one() as nat, 23, SINGLE_INFINITY as nat);
    lemma_pow2_pos(149);
    lemma_nearest_is_bounded(n, single_one() as nat, 23, SINGLE_INFINITY as nat);
    assert(a.opposite().unsigned() == a.unsigned() && a.opposite().negative() != a.negative());
    assert(absolute(a.opposite().value()) == absolute(a.value()));
    assert(Single::made_of(true, p).opposite() == Single::made_of(false, p));
    assert(Single::made_of(false, p).opposite() == Single::made_of(true, p));
}

/// The opposite of the number that is divided makes the quotient the opposite.
pub proof fn opposites_move_out_of_quotients(a: Single, b: Single)
    requires
        !a.quotient(b).nan(),
    ensures
        a.opposite().quotient(b) == a.quotient(b).opposite(),
{
    let n = absolute(a.value()) * single_one() as nat;
    let d = absolute(b.value());
    let p = nearest_pattern(n, d, 23, SINGLE_INFINITY as nat);
    assert(a.opposite().unsigned() == a.unsigned() && a.opposite().negative() != a.negative());
    assert(absolute(a.opposite().value()) == absolute(a.value()));
    if b.finite() && b.unsigned() > 0 {
        lemma_magnitude_zero(23);
        lemma_magnitude_increases(0, b.unsigned(), 23);
        lemma_nearest_is_bounded(n, d, 23, SINGLE_INFINITY as nat);
    }
    assert(p <= SINGLE_INFINITY ==> Single::made_of(true, p).opposite() == Single::made_of(
        false,
        p,
    ) && Single::made_of(false, p).opposite() == Single::made_of(true, p));
}

/// Sums and products do not depend on the order of their numbers.
pub proof fn sums_and_products_commute(a: Single, b: Single)
    ensures
        a.sum(b) == b.sum(a),
        a.product(b) == b.product(a),
{
    assert(absolute(a.value()) * absolute(b.value()) == absolute(b.value()) * absolute(a.value()))
        by (nonlinear_arith);
}

/// What is no number stays none, and so do the operations that have no result:
/// opposite infinities, nothing times infinity, nothing over nothing and infinity over
/// infinity. An infinity outweighs every finite number.
pub proof fn infinities_and_no_numbers(a: Single, b: Single)
    ensures
        a.nan() || b.nan() ==> a.sum(b).nan() && a.product(b).nan() && a.quotient(b).nan(),
        a.infinite() && b.finite() ==> a.sum(b) == a && b.quotient(a).unsigned() == 0
            && a.quotient(b).infinite(),
        a.infinite() && b == a.opposite() ==> a.sum(b).nan(),
        a.infinite() && b.unsigned() == 0 ==> a.product(b).nan(),
        a.infinite() && b.infinite() ==> a.quotient(b).nan() && a.product(b).infinite(),
        a.unsigned() == 0 && b.unsigned() == 0 ==> a.quotient(b).nan(),
        a.finite() && a.unsigned() != 0 && b.unsigned() == 0 ==> a.quotient(b).infinite(),
{
}

/// A number moved into a range stays where it is if it lies in the range, and comes to
/// the nearer end of the range if it does not.
pub proof fn clamping_moves_no_further_than_needed(x: Single, low: nat, high: nat)
    requires
        low <= high < 0x100_0000,
        !x.nan(),
    ensures
        low * single_one() <= x.value() <= high * single_one() ==> x.clamped(
            low as int,
            high as int,
        ) == x,
        x.value() < low * single_one() ==> x.clamped(low as int, high as int).value() == low
            * single_one(),
        x.value() > high * single_one() ==> x.clamped(low as int, high as int).value() == high
            * single_one(),
{
    lemma_pow2_pos(149);
    small_integers_are_exact(low);
    small_integers_are_exact(high);
    assert(low * single_one() <= high * single_one()) by (nonlinear_arith)
        requires
            low <= high,
            single_one() > 0,
    ;
}

/// A number raised to a floor is the larger of the two.
pub proof fn raising_gives_the_larger(x: Single, floor: Single)
    requires
        !floor.nan(),
    ensures
        x.raised(floor) == x || x.raised(floor) == floor,
        !x.raised(floor).nan(),
        x.raised(floor).value() >= floor.value(),
        !x.nan() ==> x.raised(floor).value() >= x.value(),
{
}

/// The quotient of a number that is not below zero by one above it is near to the
/// true one.
pub proof fn quotient_is_near(a: Single, b: Single)
    requires
        a.finite(),
        b.finite(),
        a.value() >= 0,
        b.value() > 0,
        a.value() * single_one() <= b.value() * pow2(277),
    ensures
        ({
            let exact = a.value() * single_one();
            let r = a.quotient(b).value();
            &&& 0x80_0000 * apart(r * b.value(), exact) <= exact + 0x80_0000 * b.value()
            &&& r >= 0
        }),
        !a.quotient(b).nan(),
{
    let n = absolute(a.value()) * single_one() as nat;
    let d = absolute(b.value());
    let negative = a.negative() != b.negative();
    lemma_pow2_pos(149);
    lemma_magnitude_zero(23);
    lemma_negative_zero(b);
    lemma_rounded_is_near(negative, n, d);
    if negative {
        lemma_negative_zero(a);
        assert(n == 0) by (nonlinear_arith)
            requires
                n == absolute(a.value()) * single_one() as nat,
                absolute(a.value()) == 0,
        ;
        lemma_nothing(negative, d);
    }
}

/// An integer becomes a number near to it; below 2^24 it becomes that number.
pub proof fn integer_is_near(i: int)
    requires
        -0x1_0000_0000_0000_0000 <= i <= 0x1_0000_0000_0000_0000,
    ensures
        ({
            let r = Single::of_int(i).value();
            &&& 0x80_0000 * apart(r, i * single_one()) <= 2 * apart(i * single_one(), 0)
            &&& i >= 0 ==> r >= 0
            &&& i <= 0 ==> r <= 0
            &&& 0 <= i < 0x100_0000 ==> r == i * single_one()
        }),
        Single::of_int(i).finite(),
{
    let one = single_one() as nat;
    let n = absolute(i) * one;
    lemma2_to64();
    lemma_pow2_pos(149);
    lemma_pow2_adds(64, 149);
    lemma_pow2_strictly_increases(213, 277);
    lemma_pow2_strictly_increases(64, 149);
    integers_are_finite(i);
    assert(n <= 0x1_0000_0000_0000_0000 * one && (i == 0 || n >= one) && apart(
        i * single_one(),
        0,
    ) == n && (i >= 0 ==> i * single_one() == n) && (i < 0 ==> i * single_one() == -n))
        by (nonlinear_arith)
        requires
            n == absolute(i) * one,
            one == single_one(),
            one > 0,
            -0x1_0000_0000_0000_0000 <= i <= 0x1_0000_0000_0000_0000,
    ;
    lemma_rounded_is_near(i < 0, n, 1);
    if 0 <= i < 0x100_0000 {
        small_integers_are_exact(i as nat);
    }
    if i == 0 {
        small_integers_are_exact(0);
    }
}

/// A fraction of two integers is near to the true one.
pub proof fn fraction_is_near(n: nat, d: nat)
    requires
        n < 0x1_0000,
        0 < d < 0x1_0000,
    ensures
        ({
            let r = Single::fraction(n, d).value();
            &&& 0x80_0000 * apart(r * d, n * single_one()) <= n * single_one() + 0x80_0000 * d
            &&& r >= 0
        }),
        !Single::fraction(n, d).nan(),
{
    let one = single_one() as nat;
    let exact = n * one;
    lemma2_to64();
    lemma_pow2_pos(149);
    lemma_pow2_adds(16, 149);
    lemma_pow2_strictly_increases(165, 277);
    assert(exact <= 0x1_0000 * one) by (nonlinear_arith)
        requires
            exact == n * one,
            n < 0x1_0000,
    ;
    assert(pow2(277) <= d * pow2(277)) by (nonlinear_arith)
        requires
            d >= 1,
    ;
    lemma_rounded_is_near(false, exact, d);
}

/// Larger integers, of either sign, become larger numbers.
pub proof fn integers_keep_order(i: int, j: int)
    requires
        -0x1_0000_0000_0000_0000 <= i <= j <= 0x1_0000_0000_0000_0000,
    ensures
        Single::of_int(i).value() <= Single::of_int(j).value(),
{
    let one = single_one() as nat;
    integer_is_near(i);
    integer_is_near(j);
    if i >= 0 {
        lemma_rounding_keeps_order(absolute(i) * one, absolute(j) * one);
        assert(absolute(i) * one <= absolute(j) * one) by (nonlinear_arith)
            requires
                absolute(i) <= absolute(j),
        ;
    } else if j < 0 {
        lemma_rounding_keeps_order(absolute(j) * one, absolute(i) * one);
        assert(absolute(j) * one <= absolute(i) * one) by (nonlinear_arith)
            requires
                absolute(j) <= absolute(i),
        ;
    }
}

proof fn lemma_rounding_keeps_order(m: nat, n: nat)
    ensures
        m <= n ==> magnitude_value(
            nearest_pattern(m, 1, 23, SINGLE_INFINITY as nat),
            23,
        ) <= magnitude_value(nearest_pattern(n, 1, 23, SINGLE_INFINITY as nat), 23),
        Single::nearest(false, m, 1).value() == magnitude_value(
            nearest_pattern(m, 1, 23, SINGLE_INFINITY as nat),
            23,
        ),
        Single::nearest(false, n, 1).value() == magnitude_value(
            nearest_pattern(n, 1, 23, SINGLE_INFINITY as nat),
            23,
        ),
        Single::nearest(true, m, 1).value() == -magnitude_value(
            nearest_pattern(m, 1, 23, SINGLE_INFINITY as nat),
            23,
        ),
        Single::nearest(true, n, 1).value() == -magnitude_value(
            nearest_pattern(n, 1, 23, SINGLE_INFINITY as nat),
            23,
        ),
{
    let inf = SINGLE_INFINITY as nat;
    rounded_result_is_a_number(false, m, 1);
    rounded_result_is_a_number(false, n, 1);
    rounded_result_is_a_number(true, m, 1);
    rounded_result_is_a_number(true, n, 1);
    if m <= n {
        rounding_keeps_order(m, 1, n, 1, 23, inf);
        crate::bounds::lemma_ordered(
            nearest_pattern(m, 1, 23, inf),
            nearest_pattern(n, 1, 23, inf),
        );
    }
}

/// Sums keep the order of their second number, whatever the signs.
pub proof fn sum_keeps_order(a: Single, b: Single, c: Single)
    requires
        a.finite(),
        b.finite(),
        c.finite(),
        b.value() <= c.value(),
    ensures
        a.sum(b).value() <= a.sum(c).value(),
        !a.sum(b).nan(),
        !a.sum(c).nan(),
{
    let v = a.value() + b.value();
    let w = a.value() + c.value();
    lemma_magnitude_zero(23);
    lemma_rounding_keeps_order(absolute(v), absolute(w));
    lemma_rounding_keeps_order(absolute(w), absolute(v));
    rounded_result_is_a_number(v < 0, absolute(v), 1);
    rounded_result_is_a_number(w < 0, absolute(w), 1);
}

/// No number is nearer to `n / d`, of the sign asked for, than the one that it is
/// rounded to.
proof fn lemma_no_number_is_nearer(negative: bool, n: nat, d: nat, other: Single)
    requires
        d > 0,
        n <= d * pow2(277),
        !other.nan(),
    ensures
        ({
            let r = Single::nearest(negative, n, d).value();
            let v = if negative {
                -n
            } else {
                n as int
            };
            apart(r * d, v) <= apart(other.value() * d, v)
        }),
{
    let inf = SINGLE_INFINITY as nat;
    let r = Single::nearest(negative, n, d).value();
    let m = magnitude_value(nearest_pattern(n, d, 23, inf), 23);
    let o = magnitude_value(other.unsigned(), 23);
    lemma_infinity();
    lemma_magnitude_zero(23);
    rounded_result_is_a_number(negative, n, d);
    rounding_finds_the_nearest(n, d, 23, inf, other.unsigned());
    rounding_finds_the_nearest(n, d, 23, inf, 0);
    let w = other.value();
    assert(w == o || w == -o);
    assert(r == m || r == -m);
    assert(d * 0 == 0 && m * d == d * m && (-m) * d == -(d * m) && o * d == d * o && (-o) * d == -(d
        * o) && d * o >= 0) by (nonlinear_arith);
}

/// The sum of two numbers is the nearest there is to the true one.
pub proof fn sum_is_the_nearest(a: Single, b: Single, other: Single)
    requires
        a.finite(),
        b.finite(),
        apart(a.value() + b.value(), 0) <= pow2(277),
        !other.nan(),
    ensures
        apart(a.sum(b).value(), a.value() + b.value()) <= apart(
            other.value(),
            a.value() + b.value(),
        ),
{
    let v = a.value() + b.value();
    lemma_magnitude_zero(23);
    if v != 0 {
        lemma_no_number_is_nearer(v < 0, absolute(v), 1, other);
    }
}

/// The product of two numbers is the nearest there is to the true one.
pub proof fn product_is_the_nearest(a: Single, b: Single, other: Single)
    requires
        a.finite(),
        b.finite(),
        apart(a.value() * b.value(), 0) <= single_one() * pow2(277),
        !other.nan(),
    ensures
        apart(a.product(b).value() * single_one(), a.value() * b.value()) <= apart(
            other.value() * single_one(),
            a.value() * b.value(),
        ),
{
    let x = a.value();
    let y = b.value();
    let n = absolute(x) * absolute(y);
    lemma_pow2_pos(149);
    lemma_magnitude_zero(23);
    assert((x >= 0 && y >= 0 ==> x * y == n) && (x <= 0 && y <= 0 ==> x * y == n) && (x >= 0 && y
        <= 0 ==> x * y == -n) && (x <= 0 && y >= 0 ==> x * y == -n)) by (nonlinear_arith)
        requires
            n == absolute(x) * absolute(y),
    ;
    assert(a.negative() ==> x <= 0);
    assert(!a.negative() ==> x >= 0);
    assert(b.negative() ==> y <= 0);
    assert(!b.negative() ==> y >= 0);
    lemma_no_number_is_nearer(a.negative() != b.negative(), n, single_one() as nat, other);
}

/// The quotient of two numbers is the nearest there is to the true one.
pub proof fn quotient_is_the_nearest(a: Single, b: Single, other: Single)
    requires
        a.finite(),
        b.finite(),
        b.value() > 0,
        apart(a.value(), 0) * single_one() <= b.value() * pow2(277),
        !other.nan(),
    ensures
        apart(a.quotient(b).value() * b.value(), a.value() * single_one()) <= apart(
            other.value() * b.value(),
            a.value() * single_one(),
        ),
{
    let x = a.value();
    let one = single_one();
    let n = absolute(x) * one as nat;
    lemma_pow2_pos(149);
    lemma_magnitude_zero(23);
    lemma_negative_zero(b);
    assert((x >= 0 ==> x * one == n) && (x <= 0 ==> x * one == -n) && apart(x, 0) * one == n)
        by (nonlinear_arith)
        requires
            n == absolute(x) * one,
    ;
    assert(a.negative() ==> x <= 0);
    assert(!a.negative() ==> x >= 0);
    lemma_no_number_is_nearer(a.negative() != b.negative(), n, absolute(b.value()), other);
}

/// An integer becomes the number that is nearest to it.
pub proof fn integer_is_the_nearest(i: int, other: Single)
    requires
        -0x1_0000_0000_0000_0000 <= i <= 0x1_0000_0000_0000_0000,
        !other.nan(),
    ensures
        apart(Single::of_int(i).value(), i * single_one()) <= apart(
            other.value(),
            i * single_one(),
        ),
{
    let one = single_one();
    let n = absolute(i) * one as nat;
    lemma2_to64();
    lemma_pow2_pos(149);
    lemma_pow2_adds(64, 149);
    lemma_pow2_strictly_increases(213, 277);
    assert((i >= 0 ==> i * one == n) && (i <= 0 ==> i * one == -n) && n <= 0x1_0000_0000_0000_0000
        * one) by (nonlinear_arith)
        requires
            n == absolute(i) * one,
            -0x1_0000_0000_0000_0000 <= i <= 0x1_0000_0000_0000_0000,
            one > 0,
    ;
    lemma_no_number_is_nearer(i < 0, n, 1, other);
}

/// A fraction becomes the number that is nearest to it.
pub proof fn fraction_is_the_nearest(n: nat, d: nat, other: Single)
    requires
        n < 0x1_0000,
        0 < d < 0x1_0000,
        !other.nan(),
    ensures
        apart(Single::fraction(n, d).value() * d, n * single_one()) <= apart(
            other.value() * d,
            n * single_one(),
        ),
{
    let one = single_one() as nat;
    let exact = n * one;
    lemma2_to64();
    lemma_pow2_pos(149);
    lemma_pow2_adds(16, 149);
    lemma_pow2_strictly_increases(165, 277);
    assert(exact <= 0x1_0000 * one) by (nonlinear_arith)
        requires
            exact == n * one,
            n < 0x1_0000,
    ;
    assert(pow2(277) <= d * pow2(277)) by (nonlinear_arith)
        requires
            d >= 1,
    ;
    lemma_no_number_is_nearer(false, exact, d, other);
}

/// An amount over a total, moved between 0 and 1: times the total it is the amount, but
/// for rounding, where the amount lies between nothing and the total. Below that it is
/// nothing, and above that one.
#[verifier::spinoff_prover]
#[verifier::rlimit(60)]
pub proof fn filling_is_the_share(amount: Single, total: Single)
    requires
        amount.finite(),
        total.finite(),
        total.value() > 0,
    ensures
        ({
            let filled = amount.quotient(total).clamped(0, 1).value();
            let exact = amount.value() * single_one();
            &&& 0 <= amount.value() <= total.value() ==> 0x80_0000 * apart(
                filled * total.value(),
                exact,
            ) <= exact + 0x80_0000 * total.value()
            &&& amount.value() <= 0 ==> filled == 0
            &&& amount.value() >= total.value() ==> filled == single_one()
        }),
{
    let a = amount.value();
    let t = total.value();
    let one = single_one();
    lemma_pow2_pos(149);
    lemma_magnitude_zero(23);
    small_integers_are_exact(0);
    small_integers_are_exact(1);
    crate::bounds::filling_lies_between_none_and_all(amount, total);
    assert(1int * one == one && 0 * one == 0) by (nonlinear_arith);
    if 0 <= a <= t {
        lemma_pow2_strictly_increases(149, 277);
        assert(a * one <= t * pow2(277)) by (nonlinear_arith)
            requires
                0 <= a <= t,
                0 < one <= pow2(277),
        ;
        quotient_is_near(amount, total);
        if a < t {
            crate::bounds::fillings_keep_order(amount, total, total);
            lemma_part_of_one(amount, total);
        } else {
            let filled = one * t;
            assert(a * one == filled) by (nonlinear_arith)
                requires
                    a == t,
                    filled == one * t,
            ;
            assert(filled >= 0) by (nonlinear_arith)
                requires
                    filled == one * t,
                    one > 0,
                    t > 0,
            ;
        }
    }
    if a <= 0 {
        if a < 0 {
            let n = absolute(a) * one as nat;
            rounded_result_is_a_number(true, n, absolute(t));
            assert(amount.negative() && !total.negative());
        } else {
            lemma_nothing(amount.negative() != total.negative(), absolute(t));
            assert(absolute(a) * one as nat == 0) by (nonlinear_arith)
                requires
                    absolute(a) == 0,
            ;
        }
    }
}

/// A part over the whole needs no moving between 0 and 1.
proof fn lemma_part_of_one(part: Single, total: Single)
    requires
        part.finite(),
        total.finite(),
        0 <= part.value() <= total.value(),
        total.value() > 0,
    ensures
        part.quotient(total).clamped(0, 1).value() == part.quotient(total).value(),
{
    crate::bounds::lemma_part_over_whole(part, total);
    assert(1int * single_one() == single_one()) by (nonlinear_arith);
}

/// The value that stands for infinity in double precision, as a power of two.
pub proof fn lemma_double_infinity()
    ensures
        magnitude_value(DOUBLE_INFINITY as nat, 52) == pow2(2098),
{
    lemma2_to64_rest();
    lemma_pow2_adds(52, 2046);
    lemma_pattern_value(2046, 0x10_0000_0000_0000, 52);
}

/// A rounded result in double precision is a number of the sign asked for, and near
/// to `n / d` short of infinity.
pub proof fn lemma_double_is_near(negative: bool, n: nat, d: nat)
    requires
        d > 0,
    ensures
        ({
            let r = Double::nearest(negative, n, d);
            &&& !r.nan()
            &&& negative ==> r.value() <= 0
            &&& !negative ==> r.value() >= 0
            &&& n <= d * pow2(2098) ==> 0x10_0000_0000_0000 * apart(
                apart(r.value(), 0) * d,
                n as int,
            ) <= n + 0x10_0000_0000_0000 * d
        }),
{
    let inf = DOUBLE_INFINITY as nat;
    let pattern = nearest_pattern(n, d, 52, inf);
    let m = magnitude_value(pattern, 52);
    lemma2_to64_rest();
    lemma_double_infinity();
    lemma_nearest_is_bounded(n, d, 52, inf);
    rounding_error_is_small(n, d, 52, inf);
    assert(m * d == d * m) by (nonlinear_arith);
    let r = d * m;
    assert(Double::nearest(negative, n, d).unsigned() == pattern);
    assert(apart(Double::nearest(negative, n, d).value(), 0) == m);
    if n <= d * pow2(2098) {
        assert(0x10_0000_0000_0000 * r <= 0x10_0000_0000_0001 * n + 0x10_0000_0000_0000 * d);
        assert(0x10_0000_0000_0000 * n <= 0x10_0000_0000_0000 * r + n + 0x10_0000_0000_0000 * d);
    }
}

/// The difference of two numbers in double precision is near to the true one, and on
/// the same side of zero.
pub proof fn double_difference_is_near(a: Double, b: Double)
    requires
        !a.nan(),
        !b.nan(),
        !a.infinite(),
        !b.infinite(),
    ensures
        ({
            let v = a.value() - b.value();
            let r = a.difference(b).value();
            &&& apart(v, 0) <= pow2(2098) ==> 0x10_0000_0000_0000 * apart(r, v) <= apart(v, 0)
                + 0x10_0000_0000_0000
            &&& v >= 0 ==> r >= 0
            &&& v <= 0 ==> r <= 0
        }),
        !a.difference(b).nan(),
{
    let v = a.value() - b.value();
    lemma_magnitude_zero(52);
    assert(b.opposite().value() == -b.value());
    if v != 0 {
        lemma_double_is_near(v < 0, absolute(v), 1);
    }
}

/// A finite double is below infinity.
pub proof fn lemma_double_finite(x: Double)
    requires
        !x.nan(),
        !x.infinite(),
    ensures
        apart(x.value(), 0) < pow2(2098),
{
    lemma_double_infinity();
    lemma_magnitude_increases(x.unsigned(), DOUBLE_INFINITY as nat, 52);
}

/// A number of bytes over 1024, times 1024, is the number of bytes, but for rounding,
/// and on the same side of zero.
pub proof fn kilos_are_near(x: Double)
    requires
        !x.nan(),
        !x.infinite(),
    ensures
        ({
            let v = x.value();
            let r = x.kilos().value();
            &&& 0x10_0000_0000_0000 * apart(1024 * r, v) <= apart(v, 0) + 0x4000_0000_0000_0000
            &&& v >= 0 ==> r >= 0
            &&& v <= 0 ==> r <= 0
        }),
        !x.kilos().nan(),
        !x.kilos().infinite(),
{
    let v = x.value();
    let r = x.kilos();
    let p = pow2(2098);
    lemma_magnitude_zero(52);
    lemma_double_finite(x);
    lemma_double_is_near(x.negative(), absolute(v), 1024);
    if v == 0 {
        crate::rounding::rounding_stops_at_numbers(0, 1024, 52, DOUBLE_INFINITY as nat, 0);
        lemma_nearest_is_bounded(0, 1024, 52, DOUBLE_INFINITY as nat);
    }
    lemma_double_infinity();
    assert(apart(r.value(), 0) < p) by {
        lemma2_to64_rest();
        lemma_pow2_strictly_increases(63, 2098);
    }
}

/// A number that is narrowed to single precision keeps its value, but for rounding,
/// and its sign. The units of the two precisions differ by the ratio of their ones.
#[verifier::spinoff_prover]
#[verifier::rlimit(60)]
pub proof fn narrowing_is_near(x: Double)
    requires
        !x.nan(),
        !x.infinite(),
        apart(x.value(), 0) * single_one() <= double_one() * pow2(277),
    ensures
        ({
            let v = x.value();
            let r = x.narrowed().value();
            &&& 0x80_0000 * apart(r * double_one(), v * single_one()) <= apart(v, 0) * single_one()
                + 0x80_0000 * double_one()
            &&& v >= 0 ==> r >= 0
            &&& v <= 0 ==> r <= 0
        }),
        !x.narrowed().nan(),
{
    let v = x.value();
    let n = absolute(v) * single_one() as nat;
    let d = double_one() as nat;
    let one = single_one();
    lemma_magnitude_zero(52);
    lemma_magnitude_zero(23);
    lemma_pow2_pos(149);
    lemma_pow2_pos(1074);
    lemma_rounded_is_near(x.negative(), n, d);
    let r = x.narrowed().value();
    let size = apart(r, 0);
    assert(apart(v, 0) * one == n && (v >= 0 ==> v * one == n) && (v <= 0 ==> v * one == -n) && (v
        == 0 ==> n == 0)) by (nonlinear_arith)
        requires
            n == absolute(v) * one,
    ;
    assert((r >= 0 ==> r * d == size * d) && (r <= 0 ==> r * d == -(size * d))) by (nonlinear_arith)
        requires
            r >= 0 ==> r == size,
            r <= 0 ==> r == -size,
    ;
    if v == 0 {
        lemma_nothing(x.negative(), d);
    } else if v > 0 {
        assert(!x.negative());
    } else {
        assert(x.negative());
    }
}

/// What a counter of bytes gave, read as kilobytes in single precision: times 1024 it
/// is the number of bytes, but for rounding.
#[verifier::spinoff_prover]
#[verifier::rlimit(60)]
pub proof fn bytes_become_kilobytes(x: Double)
    requires
        !x.nan(),
        !x.infinite(),
        x.value() >= 0,
        x.value() * single_one() <= double_one() * pow2(277),
    ensures
        ({
            let v = x.value();
            let r = x.kilos().narrowed().value();
            &&& 0x80_0000 * apart(1024 * (r * double_one()), v * single_one()) <= 3 * (v
                * single_one()) + 0x4_0000_0000 * (double_one() + single_one())
            &&& r >= 0
        }),
        !x.kilos().narrowed().nan(),
{
    let one = single_one();
    let d = double_one();
    let v = x.value();
    let k = x.kilos().value();
    lemma_pow2_pos(149);
    lemma_pow2_pos(1074);
    lemma_pow2_pos(277);
    kilos_are_near(x);
    let ko = k * one;
    let vo = v * one;
    let top = d * pow2(277);
    assert(0x10_0000_0000_0000 * (1024 * ko) <= 0x10_0000_0000_0001 * vo + 0x4000_0000_0000_0000
        * one && 0xf_ffff_ffff_ffff * vo <= 0x10_0000_0000_0000 * (1024 * ko)
        + 0x4000_0000_0000_0000 * one && vo >= 0 && ko >= 0) by (nonlinear_arith)
        requires
            ko == k * one,
            vo == v * one,
            0x10_0000_0000_0000 * (1024 * k) <= 0x10_0000_0000_0001 * v + 0x4000_0000_0000_0000,
            0xf_ffff_ffff_ffff * v <= 0x10_0000_0000_0000 * (1024 * k) + 0x4000_0000_0000_0000,
            one > 0,
            v >= 0,
            k >= 0,
    ;
    assert(2 * one <= top) by {
        lemma2_to64();
        lemma_pow2_adds(1, 149);
        lemma_pow2_strictly_increases(150, 1074);
        assert(d <= d * pow2(277)) by (nonlinear_arith)
            requires
                d > 0,
                pow2(277) >= 1,
        ;
    }
    assert(ko <= top);
    narrowing_is_near(x.kilos());
}

/// Below zero a number is narrowed as it is above it, with the sign.
pub proof fn narrowing_keeps_the_sign(x: Double)
    requires
        !x.nan(),
    ensures
        x.opposite().narrowed() == x.narrowed().opposite(),
{
    let n = absolute(x.value()) * single_one() as nat;
    let p = nearest_pattern(n, double_one() as nat, 23, SINGLE_INFINITY as nat);
    lemma_pow2_pos(1074);
    lemma_nearest_is_bounded(n, double_one() as nat, 23, SINGLE_INFINITY as nat);
    assert(x.opposite().unsigned() == x.unsigned() && x.opposite().negative() != x.negative());
    assert(absolute(x.opposite().value()) == absolute(x.value()));
    assert(Single::made_of(true, p).opposite() == Single::made_of(false, p));
    assert(Single::made_of(false, p).opposite() == Single::made_of(true, p));
}

/// Below zero a number of bytes reads in kilobytes as it does above it, with the sign.
pub proof fn kilos_keep_the_sign(x: Double)
    requires
        !x.nan(),
    ensures
        x.opposite().kilos() == x.kilos().opposite(),
{
    let n = absolute(x.value());
    let p = nearest_pattern(n, 1024, 52, DOUBLE_INFINITY as nat);
    lemma_nearest_is_bounded(n, 1024, 52, DOUBLE_INFINITY as nat);
    assert(x.opposite().unsigned() == x.unsigned() && x.opposite().negative() != x.negative());
    assert(absolute(x.opposite().value()) == absolute(x.value()));
    assert(Double::made_of(true, p).opposite() == Double::made_of(false, p));
    assert(Double::made_of(false, p).opposite() == Double::made_of(true, p));
}

} // verus!
