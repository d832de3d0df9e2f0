//! What lies between which bounds: results that are numbers, shares that are
//! percentages.
use crate::arithmetic::{absolute, small_integers_are_exact, SINGLE_INFINITY};
use crate::number::{
    lemma_magnitude_increases, lemma_magnitude_zero, magnitude_value, single_one, Single,
};
use crate::rounding::{
    lemma_nearest_is_bounded, lemma_pattern_value, nearest_pattern, rounding_keeps_order,
    rounding_stops_at_numbers,
};
use vstd::arithmetic::power2::{
    lemma2_to64, lemma2_to64_rest, lemma_pow2_adds, lemma_pow2_pos, lemma_pow2_unfold, pow2,
};
use vstd::prelude::*;

verus! {

/// A number moved into a range lies in it.
pub proof fn clamped_number_is_within(x: Single, low: nat, high: nat)
    requires
        low <= high < 0x100_0000,
        !x.nan(),
    ensures
        x.clamped(low as int, high as int).within(low as int, high as int),
{
    lemma_pow2_pos(149);
    small_integers_are_exact(low);
    small_integers_are_exact(high);
    assert(low * single_one() <= high * single_one()) by (nonlinear_arith)
        requires
            low <= high,
            single_one() > 0,
    ;
}

/// Moving numbers into a range keeps their order.
pub proof fn clamping_keeps_order(x: Single, y: Single, low: nat, high: nat)
    requires
        low <= high < 0x100_0000,
        y.reaches(x),
    ensures
        y.clamped(low as int, high as int).reaches(x.clamped(low as int, high as int)),
{
    clamped_number_is_within(x, low, high);
    clamped_number_is_within(y, low, high);
    small_integers_are_exact(low);
    small_integers_are_exact(high);
}

/// A rounded result is a number, or an infinity, of the sign asked for.
pub proof fn rounded_result_is_a_number(negative: bool, n: nat, d: nat)
    requires
        d > 0,
    ensures
        !Single::nearest(negative, n, d).nan(),
        Single::nearest(negative, n, d).negative() == negative,
        Single::nearest(negative, n, d).unsigned() == nearest_pattern(
            n,
            d,
            23,
            SINGLE_INFINITY as nat,
        ),
{
    lemma_nearest_is_bounded(n, d, 23, SINGLE_INFINITY as nat);
}

/// Integers of 64 bits are finite as singles, and zero only where they are zero.
pub proof fn integers_are_finite(i: int)
    requires
        -0x1_0000_0000_0000_0000 <= i <= 0x1_0000_0000_0000_0000,
    ensures
        Single::of_int(i).finite(),
        Single::of_int(i).negative() == (i < 0),
        absolute(Single::of_int(i).value()) <= pow2(213),
        Single::of_int(i).unsigned() == 0 <==> i == 0,
{
    let one = single_one() as nat;
    let n = absolute(i) * one;
    // The pattern of 2 to the power of 64.
    let q: nat = 190 * 0x80_0000 + 0x80_0000;
    lemma2_to64();
    lemma2_to64_rest();
    lemma_pow2_pos(149);
    lemma_pow2_adds(64, 149);
    lemma_pow2_adds(23, 190);
    lemma_pattern_value(190, 0x80_0000, 23);
    assert(n <= 0x1_0000_0000_0000_0000 * one) by (nonlinear_arith)
        requires
            n == absolute(i) * one,
            absolute(i) <= 0x1_0000_0000_0000_0000,
    ;
    rounded_result_is_a_number(i < 0, n, 1);
    rounding_stops_at_numbers(n, 1, 23, SINGLE_INFINITY as nat, q);
    let r = nearest_pattern(n, 1, 23, SINGLE_INFINITY as nat);
    if r < q {
        lemma_magnitude_increases(r, q, 23);
    }
    lemma_magnitude_zero(23);
    if i == 0 {
        assert(n == 0) by (nonlinear_arith)
            requires
                n == absolute(i) * one,
                absolute(i) == 0,
        ;
        rounding_stops_at_numbers(n, 1, 23, SINGLE_INFINITY as nat, 0);
    } else {
        assert(n >= 1) by (nonlinear_arith)
            requires
                n == absolute(i) * one,
                absolute(i) >= 1,
                one >= 1,
        ;
        lemma_pattern_value(0, 1, 23);
        assert(0 * pow2(23) + 1 == 1) by (nonlinear_arith);
        assert(1 * pow2(0) == 1) by (nonlinear_arith)
            requires
                pow2(0) == 1,
        ;
        rounding_stops_at_numbers(n, 1, 23, SINGLE_INFINITY as nat, 1);
    }
}

/// A sum of numbers is a number, but for opposite infinities.
pub proof fn sum_is_a_number(a: Single, b: Single)
    requires
        !a.nan(),
        !b.nan(),
        a.infinite() && b.infinite() ==> a == b,
    ensures
        !a.sum(b).nan(),
        a.value() >= 0 && b.value() >= 0 ==> a.sum(b).value() >= 0,
{
    let v = a.value() + b.value();
    rounded_result_is_a_number(v < 0, absolute(v), 1);
    lemma_magnitude_zero(23);
}

/// The sum of two converted integers is finite.
pub proof fn sum_of_integers_is_finite(i: int, j: int)
    requires
        -0x1_0000_0000_0000_0000 <= i <= 0x1_0000_0000_0000_0000,
        -0x1_0000_0000_0000_0000 <= j <= 0x1_0000_0000_0000_0000,
    ensures
        Single::of_int(i).sum(Single::of_int(j)).finite(),
{
    let v = Single::of_int(i).value() + Single::of_int(j).value();
    integers_are_finite(i);
    integers_are_finite(j);
    // The pattern of 2 to the power of 65.
    let q: nat = 191 * 0x80_0000 + 0x80_0000;
    lemma2_to64();
    lemma_pow2_unfold(214);
    lemma_pow2_adds(23, 191);
    lemma_pattern_value(191, 0x80_0000, 23);
    rounded_result_is_a_number(v < 0, absolute(v), 1);
    rounding_stops_at_numbers(absolute(v), 1, 23, SINGLE_INFINITY as nat, q);
}

/// A quotient by a finite number other than zero is a number.
pub proof fn quotient_is_a_number(a: Single, b: Single)
    requires
        !a.nan(),
        b.finite(),
        b.unsigned() != 0,
    ensures
        !a.quotient(b).nan(),
{
    let d = absolute(b.value());
    lemma_magnitude_zero(23);
    lemma_magnitude_increases(0, b.unsigned(), 23);
    rounded_result_is_a_number(
        a.negative() != b.negative(),
        absolute(a.value()) * single_one() as nat,
        d,
    );
}

/// A product with a finite number other than zero is a number.
pub proof fn product_is_a_number(a: Single, b: Single)
    requires
        !a.nan(),
        b.finite(),
        b.unsigned() != 0,
    ensures
        !a.product(b).nan(),
{
    lemma_pow2_pos(149);
    rounded_result_is_a_number(
        a.negative() != b.negative(),
        absolute(a.value()) * absolute(b.value()),
        single_one() as nat,
    );
}

/// A fraction of small integers above zero is finite, and above zero.
pub proof fn fractions_are_finite(n: nat, d: nat)
    requires
        0 < n < 0x1_0000,
        0 < d < 0x1_0000,
    ensures
        Single::fraction(n, d).finite(),
        Single::fraction(n, d).unsigned() != 0,
        Single::fraction(n, d).value() > 0,
{
    let one = single_one() as nat;
    let exact = n * one;
    // The pattern of 2 to the power of 64.
    let q: nat = 190 * 0x80_0000 + 0x80_0000;
    lemma2_to64();
    lemma2_to64_rest();
    lemma_pow2_adds(64, 149);
    lemma_pow2_adds(64, 85);
    lemma_pow2_pos(85);
    lemma_pow2_adds(23, 190);
    lemma_pattern_value(190, 0x80_0000, 23);
    assert(exact <= d * (0x1_0000_0000_0000_0000 * one)) by (nonlinear_arith)
        requires
            exact == n * one,
            n < 0x1_0000,
            d >= 1,
    ;
    rounded_result_is_a_number(false, exact, d);
    rounding_stops_at_numbers(exact, d, 23, SINGLE_INFINITY as nat, q);
    lemma_pattern_value(0, 1, 23);
    assert(0 * pow2(23) + 1 == 1) by (nonlinear_arith);
    assert(1 * pow2(0) == 1) by (nonlinear_arith)
        requires
            pow2(0) == 1,
    ;
    assert(exact >= d * 1) by (nonlinear_arith)
        requires
            exact == n * one,
            n >= 1,
            one >= 0x1_0000,
            d < 0x1_0000,
    ;
    rounding_stops_at_numbers(exact, d, 23, SINGLE_INFINITY as nat, 1);
    lemma_magnitude_zero(23);
    lemma_magnitude_increases(0, Single::fraction(n, d).unsigned(), 23);
}

/// A product with a finite number above zero keeps the sign.
pub proof fn product_keeps_the_sign(a: Single, b: Single)
    requires
        !a.nan(),
        a.value() >= 0,
        b.finite(),
        b.value() > 0,
    ensures
        !a.product(b).nan(),
        a.product(b).value() >= 0,
{
    let n = absolute(a.value()) * absolute(b.value());
    lemma_pow2_pos(149);
    lemma_magnitude_zero(23);
    if a.unsigned() > 0 {
        lemma_magnitude_increases(0, a.unsigned(), 23);
    } else {
        assert(n == 0) by (nonlinear_arith)
            requires
                n == absolute(a.value()) * absolute(b.value()),
                absolute(a.value()) == 0,
        ;
        assert(single_one() as nat * 0 == 0) by (nonlinear_arith);
        rounding_stops_at_numbers(n, single_one() as nat, 23, SINGLE_INFINITY as nat, 0);
    }
    product_is_a_number(a, b);
    rounded_result_is_a_number(a.negative() != b.negative(), n, single_one() as nat);
}

/// A quotient of a finite number by a number above zero keeps the sign.
pub proof fn quotient_keeps_the_sign(a: Single, b: Single)
    requires
        a.finite(),
        a.value() >= 0,
        !b.nan(),
        b.value() > 0,
    ensures
        !a.quotient(b).nan(),
        a.quotient(b).value() >= 0,
{
    let n = absolute(a.value()) * single_one() as nat;
    let d = absolute(b.value());
    lemma_magnitude_zero(23);
    if a.unsigned() > 0 {
        lemma_magnitude_increases(0, a.unsigned(), 23);
    } else {
        assert(n == 0) by (nonlinear_arith)
            requires
                n == absolute(a.value()) * single_one() as nat,
                absolute(a.value()) == 0,
        ;
        assert(d * 0 == 0) by (nonlinear_arith);
        rounding_stops_at_numbers(n, d, 23, SINGLE_INFINITY as nat, 0);
    }
    rounded_result_is_a_number(a.negative() != b.negative(), n, d);
}

/// A quotient of a finite number by a whole number above zero is finite.
pub proof fn quotient_by_an_integer_is_finite(a: Single, i: nat)
    requires
        a.finite(),
        0 < i < 0x100_0000,
    ensures
        a.quotient(Single::of_int(i as int)).finite(),
{
    let b = Single::of_int(i as int);
    let one = single_one() as nat;
    let m = absolute(a.value());
    let n = m * one;
    let d = absolute(b.value());
    lemma_pow2_pos(149);
    lemma_magnitude_zero(23);
    small_integers_are_exact(i);
    integers_are_finite(i as int);
    assert(0 < d && n <= d * m) by (nonlinear_arith)
        requires
            n == m * one,
            d == i * one,
            i >= 1,
            one > 0,
    ;
    rounded_result_is_a_number(a.negative() != b.negative(), n, d);
    rounding_stops_at_numbers(n, d, 23, SINGLE_INFINITY as nat, a.unsigned());
}

/// Larger sign-free patterns have larger values.
pub proof fn lemma_ordered(a: nat, b: nat)
    requires
        a <= b,
    ensures
        magnitude_value(a, 23) <= magnitude_value(b, 23),
{
    if a < b {
        lemma_magnitude_increases(a, b, 23);
    }
}

/// A part over the whole lies between nothing and one.
pub proof fn lemma_part_over_whole(part: Single, total: Single)
    requires
        !part.nan(),
        0 <= part.value() <= total.value(),
        total.finite(),
        total.value() > 0,
    ensures
        !part.quotient(total).nan(),
        0 <= part.quotient(total).value() <= single_one(),
{
    let one = single_one() as nat;
    let inf = SINGLE_INFINITY as nat;
    let a = absolute(part.value());
    let b = absolute(total.value());
    let n = a * one;
    let unit = Single::of_int(1).unsigned();
    lemma_pow2_pos(149);
    lemma_magnitude_zero(23);
    small_integers_are_exact(1);
    integers_are_finite(1);
    if part.infinite() {
        lemma_magnitude_increases(total.unsigned(), inf, 23);
    }
    assert(n <= b * one) by (nonlinear_arith)
        requires
            n == a * one,
            a <= b,
    ;
    assert(1nat as int * single_one() == single_one()) by (nonlinear_arith);
    assert(Single::of_int(1).value() == single_one());
    assert(magnitude_value(unit, 23) == one);
    rounded_result_is_a_number(part.negative() != total.negative(), n, b);
    rounding_stops_at_numbers(n, b, 23, inf, unit);
    lemma_ordered(nearest_pattern(n, b, 23, inf), unit);
    if part.negative() {
        if part.unsigned() > 0 {
            lemma_magnitude_increases(0, part.unsigned(), 23);
        }
        assert(n == 0 && b * 0 == 0) by (nonlinear_arith)
            requires
                n == a * one,
                a == 0,
        ;
        rounding_stops_at_numbers(n, b, 23, inf, 0);
    }
}

/// What is no less than the whole, over the whole, is no less than one.
pub proof fn lemma_more_than_whole(amount: Single, total: Single)
    requires
        amount.reaches(total),
        total.finite(),
        total.value() > 0,
    ensures
        !amount.quotient(total).nan(),
        amount.quotient(total).value() >= single_one(),
{
    let one = single_one() as nat;
    let inf = SINGLE_INFINITY as nat;
    let a = absolute(amount.value());
    let b = absolute(total.value());
    let n = a * one;
    let unit = Single::of_int(1).unsigned();
    lemma_pow2_pos(149);
    lemma_magnitude_zero(23);
    small_integers_are_exact(1);
    integers_are_finite(1);
    assert(n >= b * one) by (nonlinear_arith)
        requires
            n == a * one,
            a >= b,
    ;
    assert(1nat as int * single_one() == single_one()) by (nonlinear_arith);
    assert(magnitude_value(unit, 23) == one);
    rounded_result_is_a_number(amount.negative() != total.negative(), n, b);
    rounding_stops_at_numbers(n, b, 23, inf, unit);
    lemma_ordered(unit, nearest_pattern(n, b, 23, inf));
    lemma_ordered(unit, inf);
}

/// An amount over a total, moved between 0 and 1, is a number between them; it is
/// 1 once the amount has reached the total.
pub proof fn filling_lies_between_none_and_all(amount: Single, total: Single)
    requires
        !amount.nan(),
        total.finite(),
        total.value() > 0,
    ensures
        amount.quotient(total).clamped(0, 1).within(0, 1),
        amount.reaches(total) ==> amount.quotient(total).clamped(0, 1).value() == single_one(),
{
    lemma_magnitude_zero(23);
    quotient_is_a_number(amount, total);
    clamped_number_is_within(amount.quotient(total), 0, 1);
    assert(1int * single_one() == single_one()) by (nonlinear_arith);
    if amount.reaches(total) {
        lemma_more_than_whole(amount, total);
        small_integers_are_exact(1);
    }
}

/// A hundred times what lies between nothing and one lies between 0 and 100.
proof fn lemma_hundredfold(ratio: Single)
    requires
        !ratio.nan(),
        0 <= ratio.value() <= single_one(),
    ensures
        ratio.product(Single::of_int(100)).within(0, 100),
{
    let one = single_one() as nat;
    let inf = SINGLE_INFINITY as nat;
    let hundred = Single::of_int(100);
    let c = absolute(hundred.value());
    let a = absolute(ratio.value());
    let n = a * c;
    lemma_pow2_pos(149);
    small_integers_are_exact(100);
    integers_are_finite(100);
    assert(n <= one * c) by (nonlinear_arith)
        requires
            n == a * c,
            a <= one,
    ;
    product_keeps_the_sign(ratio, hundred);
    if ratio.infinite() {
        small_integers_are_exact(1);
        integers_are_finite(1);
        lemma_magnitude_increases(Single::of_int(1).unsigned(), inf, 23);
    }
    rounded_result_is_a_number(ratio.negative() != hundred.negative(), n, one);
    rounding_stops_at_numbers(n, one, 23, inf, hundred.unsigned());
    lemma_ordered(nearest_pattern(n, one, 23, inf), hundred.unsigned());
}

/// A hundred times a part over the whole lies between 0 and 100.
pub proof fn part_of_a_whole_is_a_percentage(part: Single, total: Single)
    requires
        !part.nan(),
        0 <= part.value() <= total.value(),
        total.finite(),
        total.value() > 0,
    ensures
        part.quotient(total).product(Single::of_int(100)).within(0, 100),
{
    lemma_part_over_whole(part, total);
    lemma_hundredfold(part.quotient(total));
}

/// Larger integers have larger singles.
pub proof fn conversion_keeps_order(i: nat, j: nat)
    requires
        i <= j <= 0x1_0000_0000_0000_0000,
    ensures
        0 <= Single::of_int(i as int).value() <= Single::of_int(j as int).value(),
{
    let one = single_one() as nat;
    let inf = SINGLE_INFINITY as nat;
    lemma_magnitude_zero(23);
    integers_are_finite(i as int);
    integers_are_finite(j as int);
    assert((i * one) * 1 <= (j * one) * 1) by (nonlinear_arith)
        requires
            i <= j,
    ;
    rounding_keeps_order(i * one, 1, j * one, 1, 23, inf);
    rounded_result_is_a_number(false, i * one, 1);
    rounded_result_is_a_number(false, j * one, 1);
    lemma_ordered(nearest_pattern(i * one, 1, 23, inf), nearest_pattern(j * one, 1, 23, inf));
}

/// A number between two small whole numbers is finite.
pub proof fn bounded_numbers_are_finite(x: Single, low: nat, high: nat)
    requires
        high < 0x100_0000,
        x.within(low as int, high as int),
    ensures
        x.finite(),
        x.value() >= 0,
{
    lemma_pow2_pos(149);
    small_integers_are_exact(high);
    integers_are_finite(high as int);
    lemma_magnitude_zero(23);
    lemma_magnitude_increases(Single::of_int(high as int).unsigned(), SINGLE_INFINITY as nat, 23);
    assert(low * single_one() >= 0) by (nonlinear_arith)
        requires
            single_one() > 0,
    ;
    if x.infinite() {
        if x.negative() {
            lemma_magnitude_increases(0, SINGLE_INFINITY as nat, 23);
        }
    }
}

/// A product with a finite number above zero keeps the order of finite numbers
/// that are not below zero.
pub proof fn products_keep_order(a: Single, b: Single, f: Single)
    requires
        a.finite(),
        b.finite(),
        0 <= a.value() <= b.value(),
        f.finite(),
        f.value() > 0,
    ensures
        0 <= a.product(f).value() <= b.product(f).value(),
        !a.product(f).nan(),
        !b.product(f).nan(),
{
    let one = single_one() as nat;
    let inf = SINGLE_INFINITY as nat;
    let c = absolute(f.value());
    let m = absolute(a.value()) * c;
    let n = absolute(b.value()) * c;
    lemma_pow2_pos(149);
    lemma_magnitude_zero(23);
    product_keeps_the_sign(a, f);
    product_keeps_the_sign(b, f);
    assert(m * one <= n * one) by (nonlinear_arith)
        requires
            m == absolute(a.value()) * c,
            n == absolute(b.value()) * c,
            absolute(a.value()) <= absolute(b.value()),
    ;
    rounded_result_is_a_number(a.negative() != f.negative(), m, one);
    rounded_result_is_a_number(b.negative() != f.negative(), n, one);
    rounding_keeps_order(m, one, n, one, 23, inf);
    lemma_ordered(nearest_pattern(m, one, 23, inf), nearest_pattern(n, one, 23, inf));
    if b.negative() && b.unsigned() > 0 {
        lemma_magnitude_increases(0, b.unsigned(), 23);
    }
}

/// A sum keeps the order of finite numbers that are not below zero.
pub proof fn sums_keep_order(a: Single, b: Single, c: Single, d: Single)
    requires
        a.finite(),
        b.finite(),
        c.finite(),
        d.finite(),
        0 <= a.value() <= c.value(),
        0 <= b.value() <= d.value(),
    ensures
        0 <= a.sum(b).value() <= c.sum(d).value(),
        !a.sum(b).nan(),
        !c.sum(d).nan(),
{
    let inf = SINGLE_INFINITY as nat;
    let m = absolute(a.value() + b.value());
    let n = absolute(c.value() + d.value());
    lemma_magnitude_zero(23);
    sum_is_a_number(a, b);
    sum_is_a_number(c, d);
    rounded_result_is_a_number(false, m, 1);
    rounded_result_is_a_number(false, n, 1);
    rounding_keeps_order(m, 1, n, 1, 23, inf);
    lemma_ordered(nearest_pattern(m, 1, 23, inf), nearest_pattern(n, 1, 23, inf));
}

/// A quotient by a finite number above zero keeps the order of numbers that are
/// not below zero.
pub proof fn quotients_keep_order(a: Single, b: Single, total: Single)
    requires
        !a.nan(),
        b.reaches(a),
        a.value() >= 0,
        total.finite(),
        total.value() > 0,
    ensures
        0 <= a.quotient(total).value() <= b.quotient(total).value(),
        !a.quotient(total).nan(),
        !b.quotient(total).nan(),
{
    let one = single_one() as nat;
    let inf = SINGLE_INFINITY as nat;
    let d = absolute(total.value());
    let m = absolute(a.value()) * one;
    let n = absolute(b.value()) * one;
    lemma_magnitude_zero(23);
    lemma_magnitude_increases(0, inf, 23);
    quotient_is_a_number(a, total);
    quotient_is_a_number(b, total);
    if a.finite() {
        quotient_keeps_the_sign(a, total);
    }
    if b.finite() {
        quotient_keeps_the_sign(b, total);
        if a.infinite() {
            lemma_magnitude_increases(b.unsigned(), inf, 23);
        }
        assert(m * d <= n * d) by (nonlinear_arith)
            requires
                m == absolute(a.value()) * one,
                n == absolute(b.value()) * one,
                absolute(a.value()) <= absolute(b.value()),
        ;
        rounded_result_is_a_number(a.negative() != total.negative(), m, d);
        rounded_result_is_a_number(b.negative() != total.negative(), n, d);
        rounding_keeps_order(m, d, n, d, 23, inf);
        lemma_ordered(nearest_pattern(m, d, 23, inf), nearest_pattern(n, d, 23, inf));
        if b.negative() && b.unsigned() > 0 {
            lemma_magnitude_increases(0, b.unsigned(), 23);
        }
    } else {
        rounded_result_is_a_number(a.negative() != total.negative(), m, d);
        lemma_ordered(a.quotient(total).unsigned(), inf);
    }
}

/// Filling keeps the order of the amounts.
pub proof fn fillings_keep_order(a: Single, b: Single, total: Single)
    requires
        b.reaches(a),
        total.finite(),
        total.value() > 0,
    ensures
        b.quotient(total).clamped(0, 1).reaches(a.quotient(total).clamped(0, 1)),
{
    filling_lies_between_none_and_all(a, total);
    filling_lies_between_none_and_all(b, total);
    lemma_magnitude_zero(23);
    lemma_pow2_pos(149);
    if a.value() >= 0 {
        quotients_keep_order(a, b, total);
        clamping_keeps_order(a.quotient(total), b.quotient(total), 0, 1);
    } else {
        let d = absolute(total.value());
        quotient_is_a_number(a, total);
        rounded_result_is_a_number(true, absolute(a.value()) * single_one() as nat, d);
        small_integers_are_exact(0);
        assert(a.negative() && !total.negative());
        assert(a.quotient(total).value() <= 0);
    }
}

} // verus!
