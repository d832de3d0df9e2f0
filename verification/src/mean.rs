//! How near the load of the machine is to a true mean of its processors' loads.
use crate::accuracy::apart;
use crate::arithmetic::{absolute, small_integers_are_exact, SINGLE_INFINITY};
use crate::bounds::{
    bounded_numbers_are_finite, integers_are_finite, quotient_keeps_the_sign,
    rounded_result_is_a_number, sum_is_a_number,
};
use crate::cpu::{added_up, mean_load};
use crate::number::{
    lemma_magnitude_increases, lemma_magnitude_zero, magnitude_value, single_one, Single,
};
use crate::rounding::{
    distance, lemma_pattern_value, nearest_pattern, rounding_error_is_small,
    rounding_finds_the_nearest, rounding_stops_at_numbers,
};
use vstd::arithmetic::power2::{
    lemma2_to64, lemma_pow2_adds, lemma_pow2_pos, lemma_pow2_strictly_increases, pow2,
};
use vstd::prelude::*;

verus! {

/// The value that stands for infinity, as a power of two.
proof fn lemma_infinity()
    ensures
        magnitude_value(SINGLE_INFINITY as nat, 23) == pow2(277),
{
    lemma2_to64();
    lemma_pow2_adds(23, 254);
    lemma_pattern_value(254, 0x80_0000, 23);
}

/// What is below infinity is finite.
proof fn lemma_below_infinity(x: Single)
    requires
        !x.nan(),
        0 <= x.value() < pow2(277),
    ensures
        x.finite(),
{
    lemma_infinity();
    lemma_magnitude_zero(23);
    lemma_magnitude_increases(0, SINGLE_INFINITY as nat, 23);
}

/// A sum is off by no more than rounding makes it, and by no more than the second
/// number.
proof fn lemma_sum_is_near(a: Single, b: Single)
    requires
        a.finite(),
        b.finite(),
        a.value() >= 0,
        b.value() >= 0,
        a.value() + b.value() <= pow2(277),
    ensures
        ({
            let v = a.value() + b.value();
            let r = a.sum(b).value();
            &&& 0x80_0000 * r <= 0x80_0001 * v + 0x80_0000
            &&& 0x7f_ffff * v <= 0x80_0000 * r + 0x80_0000
            &&& 0 <= r <= a.value() + 2 * b.value()
        }),
        !a.sum(b).nan(),
{
    let inf = SINGLE_INFINITY as nat;
    let v = a.value() + b.value();
    let n = absolute(v);
    lemma2_to64();
    lemma_infinity();
    lemma_magnitude_zero(23);
    sum_is_a_number(a, b);
    if v > 0 {
        let r = magnitude_value(nearest_pattern(n, 1, 23, inf), 23);
        let most = magnitude_value(inf, 23);
        let other = magnitude_value(a.unsigned(), 23);
        rounded_result_is_a_number(false, n, 1);
        assert(1 * r == r && 1 * most == most && 1 * other == other);
        rounding_error_is_small(n, 1, 23, inf);
        rounding_finds_the_nearest(n, 1, 23, inf, a.unsigned());
        if a.negative() && a.unsigned() > 0 {
            lemma_magnitude_increases(0, a.unsigned(), 23);
        }
        assert(other == a.value());
        assert(distance(n, r) <= distance(n, other));
        assert(a.sum(b).value() == r);
        assert(0x80_0000 * r <= 0x80_0001 * n + 0x80_0000);
        assert(0x80_0000 * n <= 0x80_0000 * r + n + 0x80_0000);
    }
}

/// Loads added up one by one are near to their sum, whatever lies between `low`
/// and `high`.
proof fn lemma_added_up_is_near(loads: Seq<Single>, low: int, high: int)
    requires
        loads.len() <= u64::MAX,
        0 <= low <= high <= 100 * single_one(),
        forall|i: int|
            0 <= i < loads.len() ==> (#[trigger] loads[i]).finite() && low <= loads[i].value()
                <= high,
    ensures
        ({
            let n = loads.len();
            let s = added_up(loads).value();
            &&& 0 <= s <= 2 * (n * high)
            &&& 0x80_0000 * s <= 0x80_0000 * (n * high) + 2 * (n * n * high) + 2 * n * 0x80_0000
            &&& 0x80_0000 * (n * low) <= 0x80_0000 * s + 2 * (n * n * low) + 2 * n * 0x80_0000
        }),
        added_up(loads).finite(),
    decreases loads.len(),
{
    lemma_magnitude_zero(23);
    if loads.len() > 0 {
        let rest = loads.drop_last();
        let n = loads.len() as int;
        let k = n - 1;
        let last = loads.last();
        let x = last.value();
        assert forall|i: int| 0 <= i < rest.len() implies (#[trigger] rest[i]).finite() && low
            <= rest[i].value() <= high by {
            assert(rest[i] == loads[i]);
        }
        lemma_added_up_is_near(rest, low, high);
        assert(last == loads[n - 1]);
        let before = added_up(rest);
        let s = before.value();
        lemma_few_loads(k, high, 2 * (k * high) + high);
        assert(n * high == k * high + high && n * low == k * low + low && n * n * high == k * k
            * high + 2 * (k * high) + high && n * n * low == k * k * low + 2 * (k * low) + low && k
            * high >= 0 && k * low >= 0 && k * k * low >= 0) by (nonlinear_arith)
            requires
                n == k + 1,
                k >= 0,
                low >= 0,
                high >= 0,
        ;
        lemma_sum_is_near(before, last);
        lemma_few_loads(n, high, added_up(loads).value());
        lemma_below_infinity(added_up(loads));
    }
}

/// As many loads as there can be stay far below infinity.
proof fn lemma_few_loads(n: int, high: int, sum: int)
    requires
        0 <= n <= u64::MAX,
        0 <= high <= 100 * single_one(),
        sum <= 2 * (n * high) + high,
    ensures
        sum < pow2(277),
{
    let one = single_one();
    lemma2_to64();
    lemma_pow2_pos(149);
    lemma_pow2_adds(64, 149);
    lemma_pow2_adds(8, 213);
    lemma_pow2_strictly_increases(221, 277);
    assert(2 * (n * high) + high <= 256 * (0x1_0000_0000_0000_0000 * one)) by (nonlinear_arith)
        requires
            0 <= n <= 0xffff_ffff_ffff_ffff,
            0 <= high <= 100 * one,
            one > 0,
    ;
}

/// The count of the loads, as a number.
proof fn lemma_count(n: nat)
    requires
        0 < n <= u64::MAX,
    ensures
        Single::of_int(n as int).finite(),
        !Single::of_int(n as int).negative(),
        Single::of_int(n as int).value() >= single_one() > 0,
        2 * Single::of_int(n as int).value() >= n * single_one(),
        n < 0x100_0000 ==> Single::of_int(n as int).value() == n * single_one(),
{
    let inf = SINGLE_INFINITY as nat;
    let one = single_one() as nat;
    let exact = n * one;
    lemma2_to64();
    lemma_infinity();
    lemma_pow2_pos(149);
    lemma_pow2_adds(64, 149);
    lemma_pow2_strictly_increases(213, 277);
    integers_are_finite(n as int);
    lemma_magnitude_zero(23);
    lemma_magnitude_increases(0, Single::of_int(n as int).unsigned(), 23);
    if n < 0x100_0000 {
        small_integers_are_exact(n);
        assert(n * single_one() >= single_one()) by (nonlinear_arith)
            requires
                single_one() > 0,
                n > 0,
        ;
    } else {
        let r = magnitude_value(nearest_pattern(exact, 1, 23, inf), 23);
        assert(1 * r == r && 1 * pow2(277) == pow2(277));
        assert(0x100_0000 * one <= exact <= 0x1_0000_0000_0000_0000 * one) by (nonlinear_arith)
            requires
                exact == n * one,
                0x100_0000 <= n <= 0xffff_ffff_ffff_ffff,
                one >= 1,
        ;
        rounding_error_is_small(exact, 1, 23, inf);
        rounded_result_is_a_number(false, exact, 1);
        assert(0x80_0000 * exact <= 0x80_0000 * r + exact + 0x80_0000);
    }
}

/// A quotient by a count is near to the true one.
proof fn lemma_quotient_is_near(sum: Single, n: nat)
    requires
        sum.finite(),
        sum.value() >= 0,
        0 < n <= u64::MAX,
    ensures
        ({
            let c = Single::of_int(n as int).value();
            let q = sum.quotient(Single::of_int(n as int)).value();
            let exact = sum.value() * single_one();
            &&& 0x80_0000 * (c * q) <= 0x80_0001 * exact + 0x80_0000 * c
            &&& 0x7f_ffff * exact <= 0x80_0000 * (c * q) + 0x80_0000 * c
            &&& q >= 0
        }),
        !sum.quotient(Single::of_int(n as int)).nan(),
{
    let inf = SINGLE_INFINITY as nat;
    let one = single_one() as nat;
    let count = Single::of_int(n as int);
    let c = absolute(count.value());
    let m = absolute(sum.value());
    let exact = m * one;
    lemma2_to64();
    lemma_pow2_pos(149);
    lemma_magnitude_zero(23);
    lemma_count(n);
    lemma_magnitude_increases(sum.unsigned(), inf, 23);
    quotient_keeps_the_sign(sum, count);
    rounded_result_is_a_number(sum.negative() != count.negative(), exact, c);
    rounding_error_is_small(exact, c, 23, inf);
    let most = magnitude_value(inf, 23);
    let r = magnitude_value(nearest_pattern(exact, c, 23, inf), 23);
    assert(exact <= c * most) by (nonlinear_arith)
        requires
            exact == m * one,
            m <= most,
            one <= c,
    ;
    if sum.negative() {
        if sum.unsigned() > 0 {
            lemma_magnitude_increases(0, sum.unsigned(), 23);
        }
        assert(exact == 0 && c * 0 == 0) by (nonlinear_arith)
            requires
                exact == m * one,
                m == 0,
        ;
        rounding_stops_at_numbers(exact, c, 23, inf, 0);
    }
    assert(sum.quotient(count).value() == r);
}

/// The load of the machine lies between the smallest and the largest load of its
/// processors, but for rounding: with `n` processors, `4 n + 8` parts in 2^23, and
/// four times the smallest number above zero.
pub proof fn mean_lies_between(loads: Seq<Single>, least: int, most: int)
    requires
        loads.len() <= u64::MAX,
        0 <= least < loads.len(),
        0 <= most < loads.len(),
        forall|i: int| 0 <= i < loads.len() ==> (#[trigger] loads[i]).within(0, 100),
        forall|i: int|
            0 <= i < loads.len() ==> loads[least].value() <= (#[trigger] loads[i]).value()
                <= loads[most].value(),
    ensures
        ({
            let n = loads.len();
            let mean = mean_load(loads).value();
            &&& 0x80_0000 * mean <= (0x80_0000 + 4 * n + 8) * loads[most].value() + 4 * 0x80_0000
            &&& (0x80_0000 - 4 * n - 8) * loads[least].value() <= 0x80_0000 * mean + 4
                * 0x80_0000
        }),
{
    let n = loads.len();
    let low = loads[least].value();
    let high = loads[most].value();
    let one = single_one();
    let count = Single::of_int(n as int);
    lemma_pow2_pos(149);
    assert(loads[least].within(0, 100) && loads[most].within(0, 100));
    assert forall|i: int| 0 <= i < loads.len() implies (#[trigger] loads[i]).finite() && low
        <= loads[i].value() <= high by {
        bounded_numbers_are_finite(loads[i], 0, 100);
    }
    lemma_added_up_is_near(loads, low, high);
    let sum = added_up(loads);
    lemma_count(n);
    lemma_quotient_is_near(sum, n);
    let q = sum.quotient(count).value();
    lemma_mean_is_near(n as int, count.value(), sum.value(), q, low, high, one);
    small_integers_are_exact(0);
    small_integers_are_exact(100);
    lemma_widened(n as int, low, high, 100 * one);
}

/// The bounds of the mean, from those of the sum and of the quotient.
proof fn lemma_mean_is_near(n: int, c: int, s: int, q: int, low: int, high: int, one: int)
    requires
        n > 0,
        one > 0,
        0 <= low <= high,
        c > 0,
        2 * c >= n * one,
        n < 0x100_0000 ==> c == n * one,
        q >= 0,
        0x80_0000 * (c * q) <= 0x80_0001 * (s * one) + 0x80_0000 * c,
        0x7f_ffff * (s * one) <= 0x80_0000 * (c * q) + 0x80_0000 * c,
        0 <= s <= 2 * (n * high),
        0x80_0000 * s <= 0x80_0000 * (n * high) + 2 * (n * n * high) + 2 * n * 0x80_0000,
        0x80_0000 * (n * low) <= 0x80_0000 * s + 2 * (n * n * low) + 2 * n * 0x80_0000,
    ensures
        0x80_0000 * q <= (0x80_0000 + 4 * n + 8) * high + 4 * 0x80_0000,
        (0x80_0000 - 4 * n - 8) * low <= 0x80_0000 * q + 4 * 0x80_0000,
{
    if n < 0x100_0000 {
        assert(0x80_0000 * (n * q) <= 0x80_0001 * s + 0x80_0000 * n && 0x7f_ffff * s <= 0x80_0000
            * (n * q) + 0x80_0000 * n) by (nonlinear_arith)
            requires
                c == n * one,
                one > 0,
                0x80_0000 * (c * q) <= 0x80_0001 * (s * one) + 0x80_0000 * c,
                0x7f_ffff * (s * one) <= 0x80_0000 * (c * q) + 0x80_0000 * c,
        ;
        let top = 0x80_0000 * high + 2 * (n * high) + 2 * high + 3 * 0x80_0000;
        assert(n * (0x80_0000 * q) <= n * top) by (nonlinear_arith)
            requires
                0x80_0000 * (n * q) <= 0x80_0001 * s + 0x80_0000 * n,
                s <= 2 * (n * high),
                0x80_0000 * s <= 0x80_0000 * (n * high) + 2 * (n * n * high) + 2 * n * 0x80_0000,
                top == 0x80_0000 * high + 2 * (n * high) + 2 * high + 3 * 0x80_0000,
        ;
        assert(0x80_0000 * q <= top) by (nonlinear_arith)
            requires
                n * (0x80_0000 * q) <= n * top,
                n > 0,
        ;
        assert(top <= (0x80_0000 + 4 * n + 8) * high + 4 * 0x80_0000) by (nonlinear_arith)
            requires
                top == 0x80_0000 * high + 2 * (n * high) + 2 * high + 3 * 0x80_0000,
                n > 0,
                high >= 0,
        ;
    } else {
        assert(0x80_0000 * q <= 4 * 0x80_0001 * high + 0x80_0000) by {
            assert(s * one <= 4 * (c * high)) by (nonlinear_arith)
                requires
                    s <= 2 * (n * high),
                    2 * c >= n * one,
                    one > 0,
                    high >= 0,
            ;
            assert(c * (0x80_0000 * q) <= c * (4 * 0x80_0001 * high + 0x80_0000))
                by (nonlinear_arith)
                requires
                    0x80_0000 * (c * q) <= 0x80_0001 * (s * one) + 0x80_0000 * c,
                    s * one <= 4 * (c * high),
            ;
            assert(0x80_0000 * q <= 4 * 0x80_0001 * high + 0x80_0000) by (nonlinear_arith)
                requires
                    c * (0x80_0000 * q) <= c * (4 * 0x80_0001 * high + 0x80_0000),
                    c > 0,
            ;
        }
        assert(4 * 0x80_0001 * high <= (0x80_0000 + 4 * n + 8) * high) by (nonlinear_arith)
            requires
                n >= 0x100_0000,
                high >= 0,
        ;
    }
    if 4 * n + 8 >= 0x80_0000 {
        assert((0x80_0000 - 4 * n - 8) * low <= 0) by (nonlinear_arith)
            requires
                4 * n + 8 >= 0x80_0000,
                low >= 0,
        ;
    } else {
        let sum_low = 0x80_0000 * (n * low) - 2 * (n * n * low) - 2 * n * 0x80_0000;
        assert(n * low >= 0 && n * n * low >= 0) by (nonlinear_arith)
            requires
                n > 0,
                low >= 0,
        ;
        // A share of 1 in 2^23 of the sum is no more than the same share of what it
        // is compared with.
        assert(0x7f_ffff * s >= sum_low - n * low);
        let bottom = 0x80_0000 * low - 2 * (n * low) - low - 3 * 0x80_0000;
        assert(n * bottom <= n * (0x80_0000 * q)) by (nonlinear_arith)
            requires
                0x7f_ffff * s <= 0x80_0000 * (n * q) + 0x80_0000 * n,
                0x7f_ffff * s >= sum_low - n * low,
                sum_low == 0x80_0000 * (n * low) - 2 * (n * n * low) - 2 * n * 0x80_0000,
                bottom == 0x80_0000 * low - 2 * (n * low) - low - 3 * 0x80_0000,
        ;
        assert(bottom <= 0x80_0000 * q) by (nonlinear_arith)
            requires
                n * bottom <= n * (0x80_0000 * q),
                n > 0,
        ;
        assert((0x80_0000 - 4 * n - 8) * low <= bottom + 4 * 0x80_0000) by (nonlinear_arith)
            requires
                bottom == 0x80_0000 * low - 2 * (n * low) - low - 3 * 0x80_0000,
                n > 0,
                low >= 0,
        ;
    }
}

/// The bounds of the mean hold of 0 and 100 percent too, where the mean is moved
/// there.
proof fn lemma_widened(n: int, low: int, high: int, full: int)
    requires
        n > 0,
        0 <= low <= full,
        0 <= high,
    ensures
        0 <= (0x80_0000 + 4 * n + 8) * high,
        (0x80_0000 - 4 * n - 8) * low <= 0x80_0000 * full,
{
    assert(0 <= (0x80_0000 + 4 * n + 8) * high) by (nonlinear_arith)
        requires
            n > 0,
            0 <= high,
    ;
    assert((0x80_0000 - 4 * n - 8) * low <= 0x80_0000 * full) by (nonlinear_arith)
        requires
            n > 0,
            0 <= low <= full,
    ;
}

/// The true sum of loads.
pub open spec fn true_sum(loads: Seq<Single>) -> int
    decreases loads.len(),
{
    if loads.len() == 0 {
        0
    } else {
        true_sum(loads.drop_last()) + loads.last().value()
    }
}

/// The true sum of one load is the load, and that of two lists together is that of the
/// one and that of the other.
pub proof fn true_sums_add_up(load: Single, first: Seq<Single>, second: Seq<Single>)
    ensures
        true_sum(seq![load]) == load.value(),
        true_sum(first + second) == true_sum(first) + true_sum(second),
    decreases second.len(),
{
    reveal_with_fuel(true_sum, 2);
    assert(seq![load].drop_last() =~= Seq::empty());
    if second.len() == 0 {
        assert(first + second =~= first);
    } else {
        true_sums_add_up(load, first, second.drop_last());
        assert((first + second).drop_last() =~= first + second.drop_last());
    }
}

/// Loads added up one by one are near to their true sum: with `n` of them, `2 n` parts
/// in 2^23, and `2 n` times the smallest number above zero.
proof fn lemma_added_up_is_the_sum(loads: Seq<Single>)
    requires
        loads.len() <= u64::MAX,
        forall|i: int| 0 <= i < loads.len() ==> (#[trigger] loads[i]).within(0, 100),
    ensures
        ({
            let n = loads.len();
            let s = added_up(loads).value();
            let sum = true_sum(loads);
            &&& 0 <= s <= 2 * sum
            &&& 0 <= sum <= n * (100 * single_one())
            &&& 0x80_0000 * apart(s, sum) <= 2 * (n * sum) + 2 * n * 0x80_0000
        }),
        added_up(loads).finite(),
    decreases loads.len(),
{
    let most = 100 * single_one();
    lemma_magnitude_zero(23);
    lemma_pow2_pos(149);
    if loads.len() > 0 {
        let rest = loads.drop_last();
        let n = loads.len() as int;
        let k = n - 1;
        let last = loads.last();
        let x = last.value();
        assert forall|i: int| 0 <= i < rest.len() implies (#[trigger] rest[i]).within(0, 100) by {
            assert(rest[i] == loads[i]);
        }
        lemma_added_up_is_the_sum(rest);
        assert(last == loads[n - 1]);
        bounded_numbers_are_finite(last, 0, 100);
        let before = added_up(rest);
        let a = before.value();
        let sum = true_sum(rest);
        lemma_few_loads(k, most, 2 * (k * most) + most);
        assert(n * most == k * most + most && n * (sum + x) == k * sum + k * x + sum + x && k * x
            >= 0) by (nonlinear_arith)
            requires
                n == k + 1,
                k >= 0,
                x >= 0,
        ;
        lemma_sum_is_near(before, last);
        lemma_few_loads(n, most, added_up(loads).value());
        lemma_below_infinity(added_up(loads));
    } else {
        assert(0 * most == 0 && 0nat * 0 == 0) by (nonlinear_arith);
    }
}

/// The load of the machine, times the number of its processors, is the sum of their
/// loads, but for rounding: with `n` processors, `2 n + 2` parts in 2^23, and `3 n`
/// times the smallest number above zero.
pub proof fn mean_times_count_is_the_sum(loads: Seq<Single>)
    requires
        0 < loads.len() < 0x100_0000,
        forall|i: int| 0 <= i < loads.len() ==> (#[trigger] loads[i]).within(0, 100),
    ensures
        ({
            let n = loads.len();
            0x80_0000 * apart(n * mean_load(loads).value(), true_sum(loads)) <= (2 * n + 2)
                * true_sum(loads) + 3 * n * 0x80_0000
        }),
{
    let n = loads.len() as int;
    let one = single_one();
    let count = Single::of_int(n);
    lemma_pow2_pos(149);
    lemma_added_up_is_the_sum(loads);
    let sum = added_up(loads);
    let s = sum.value();
    let t = true_sum(loads);
    lemma_count(n as nat);
    lemma_quotient_is_near(sum, n as nat);
    let q = sum.quotient(count).value();
    let c = count.value();
    assert(0x80_0000 * (n * q) <= 0x80_0001 * s + 0x80_0000 * n && 0x7f_ffff * s <= 0x80_0000 * (n
        * q) + 0x80_0000 * n) by (nonlinear_arith)
        requires
            c == n * one,
            one > 0,
            0x80_0000 * (c * q) <= 0x80_0001 * (s * one) + 0x80_0000 * c,
            0x7f_ffff * (s * one) <= 0x80_0000 * (c * q) + 0x80_0000 * c,
    ;
    assert((2 * n + 2) * t == 2 * (n * t) + 2 * t) by (nonlinear_arith);
    assert(0x80_0000 * apart(n * q, t) <= (2 * n + 2) * t + 3 * n * 0x80_0000);
    small_integers_are_exact(0);
    small_integers_are_exact(100);
    if q > 100 * one {
        assert(n * q >= n * (100 * one)) by (nonlinear_arith)
            requires
                q > 100 * one,
                n > 0,
        ;
    }
}

/// No processor, no load.
pub proof fn no_processor_is_no_load()
    ensures
        mean_load(Seq::empty()).value() == 0,
{
    lemma_magnitude_zero(23);
}

} // verus!
