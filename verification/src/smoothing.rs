//! What smoothed temperatures keep to: they move towards their targets, and stay
//! in the band of the estimates where no sensor reports.
use crate::accuracy::{
    apart, lemma_finite, lemma_infinity, opposite_is_exact, opposites_move_out_of_products,
    sum_is_near,
};
use crate::arithmetic::{absolute, small_integers_are_exact, SINGLE_INFINITY};
use crate::bounds::{
    bounded_numbers_are_finite, integers_are_finite, lemma_ordered, product_keeps_the_sign,
    products_keep_order, rounded_result_is_a_number, sum_is_a_number, sums_keep_order,
};
use crate::formulas::{cpu_temperature, gpu_temperature, is_warm, smoothed};
use crate::number::{
    lemma_magnitude_increases, lemma_magnitude_zero, magnitude_value, single_one, Single,
};
use crate::rounding::{
    lemma_nearest_at, nearest_pattern, rounding_error_is_small, rounding_stops_at_numbers,
};
use vstd::arithmetic::power2::{lemma2_to64, lemma_pow2_adds, lemma_pow2_pos, pow2};
use vstd::prelude::*;

verus! {

/// Whether the number is `t * 2^k`, in the units of `value`, finite and above
/// zero.
spec fn is_at(x: Single, t: nat, k: nat) -> bool {
    &&& x.finite()
    &&& !x.negative()
    &&& x.value() == t * pow2(k)
    &&& x.value() > 0
}

/// How a result is rounded: down to `t * 2^s`, or `up` to the number after it. The
/// power `2^s` stands beside its exponent, as `w`.
struct Rounding {
    s: nat,
    w: nat,
    t: nat,
    up: bool,
}

impl Rounding {
    spec fn digits(self) -> nat {
        if self.up {
            self.t + 1
        } else {
            self.t
        }
    }

    /// Whether `x / y` is rounded like this.
    spec fn fits(self, x: nat, y: nat) -> bool {
        let middle = y * (2 * self.t + 1) * self.w;
        &&& 0x80_0000 <= self.t < 0x100_0000
        &&& y * self.t * self.w <= x < y * (self.t + 1) * self.w
        &&& self.up ==> 2 * x > middle || (2 * x == middle && self.t % 2 == 1)
        &&& !self.up ==> 2 * x < middle || (2 * x == middle && self.t % 2 == 0)
    }
}

proof fn lemma_rounded(n: nat, d: nat, x: nat, y: nat, j: nat, how: Rounding)
    requires
        d > 0,
        y > 0,
        n * y == x * d * pow2(j),
        j + how.s <= 252,
        how.w == pow2(how.s),
        how.fits(x, y),
    ensures
        is_at(Single::nearest(false, n, d), how.digits(), j + how.s),
{
    lemma2_to64();
    lemma_pow2_pos(j + how.s);
    lemma_nearest_at(n, d, x, y, j, how.s, how.t, how.up, 23, SINGLE_INFINITY as nat);
    rounded_result_is_a_number(false, n, d);
    let q = pow2(j + how.s);
    assert(how.digits() * q > 0) by (nonlinear_arith)
        requires
            how.digits() > 0,
            q > 0,
    ;
}

/// A fraction of two integers.
proof fn lemma_fraction_at(n: nat, d: nat, r: nat, scale: nat, how: Rounding)
    requires
        d > 0,
        r <= 149,
        scale == pow2(r),
        how.s == 0,
        how.w == 1,
        how.fits(n * scale, d),
    ensures
        is_at(Single::fraction(n, d), how.digits(), (149 - r) as nat),
{
    let j = (149 - r) as nat;
    let x = n * scale;
    lemma2_to64();
    lemma_pow2_adds(r, j);
    assert((n * pow2(149)) * d == x * d * pow2(j)) by (nonlinear_arith)
        requires
            x == n * scale,
            pow2(149) == scale * pow2(j),
    ;
    lemma_rounded(n * single_one() as nat, d, x, d, j, how);
}

/// A product.
proof fn lemma_product_at(a: Single, b: Single, ta: nat, ka: nat, tb: nat, kb: nat, how: Rounding)
    requires
        is_at(a, ta, ka),
        is_at(b, tb, kb),
        149 <= ka + kb,
        ka + kb - 149 + how.s <= 252,
        how.w == pow2(how.s),
        how.fits(ta * tb, 1),
    ensures
        is_at(a.product(b), how.digits(), (ka + kb - 149 + how.s) as nat),
{
    let j = (ka + kb - 149) as nat;
    let one = single_one() as nat;
    let n = absolute(a.value()) * absolute(b.value());
    lemma_pow2_pos(149);
    lemma_pow2_adds(ka, kb);
    lemma_pow2_adds(149, j);
    assert(n * 1 == (ta * tb) * one * pow2(j)) by (nonlinear_arith)
        requires
            n == (ta * pow2(ka)) * (tb * pow2(kb)),
            pow2(ka) * pow2(kb) == one * pow2(j),
    ;
    lemma_rounded(n, one, ta * tb, 1, j, how);
}

/// A sum of two numbers, the digits of the first `g` times those of the second.
proof fn lemma_sum_at(
    a: Single,
    b: Single,
    ta: nat,
    tb: nat,
    k: nat,
    e: nat,
    g: nat,
    how: Rounding,
)
    requires
        is_at(a, ta, k + e),
        is_at(b, tb, k),
        k + how.s <= 252,
        g == pow2(e),
        how.w == pow2(how.s),
        how.fits(ta * g + tb, 1),
    ensures
        is_at(a.sum(b), how.digits(), k + how.s),
{
    let n = absolute(a.value() + b.value());
    let x = ta * g + tb;
    lemma_pow2_adds(k, e);
    assert(n * 1 == x * 1 * pow2(k)) by (nonlinear_arith)
        requires
            n == ta * pow2(k + e) + tb * pow2(k),
            x == ta * g + tb,
            pow2(k + e) == pow2(k) * g,
    ;
    lemma_rounded(n, 1, x, 1, k, how);
}

/// The weights of the old temperature and of the target.
proof fn lemma_weights()
    ensures
        is_at(Single::fraction(88, 100), 14763950, 125),
        is_at(Single::fraction(12, 100), 16106127, 122),
{
    lemma2_to64();
    lemma_fraction_at(88, 100, 24, 16777216, Rounding { s: 0, w: 1, t: 14763950, up: false });
    lemma_fraction_at(12, 100, 27, 134217728, Rounding { s: 0, w: 1, t: 16106127, up: false });
}

/// The two weights make up one, but for `2^122`.
proof fn lemma_weights_add_up()
    ensures
        Single::fraction(88, 100).value() + Single::fraction(12, 100).value() + pow2(122)
            == single_one(),
{
    lemma_weights();
    lemma2_to64();
    lemma_pow2_adds(3, 122);
    lemma_pow2_adds(27, 122);
}

proof fn lemma_whole_at(n: nat)
    requires
        0 < n < 0x100_0000,
    ensures
        is_at(Single::of_int(n as int), n, 149),
{
    lemma_pow2_pos(149);
    small_integers_are_exact(n);
    integers_are_finite(n as int);
    assert(n * single_one() > 0) by (nonlinear_arith)
        requires
            n > 0,
            single_one() > 0,
    ;
}

/// A whole temperature that is its own target, rounded step by step, stays what
/// it is.
proof fn lemma_settled_at(
    n: nat,
    scale: nat,
    old_part: Rounding,
    new_part: Rounding,
    whole: Rounding,
)
    requires
        0 < n < 0x1000,
        old_part.s == new_part.s <= 7,
        whole.s == 3,
        old_part.w == pow2(old_part.s),
        new_part.w == pow2(new_part.s),
        whole.w == 8,
        old_part.fits(n * 14763950, 1),
        new_part.fits(n * 16106127, 1),
        whole.fits(old_part.digits() * 8 + new_part.digits(), 1),
        scale == pow2((24 - new_part.s) as nat),
        whole.digits() == n * scale,
    ensures
        smoothed(Single::of_int(n as int), Single::of_int(n as int)).value() == n * single_one(),
        smoothed(Single::of_int(n as int), Single::of_int(n as int)).finite(),
{
    let x = Single::of_int(n as int);
    let k = 122 + new_part.s;
    let r = (24 - new_part.s) as nat;
    lemma2_to64();
    lemma_weights();
    lemma_whole_at(n);
    let p = x.product(Single::fraction(88, 100));
    let q = x.product(Single::fraction(12, 100));
    lemma_product_at(x, Single::fraction(88, 100), n, 149, 14763950, 125, old_part);
    lemma_product_at(x, Single::fraction(12, 100), n, 149, 16106127, 122, new_part);
    lemma_sum_at(p, q, old_part.digits(), new_part.digits(), k, 3, 8, whole);
    lemma_pow2_adds(r, k + whole.s);
    assert(whole.digits() * pow2(k + whole.s) == n * single_one()) by (nonlinear_arith)
        requires
            whole.digits() == n * scale,
            scale * pow2(k + whole.s) == single_one(),
    ;
}

/// The ends of the band from 38 to 82 degrees are their own smoothed values.
proof fn lemma_cpu_ends_are_settled()
    ensures
        smoothed(Single::of_int(38), Single::of_int(38)).value() == 38 * single_one(),
        smoothed(Single::of_int(82), Single::of_int(82)).value() == 82 * single_one(),
{
    lemma2_to64();
    lemma_settled_at(
        38,
        262144,
        Rounding { s: 6, w: 64, t: 8766095, up: false },
        Rounding { s: 6, w: 64, t: 9563012, up: true },
        Rounding { s: 3, w: 8, t: 9961471, up: true },
    );
    lemma_settled_at(
        82,
        131072,
        Rounding { s: 7, w: 128, t: 9458155, up: false },
        Rounding { s: 7, w: 128, t: 10317987, up: true },
        Rounding { s: 3, w: 8, t: 10747903, up: true },
    );
}

/// The ends of the band from 42 to 78 degrees are their own smoothed values.
proof fn lemma_gpu_ends_are_settled()
    ensures
        smoothed(Single::of_int(42), Single::of_int(42)).value() == 42 * single_one(),
        smoothed(Single::of_int(78), Single::of_int(78)).value() == 78 * single_one(),
{
    lemma2_to64();
    lemma_settled_at(
        42,
        262144,
        Rounding { s: 6, w: 64, t: 9688842, up: false },
        Rounding { s: 6, w: 64, t: 10569645, up: true },
        Rounding { s: 3, w: 8, t: 11010047, up: true },
    );
    lemma_settled_at(
        78,
        131072,
        Rounding { s: 7, w: 128, t: 8996782, up: false },
        Rounding { s: 7, w: 128, t: 9814671, up: false },
        Rounding { s: 3, w: 8, t: 10223615, up: true },
    );
}

/// Smoothing keeps the order: warmer temperatures and warmer targets give warmer
/// results.
pub proof fn smoothing_keeps_order(before: Single, target: Single, before2: Single, target2: Single)
    requires
        before.finite(),
        target.finite(),
        before2.finite(),
        target2.finite(),
        0 <= before.value() <= before2.value(),
        0 <= target.value() <= target2.value(),
    ensures
        smoothed(before2, target2).reaches(smoothed(before, target)),
        smoothed(before, target).value() >= 0,
{
    let old_weight = Single::fraction(88, 100);
    let new_weight = Single::fraction(12, 100);
    lemma_weights();
    lemma_weights_add_up();
    lemma_part_is_finite(before, old_weight);
    lemma_part_is_finite(before2, old_weight);
    lemma_part_is_finite(target, new_weight);
    lemma_part_is_finite(target2, new_weight);
    products_keep_order(before, before2, old_weight);
    products_keep_order(target, target2, new_weight);
    sums_keep_order(
        before.product(old_weight),
        target.product(new_weight),
        before2.product(old_weight),
        target2.product(new_weight),
    );
}

/// A part of a finite number is finite.
proof fn lemma_part_is_finite(x: Single, weight: Single)
    requires
        x.finite(),
        x.value() >= 0,
        weight.finite(),
        0 < weight.value() <= single_one(),
    ensures
        x.product(weight).finite(),
{
    let one = single_one() as nat;
    let m = absolute(x.value());
    let n = m * absolute(weight.value());
    lemma_pow2_pos(149);
    assert(n <= one * m) by (nonlinear_arith)
        requires
            n == m * absolute(weight.value()),
            absolute(weight.value()) <= one,
    ;
    rounded_result_is_a_number(x.negative() != weight.negative(), n, one);
    rounding_stops_at_numbers(n, one, 23, SINGLE_INFINITY as nat, x.unsigned());
}

/// The span of the estimates for the processor.
proof fn lemma_cpu_span()
    ensures
        Single::fraction(44, 100).finite(),
        Single::fraction(44, 100).value() > 0,
        Single::of_int(100).product(Single::fraction(44, 100)).finite(),
        Single::of_int(100).product(Single::fraction(44, 100)).value() == 44 * single_one(),
{
    lemma2_to64();
    let how = Rounding { s: 7, w: 128, t: 11534335, up: true };
    lemma_fraction_at(44, 100, 25, 33554432, Rounding { s: 0, w: 1, t: 14763950, up: false });
    lemma_whole_at(100);
    lemma_product_at(
        Single::of_int(100),
        Single::fraction(44, 100),
        100,
        149,
        14763950,
        124,
        how,
    );
    lemma_pow2_adds(18, 131);
    assert(how.digits() == 11534336);
    let v = Single::of_int(100).product(Single::fraction(44, 100)).value();
    assert(v == 44 * single_one()) by (nonlinear_arith)
        requires
            v == how.digits() * pow2(131),
            how.digits() == 11534336,
            single_one() == 0x4_0000 * pow2(131),
    ;
}

/// The span of the estimates for the graphics card.
proof fn lemma_gpu_span()
    ensures
        Single::fraction(36, 100).finite(),
        Single::fraction(36, 100).value() > 0,
        Single::of_int(100).product(Single::fraction(36, 100)).finite(),
        Single::of_int(100).product(Single::fraction(36, 100)).value() == 36 * single_one(),
{
    lemma2_to64();
    let how = Rounding { s: 7, w: 128, t: 9437184, up: false };
    lemma_fraction_at(36, 100, 25, 33554432, Rounding { s: 0, w: 1, t: 12079595, up: true });
    lemma_whole_at(100);
    lemma_product_at(
        Single::of_int(100),
        Single::fraction(36, 100),
        100,
        149,
        12079596,
        124,
        how,
    );
    lemma_pow2_adds(18, 131);
    assert(how.digits() == 9437184);
    let v = Single::of_int(100).product(Single::fraction(36, 100)).value();
    assert(v == 36 * single_one()) by (nonlinear_arith)
        requires
            v == how.digits() * pow2(131),
            how.digits() == 9437184,
            single_one() == 0x4_0000 * pow2(131),
    ;
}

/// The processor's temperature, estimated from a percentage, lies between 38 and
/// 82 degrees, and that of the graphics card between 42 and 78.
pub proof fn estimates_keep_their_bands(load: Single)
    requires
        load.within(0, 100),
    ensures
        cpu_temperature(load).within(38, 82),
        gpu_temperature(load).within(42, 78),
{
    lemma_cpu_span();
    lemma_gpu_span();
    lemma_estimate(load, Single::fraction(44, 100), 38, 44);
    lemma_estimate(load, Single::fraction(36, 100), 42, 36);
}

proof fn lemma_estimate(load: Single, weight: Single, base: nat, span: nat)
    requires
        load.within(0, 100),
        weight.finite(),
        weight.value() > 0,
        Single::of_int(100).product(weight).finite(),
        Single::of_int(100).product(weight).value() == span * single_one(),
        0 < base < 0x1000,
        span < 0x1000,
    ensures
        Single::of_int(base as int).sum(load.product(weight)).within(
            base as int,
            (base + span) as int,
        ),
{
    let one = single_one() as nat;
    let inf = SINGLE_INFINITY as nat;
    let least = Single::of_int(base as int);
    let most = Single::of_int((base + span) as int);
    let part = load.product(weight);
    let full = Single::of_int(100);
    lemma_pow2_pos(149);
    lemma_magnitude_zero(23);
    lemma_whole_at(base);
    lemma_whole_at(base + span);
    lemma_whole_at(100);
    bounded_numbers_are_finite(load, 0, 100);
    products_keep_order(load, full, weight);
    if part.infinite() {
        lemma_magnitude_increases(full.product(weight).unsigned(), inf, 23);
    }
    let v = least.value() + part.value();
    assert(base * single_one() + span * single_one() == (base + span) * single_one())
        by (nonlinear_arith);
    sum_is_a_number(least, part);
    rounded_result_is_a_number(false, absolute(v), 1);
    rounding_stops_at_numbers(absolute(v), 1, 23, inf, least.unsigned());
    rounding_stops_at_numbers(absolute(v), 1, 23, inf, most.unsigned());
    lemma_ordered(least.unsigned(), nearest_pattern(absolute(v), 1, 23, inf));
    lemma_ordered(nearest_pattern(absolute(v), 1, 23, inf), most.unsigned());
}

proof fn lemma_band(before: Single, target: Single, low: nat, high: nat)
    requires
        0 < low <= high < 0x1000,
        before.within(low as int, high as int),
        target.within(low as int, high as int),
        smoothed(Single::of_int(low as int), Single::of_int(low as int)).value() == low
            * single_one(),
        smoothed(Single::of_int(high as int), Single::of_int(high as int)).value() == high
            * single_one(),
    ensures
        smoothed(before, target).within(low as int, high as int),
{
    let least = Single::of_int(low as int);
    let most = Single::of_int(high as int);
    lemma_whole_at(low);
    lemma_whole_at(high);
    bounded_numbers_are_finite(before, low, high);
    bounded_numbers_are_finite(target, low, high);
    smoothing_keeps_order(least, least, before, target);
    smoothing_keeps_order(before, target, most, most);
}

/// Smoothing keeps to the bands of the estimates: from 38 to 82 degrees, and from
/// 42 to 78.
pub proof fn smoothing_keeps_the_bands(before: Single, target: Single)
    ensures
        before.within(38, 82) && target.within(38, 82) ==> smoothed(before, target).within(38, 82),
        before.within(42, 78) && target.within(42, 78) ==> smoothed(before, target).within(42, 78),
{
    lemma_cpu_ends_are_settled();
    lemma_gpu_ends_are_settled();
    if before.within(38, 82) && target.within(38, 82) {
        lemma_band(before, target, 38, 82);
    }
    if before.within(42, 78) && target.within(42, 78) {
        lemma_band(before, target, 42, 78);
    }
}

/// A part of a number is off by no more than rounding makes it.
proof fn lemma_part_is_near(x: Single, weight: Single)
    requires
        x.finite(),
        x.value() >= 0,
        weight.finite(),
        0 < weight.value() <= single_one(),
    ensures
        ({
            let n = x.value() * weight.value();
            let r = single_one() * x.product(weight).value();
            &&& 0x80_0000 * r <= 0x80_0001 * n + 0x80_0000 * single_one()
            &&& 0x80_0000 * n <= 0x80_0000 * r + n + 0x80_0000 * single_one()
        }),
        x.product(weight).value() >= 0,
{
    let one = single_one() as nat;
    let inf = SINGLE_INFINITY as nat;
    let m = absolute(x.value());
    let n = m * absolute(weight.value());
    lemma2_to64();
    lemma_pow2_pos(149);
    lemma_magnitude_zero(23);
    product_keeps_the_sign(x, weight);
    rounded_result_is_a_number(x.negative() != weight.negative(), n, one);
    rounding_error_is_small(n, one, 23, inf);
    lemma_magnitude_increases(x.unsigned(), inf, 23);
    let most = magnitude_value(inf, 23);
    assert(n <= one * most) by (nonlinear_arith)
        requires
            n == m * absolute(weight.value()),
            absolute(weight.value()) <= one,
            m <= most,
    ;
    if weight.negative() {
        lemma_ordered(0, weight.unsigned());
    }
    if x.negative() {
        if x.unsigned() > 0 {
            lemma_magnitude_increases(0, x.unsigned(), 23);
        }
        assert(n == 0 && one * 0 == 0) by (nonlinear_arith)
            requires
                n == m * absolute(weight.value()),
                m == 0,
        ;
        rounding_stops_at_numbers(n, one, 23, inf, 0);
    }
}

/// A temperature that is its own target stays where it is, up to rounding.
proof fn lemma_settled_is_near(x: Single)
    requires
        x.finite(),
        x.value() >= 0,
    ensures
        ({
            let s = smoothed(x, x).value();
            &&& 0x80_0000 * s <= 0x80_0004 * x.value() + 4 * 0x80_0000
            &&& 0x7f_fffc * x.value() <= 0x80_0000 * s + 4 * 0x80_0000
        }),
{
    let one = single_one();
    let inf = SINGLE_INFINITY as nat;
    let a = Single::fraction(88, 100);
    let b = Single::fraction(12, 100);
    let v = x.value();
    let p = x.product(a).value();
    let q = x.product(b).value();
    let e = pow2(122) as int;
    lemma2_to64();
    lemma_pow2_pos(122);
    lemma_pow2_pos(149);
    lemma_pow2_adds(27, 122);
    lemma_magnitude_zero(23);
    lemma_weights();
    lemma_weights_add_up();
    lemma_part_is_finite(x, a);
    lemma_part_is_finite(x, b);
    lemma_part_is_near(x, a);
    lemma_part_is_near(x, b);
    let parts = p + q;
    assert(v * a.value() + v * b.value() == v * (one - e) && one * p + one * q == one * parts)
        by (nonlinear_arith)
        requires
            a.value() + b.value() + e == one,
            parts == p + q,
    ;
    assert(0x80_0000 * parts <= 0x80_0001 * v + 2 * 0x80_0000) by (nonlinear_arith)
        requires
            0x80_0000 * (one * parts) <= 0x80_0001 * (v * (one - e)) + 2 * (0x80_0000 * one),
            v >= 0,
            e > 0,
            one > 0,
    ;
    assert(0x7f_fffe * v <= 0x80_0000 * parts + 2 * 0x80_0000) by {
        let left = 0x7f_ffff * v;
        let right = 0x80_0000 * parts + 2 * 0x80_0000;
        assert(left * 0x7ff_ffff <= right * 0x800_0000) by (nonlinear_arith)
            requires
                0x80_0000 * (v * (one - e)) <= 0x80_0000 * (one * parts) + v * (one - e) + 2 * (
                0x80_0000 * one),
                one == 0x800_0000 * e,
                left == 0x7f_ffff * v,
                right == 0x80_0000 * parts + 2 * 0x80_0000,
                e > 0,
        ;
    }
    let n = absolute(parts);
    let s = smoothed(x, x).value();
    sum_is_a_number(x.product(a), x.product(b));
    if parts > 0 {
        rounded_result_is_a_number(false, n, 1);
        rounding_error_is_small(n, 1, 23, inf);
        rounding_stops_at_numbers(n, 1, 23, inf, inf);
        lemma_magnitude_increases(x.unsigned(), inf, 23);
        let r = magnitude_value(nearest_pattern(n, 1, 23, inf), 23);
        let most = magnitude_value(inf, 23);
        assert(s == r);
        assert(1 * r == r && 1 * most == most);
        assert(0x80_0000 * r <= 0x80_0001 * n + 0x80_0000);
        if n <= most {
            assert(0x80_0000 * n <= 0x80_0000 * r + n + 0x80_0000);
        } else {
            assert(r == most);
        }
    } else {
        assert(s == 0);
    }
}

/// Where the old value or the target is infinite, so is the result.
proof fn lemma_infinite_result(before: Single, target: Single)
    requires
        is_warm(before),
        is_warm(target),
        before.infinite() || target.infinite(),
    ensures
        smoothed(before, target).value() == magnitude_value(SINGLE_INFINITY as nat, 23),
        before.value() <= smoothed(before, target).value(),
        target.value() <= smoothed(before, target).value(),
        before.value() == smoothed(before, target).value() || target.value() == smoothed(
            before,
            target,
        ).value(),
{
    let inf = SINGLE_INFINITY as nat;
    let a = Single::fraction(88, 100);
    let b = Single::fraction(12, 100);
    lemma_weights();
    lemma_weights_add_up();
    lemma_pow2_pos(122);
    lemma_magnitude_zero(23);
    lemma_magnitude_increases(0, inf, 23);
    lemma_ordered(before.unsigned(), inf);
    lemma_ordered(target.unsigned(), inf);
    product_keeps_the_sign(before, a);
    product_keeps_the_sign(target, b);
    if before.finite() {
        lemma_part_is_finite(before, a);
    }
    if target.finite() {
        lemma_part_is_finite(target, b);
    }
}

/// Whether `x` lies between `a` and `b`, but for rounding: four parts in 2^23, and
/// four times the smallest number above zero. Here an infinity counts as one step
/// above the largest number.
pub open spec fn lies_between(x: Single, a: Single, b: Single) -> bool {
    let low = if a.value() <= b.value() {
        a.value()
    } else {
        b.value()
    };
    let high = if a.value() <= b.value() {
        b.value()
    } else {
        a.value()
    };
    &&& 0x80_0000 * x.value() <= 0x80_0004 * high + 4 * 0x80_0000
    &&& 0x7f_fffc * low <= 0x80_0000 * x.value() + 4 * 0x80_0000
}

/// A smoothed temperature lies between its old value and its target, but for
/// rounding.
pub proof fn smoothing_stays_between(before: Single, target: Single)
    requires
        is_warm(before),
        is_warm(target),
    ensures
        lies_between(smoothed(before, target), before, target),
{
    if before.infinite() || target.infinite() {
        lemma_infinite_result(before, target);
    } else {
        let (colder, warmer) = if before.value() <= target.value() {
            (before, target)
        } else {
            (target, before)
        };
        lemma_settled_is_near(colder);
        lemma_settled_is_near(warmer);
        smoothing_keeps_order(colder, colder, before, target);
        smoothing_keeps_order(before, target, warmer, warmer);
    }
}

/// The part of `n` hundredths of a temperature.
proof fn lemma_hundredths(x: Single, weight: Single, n: int)
    requires
        x.finite(),
        x.value() >= 0,
        weight.finite(),
        0 < weight.value() <= single_one(),
        0 < n <= 100,
        0x80_0000 * apart(100 * weight.value(), n * single_one()) <= n * single_one(),
    ensures
        ({
            let p = x.product(weight).value();
            &&& 0x80_0000 * apart(100 * p, n * x.value()) <= 3 * (n * x.value()) + 100
                * 0x80_0000
            &&& p >= 0
        }),
{
    let one = single_one();
    let v = x.value();
    let w = weight.value();
    let p = x.product(weight).value();
    lemma_pow2_pos(149);
    lemma_part_is_near(x, weight);
    let vw = v * w;
    let nv = n * v;
    assert(0x80_0000 * (100 * vw) <= 0x80_0001 * (nv * one) && 0x7f_ffff * (nv * one) <= 0x80_0000
        * (100 * vw) && nv >= v) by (nonlinear_arith)
        requires
            vw == v * w,
            nv == n * v,
            0x80_0000 * (100 * w) <= 0x80_0001 * (n * one),
            0x7f_ffff * (n * one) <= 0x80_0000 * (100 * w),
            n >= 1,
            v >= 0,
            one > 0,
    ;
    assert(0x80_0000 * (100 * (p * one)) <= 0x80_0003 * (nv * one) + 100 * (0x80_0000 * one)
        && 0x7f_fffd * (nv * one) <= 0x80_0000 * (100 * (p * one)) + 100 * (0x80_0000 * one)) by {
        assert(nv * one >= 0) by (nonlinear_arith)
            requires
                nv >= v,
                v >= 0,
                one > 0,
        ;
        assert(one * p == p * one) by (nonlinear_arith);
    }
    assert(0x80_0000 * (100 * p) <= 0x80_0003 * nv + 100 * 0x80_0000 && 0x7f_fffd * nv
        <= 0x80_0000 * (100 * p) + 100 * 0x80_0000) by (nonlinear_arith)
        requires
            0x80_0000 * (100 * (p * one)) <= 0x80_0003 * (nv * one) + 100 * (0x80_0000 * one),
            0x7f_fffd * (nv * one) <= 0x80_0000 * (100 * (p * one)) + 100 * (0x80_0000 * one),
            one > 0,
    ;
}

/// The part of `n` hundredths of a temperature, on either side of zero.
proof fn lemma_signed_hundredths(x: Single, weight: Single, n: int)
    requires
        x.finite(),
        weight.finite(),
        0 < weight.value() <= single_one(),
        0 < n <= 100,
        0x80_0000 * apart(100 * weight.value(), n * single_one()) <= n * single_one(),
    ensures
        0x80_0000 * apart(100 * x.product(weight).value(), n * x.value()) <= 3 * (n * apart(
            x.value(),
            0,
        )) + 100 * 0x80_0000,
        x.product(weight).finite(),
{
    if x.value() >= 0 {
        lemma_hundredths(x, weight, n);
        lemma_part_is_finite(x, weight);
    } else {
        let y = x.opposite();
        lemma_hundredths(y, weight, n);
        lemma_part_is_finite(y, weight);
        opposites_move_out_of_products(y, weight);
        assert(y.opposite() == x);
        opposite_is_exact(y.product(weight));
        assert(n * x.value() == -(n * y.value())) by (nonlinear_arith)
            requires
                x.value() == -y.value(),
        ;
    }
}

/// A smoothed temperature is 88 percent of the old one and 12 percent of the target,
/// but for rounding: six parts in 2^23 of the two without their signs, and four times
/// the smallest number above zero.
pub proof fn smoothing_weighs_88_to_12(before: Single, target: Single)
    requires
        before.finite(),
        target.finite(),
    ensures
        ({
            let exact = 88 * before.value() + 12 * target.value();
            let size = 88 * apart(before.value(), 0) + 12 * apart(target.value(), 0);
            0x80_0000 * apart(100 * smoothed(before, target).value(), exact) <= 6 * size + 400
                * 0x80_0000
        }),
{
    let one = single_one();
    let a = Single::fraction(88, 100);
    let b = Single::fraction(12, 100);
    let old_part = before.product(a);
    let new_part = target.product(b);
    lemma2_to64();
    lemma_pow2_pos(149);
    lemma_pow2_pos(122);
    lemma_pow2_pos(125);
    lemma_pow2_adds(24, 125);
    lemma_pow2_adds(27, 122);
    lemma_weights();
    lemma_weights_add_up();
    assert(one == 0x100_0000 * pow2(125));
    assert(one == 0x800_0000 * pow2(122));
    assert(a.value() == 14763950 * pow2(125));
    assert(b.value() == 16106127 * pow2(122));
    lemma_signed_hundredths(before, a, 88);
    lemma_signed_hundredths(target, b, 12);
    lemma_weighed_sum(old_part, new_part, before, target);
}

/// The sum of two parts of temperatures.
proof fn lemma_weighed_sum(p: Single, q: Single, before: Single, target: Single)
    requires
        p.finite(),
        q.finite(),
        before.finite(),
        target.finite(),
        0x80_0000 * apart(100 * p.value(), 88 * before.value()) <= 3 * (88 * apart(
            before.value(),
            0,
        )) + 100 * 0x80_0000,
        0x80_0000 * apart(100 * q.value(), 12 * target.value()) <= 3 * (12 * apart(
            target.value(),
            0,
        )) + 100 * 0x80_0000,
    ensures
        ({
            let exact = 88 * before.value() + 12 * target.value();
            let size = 88 * apart(before.value(), 0) + 12 * apart(target.value(), 0);
            0x80_0000 * apart(100 * p.sum(q).value(), exact) <= 6 * size + 400 * 0x80_0000
        }),
{
    let v = p.value() + q.value();
    let inf = SINGLE_INFINITY as nat;
    lemma_infinity();
    lemma_finite(before);
    lemma_finite(target);
    if apart(v, 0) <= pow2(277) {
        sum_is_near(p, q);
    } else {
        // The sum is infinite, and the parts are near to the largest numbers.
        let n = absolute(v);
        rounded_result_is_a_number(v < 0, n, 1);
        rounding_stops_at_numbers(n, 1, 23, inf, inf);
    }
}

/// A temperature falls wherever its target is lower by more than rounding, and rises
/// wherever it is higher by more than that: twelve percent of the difference outweigh
/// the slack of `smoothing_weighs_88_to_12`.
pub proof fn smoothing_moves(before: Single, target: Single)
    requires
        before.finite(),
        target.finite(),
    ensures
        ({
            let slack = 6 * (88 * apart(before.value(), 0) + 12 * apart(target.value(), 0)) + 400
                * 0x80_0000;
            let s = smoothed(before, target).value();
            &&& 0x600_0000 * (before.value() - target.value()) > slack ==> s < before.value()
            &&& 0x600_0000 * (target.value() - before.value()) > slack ==> s > before.value()
        }),
{
    let b = before.value();
    let t = target.value();
    let s = smoothed(before, target).value();
    let exact = 88 * b + 12 * t;
    let size = 88 * apart(b, 0) + 12 * apart(t, 0);
    smoothing_weighs_88_to_12(before, target);
    assert(0x80_0000 * (100 * s) <= 0x80_0000 * exact + 6 * size + 400 * 0x80_0000);
    assert(0x80_0000 * exact <= 0x80_0000 * (100 * s) + 6 * size + 400 * 0x80_0000);
}

/// What is no number stays none when it is smoothed.
pub proof fn smoothing_does_not_hide_no_numbers(before: Single, target: Single)
    requires
        before.nan() || target.nan(),
    ensures
        smoothed(before, target).nan(),
{
}

} // verus!
