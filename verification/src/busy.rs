//! What the load of a processor means: the share of its time in which it was not
//! idle.
use crate::accuracy::{
    apart, difference_is_near, integer_is_near, integers_keep_order, lemma_below_infinity,
    opposite_is_exact, sum_is_near, sum_keeps_order,
};
use crate::arithmetic::{absolute, small_integers_are_exact, SINGLE_INFINITY};
use crate::bounds::{
    clamping_keeps_order, integers_are_finite, lemma_more_than_whole, lemma_ordered,
    part_of_a_whole_is_a_percentage, product_keeps_the_sign, products_keep_order,
    quotients_keep_order, rounded_result_is_a_number, sum_of_integers_is_finite,
};
use crate::cpu::{core_load_is_a_percentage, load_of, CoreDelta};
use crate::estimates::share_times_total_is_the_part;
use crate::formulas::share;
use crate::number::{
    lemma_magnitude_increases, lemma_magnitude_zero, magnitude_value, single_one, Single,
};
use crate::rounding::rounding_keeps_numbers;
use vstd::arithmetic::power2::{lemma2_to64, lemma_pow2_adds, lemma_pow2_strictly_increases, pow2};
use vstd::prelude::*;

verus! {

/// The number one is large, in the units of `value`, and far below infinity.
pub proof fn lemma_one()
    ensures
        single_one() >= 0x1_0000_0000_0000_0000,
        0x1_0000_0000_0000_0000 * single_one() == pow2(213),
        0x100 * pow2(213) == pow2(221),
        pow2(221) < pow2(277),
{
    lemma2_to64();
    lemma_pow2_adds(64, 149);
    lemma_pow2_adds(8, 213);
    lemma_pow2_strictly_increases(64, 149);
    lemma_pow2_strictly_increases(221, 277);
}

/// The time that passed, and the time that was busy, as numbers. `q` and `w` are the
/// true time and the true idle time.
proof fn lemma_times(delta: CoreDelta, q: int, w: int)
    requires
        delta.kernel >= 0,
        delta.user >= 0,
        delta.kernel + delta.user > 0,
        0 <= delta.idle <= delta.kernel + delta.user,
        q == (delta.kernel + delta.user) * single_one(),
        w == delta.idle * single_one(),
    ensures
        ({
            let total = Single::of_int(delta.kernel as int).sum(Single::of_int(delta.user as int));
            let busy = total.difference(Single::of_int(delta.idle as int)).raised(
                Single::nought(),
            );
            &&& total.finite()
            &&& busy.finite()
            &&& 0x80_0000 * apart(total.value(), q) <= 5 * q
            &&& 0x80_0000 * apart(busy.value(), q - w) <= 10 * q
            &&& busy.value() >= 0
        }),
        0 <= w <= q,
        single_one() <= q <= 2 * pow2(213),
{
    let one = single_one();
    let k = delta.kernel as int;
    let u = delta.user as int;
    let i = delta.idle as int;
    let kernel = Single::of_int(k);
    let user = Single::of_int(u);
    let idle = Single::of_int(i);
    let total = kernel.sum(user);
    lemma_one();
    lemma_magnitude_zero(23);
    integer_is_near(k);
    integer_is_near(u);
    integer_is_near(i);
    assert(q == k * one + u * one && 0 <= k * one && 0 <= u * one && 0 <= w <= q && one <= q <= 2
        * (0x1_0000_0000_0000_0000 * one)) by (nonlinear_arith)
        requires
            q == (k + u) * one,
            w == i * one,
            0 <= i <= k + u,
            0 <= k <= 0x1_0000_0000_0000_0000,
            0 <= u <= 0x1_0000_0000_0000_0000,
            1 <= k + u,
            one > 0,
    ;
    sum_is_near(kernel, user);
    assert(0x80_0000 * apart(total.value(), q) <= 5 * q);
    lemma_below_infinity(total);
    difference_is_near(total, idle);
    let rest = total.difference(idle);
    assert(0x80_0000 * apart(rest.value(), q - w) <= 10 * q);
    lemma_below_infinity(rest);
}

/// The time that passed, and the time that was busy, as numbers, where a clock may
/// have gone back. `h` is the sum of the two times without their signs.
proof fn lemma_signed_times(delta: CoreDelta, q: int, w: int, h: int)
    requires
        delta.kernel + delta.user > 0,
        0 <= delta.idle <= delta.kernel + delta.user,
        q == (delta.kernel + delta.user) * single_one(),
        w == delta.idle * single_one(),
        h == (absolute(delta.kernel as int) + absolute(delta.user as int)) * single_one(),
    ensures
        ({
            let total = Single::of_int(delta.kernel as int).sum(Single::of_int(delta.user as int));
            let busy = total.difference(Single::of_int(delta.idle as int)).raised(
                Single::nought(),
            );
            &&& total.finite()
            &&& busy.finite()
            &&& 0x80_0000 * apart(total.value(), q) <= 4 * h
            &&& 0x80_0000 * apart(busy.value(), q - w) <= 9 * h
            &&& busy.value() >= 0
        }),
        0 <= w <= q <= h,
        single_one() <= h <= 2 * pow2(213),
{
    let one = single_one();
    let k = delta.kernel as int;
    let u = delta.user as int;
    let i = delta.idle as int;
    let kernel = Single::of_int(k);
    let user = Single::of_int(u);
    let idle = Single::of_int(i);
    let total = kernel.sum(user);
    let a = k * one;
    let b = u * one;
    lemma_one();
    lemma_magnitude_zero(23);
    integer_is_near(k);
    integer_is_near(u);
    integer_is_near(i);
    assert(q == a + b && h == apart(a, 0) + apart(b, 0) && 0 <= w <= q && q <= h && one <= h <= 2
        * (0x1_0000_0000_0000_0000 * one)) by (nonlinear_arith)
        requires
            q == (k + u) * one,
            w == i * one,
            a == k * one,
            b == u * one,
            h == (absolute(k) + absolute(u)) * one,
            0 <= i <= k + u,
            -0x1_0000_0000_0000_0000 <= k <= 0x1_0000_0000_0000_0000,
            -0x1_0000_0000_0000_0000 <= u <= 0x1_0000_0000_0000_0000,
            1 <= k + u,
            one > 0,
    ;
    assert(0x80_0000 * apart(kernel.value() + user.value(), q) <= 2 * h);
    sum_is_near(kernel, user);
    assert(0x80_0000 * apart(total.value(), q) <= 4 * h);
    lemma_below_infinity(total);
    difference_is_near(total, idle);
    let rest = total.difference(idle);
    assert(0x80_0000 * apart(rest.value(), q - w) <= 9 * h);
    lemma_below_infinity(rest);
}

/// The load of a processor is the share of its time in which it was not idle: over
/// a time of `kernel + user`, of which it was idle for `idle`, the load times that
/// time is a hundred times the rest. It is so up to rounding: 26 parts in 2^23 of
/// the two times without their signs, a hundredfold.
#[verifier::spinoff_prover]
#[verifier::rlimit(60)]
pub proof fn load_is_the_busy_share(delta: CoreDelta)
    requires
        delta.kernel + delta.user > 0,
        0 <= delta.idle <= delta.kernel + delta.user,
    ensures
        ({
            let time = delta.kernel + delta.user;
            let rest = time - delta.idle;
            let moved = absolute(delta.kernel as int) + absolute(delta.user as int);
            0x80_0000 * apart(load_of(delta).value() * time, 100 * (rest * single_one())) <= 2600
                * (moved * single_one())
        }),
{
    let one = single_one();
    let t = delta.kernel + delta.user;
    let i = delta.idle as int;
    let h = (absolute(delta.kernel as int) + absolute(delta.user as int)) * one;
    let q = t * one;
    let w = i * one;
    let total = Single::of_int(delta.kernel as int).sum(Single::of_int(delta.user as int));
    let busy = total.difference(Single::of_int(i)).raised(Single::nought());
    let load = load_of(delta).value();
    let s = total.value();
    let b = busy.value();
    lemma_one();
    lemma_magnitude_zero(23);
    lemma_signed_times(delta, q, w, h);
    core_load_is_a_percentage(delta);
    let y = (t - i) * one;
    assert(y == q - w) by (nonlinear_arith)
        requires
            y == (t - i) * one,
            q == t * one,
            w == i * one,
    ;
    let z = load * t;
    if s <= 0 {
        assert(z == 0) by (nonlinear_arith)
            requires
                z == load * t,
                load == 0,
        ;
    } else {
        let ls = load * s;
        if b > s {
            lemma_more_than_whole(busy, total);
            lemma_hundred();
            lemma_full_ratio(busy.quotient(total));
            assert(ls == 100 * (s * one)) by (nonlinear_arith)
                requires
                    ls == load * s,
                    load == 100 * one,
            ;
            lemma_signed_bounds(t, q, y, s, s, h, load, one);
        } else {
            lemma_pow2_strictly_increases(149, 250);
            assert(b * one <= s * pow2(250)) by (nonlinear_arith)
                requires
                    0 <= b <= s,
                    0 < one <= pow2(250),
            ;
            share_times_total_is_the_part(busy, total);
            part_of_a_whole_is_a_percentage(busy, total);
            assert(load == share(busy, total).value());
            lemma_signed_bounds(t, q, y, s, b, h, load, one);
        }
    }
}

/// What is no less than one, a hundredfold, is no less than a hundred.
proof fn lemma_full_ratio(ratio: Single)
    requires
        !ratio.nan(),
        ratio.value() >= single_one(),
    ensures
        ratio.product(Single::of_int(100)).clamped(0, 100).value() == 100 * single_one(),
{
    let one = Single::of_int(1);
    let hundred = Single::of_int(100);
    lemma_hundred();
    small_integers_are_exact(1);
    small_integers_are_exact(100);
    integers_are_finite(1);
    assert(1nat as int * single_one() == single_one()) by (nonlinear_arith);
    lemma_hundredfold_keeps_order(one, ratio);
    lemma_once(hundred);
}

/// Once a hundred is a hundred.
proof fn lemma_once(hundred: Single)
    requires
        hundred == Single::of_int(100),
    ensures
        Single::of_int(1).product(hundred).value() == 100 * single_one(),
{
    let one = single_one() as nat;
    let inf = SINGLE_INFINITY as nat;
    lemma_hundred();
    lemma_one();
    small_integers_are_exact(1);
    integers_are_finite(1);
    assert(1nat as int * single_one() == single_one()) by (nonlinear_arith);
    let m = magnitude_value(hundred.unsigned(), 23);
    assert(m == 100 * one);
    rounding_keeps_numbers(one, 23, inf, hundred.unsigned());
    rounded_result_is_a_number(false, one * m, one);
}

/// The bounds of the share, from those of the times: `c` is the smaller of the time
/// that passed and the time that was busy, as numbers.
proof fn lemma_signed_bounds(
    t: int,
    q: int,
    y: int,
    s: int,
    c: int,
    h: int,
    load: int,
    one: int,
)
    requires
        t > 0,
        q == t * one,
        0 <= y <= q <= h,
        one >= 0x1_0000_0000_0000_0000,
        0 <= load <= 100 * one,
        0 <= c <= s,
        s > 0,
        0x80_0000 * apart(s, q) <= 4 * h,
        0x80_0000 * apart(c, y) <= 9 * h,
        0x80_0000 * apart(load * s, 100 * (c * one)) <= 300 * (c * one) + 0x4000_0000 * s,
    ensures
        0x80_0000 * apart(load * t, 100 * y) <= 2600 * h,
{
    let ho = h * one;
    let ls = load * s;
    let lq = load * q;
    let co = c * one;
    let yo = y * one;
    assert(0x80_0000 * lq <= 0x80_0000 * ls + 400 * ho && 0x80_0000 * ls <= 0x80_0000 * lq + 400
        * ho) by {
        let d = q - s;
        let ld = load * d;
        assert(ld == lq - ls) by (nonlinear_arith)
            requires
                ld == load * d,
                lq == load * q,
                ls == load * s,
                d == q - s,
        ;
        assert(0x80_0000 * ld <= 400 * ho && -(400 * ho) <= 0x80_0000 * ld) by (nonlinear_arith)
            requires
                ld == load * d,
                ho == h * one,
                0 <= load <= 100 * one,
                0x80_0000 * d <= 4 * h,
                -(4 * h) <= 0x80_0000 * d,
                h >= 0,
        ;
    }
    assert(0x80_0000 * co <= 0x80_0000 * yo + 9 * ho && 0x80_0000 * yo <= 0x80_0000 * co + 9 * ho
        && 0 <= yo <= ho && 0x4000_0000 * s <= ho && 0 <= co) by (nonlinear_arith)
        requires
            co == c * one,
            yo == y * one,
            ho == h * one,
            0x80_0000 * c <= 0x80_0000 * y + 9 * h,
            0x80_0000 * y <= 0x80_0000 * c + 9 * h,
            0 <= y <= h,
            0 <= c,
            0 < s <= 2 * h,
            one >= 0x1_0000_0000_0000_0000,
    ;
    let z = load * t;
    assert(lq == z * one) by (nonlinear_arith)
        requires
            lq == load * q,
            q == t * one,
            z == load * t,
    ;
    assert(0x80_0000 * (z * one) <= 100 * (0x80_0000 * yo) + 2600 * ho && 100 * (0x80_0000 * yo)
        <= 0x80_0000 * (z * one) + 2600 * ho);
    assert(0x80_0000 * z <= 100 * (0x80_0000 * y) + 2600 * h && 100 * (0x80_0000 * y) <= 0x80_0000
        * z + 2600 * h) by (nonlinear_arith)
        requires
            0x80_0000 * (z * one) <= 100 * (0x80_0000 * yo) + 2600 * ho,
            100 * (0x80_0000 * yo) <= 0x80_0000 * (z * one) + 2600 * ho,
            yo == y * one,
            ho == h * one,
            one > 0,
    ;
}

proof fn lemma_hundred()
    ensures
        Single::of_int(100).finite(),
        !Single::of_int(100).negative(),
        Single::of_int(100).value() == 100 * single_one(),
        single_one() > 0,
{
    lemma_one();
    integer_is_near(100);
    integers_are_finite(100);
}

/// A hundred times a larger number is no less.
proof fn lemma_hundredfold_keeps_order(a: Single, b: Single)
    requires
        !a.nan(),
        b.reaches(a),
        a.value() >= 0,
    ensures
        b.product(Single::of_int(100)).reaches(a.product(Single::of_int(100))),
{
    let hundred = Single::of_int(100);
    let inf = SINGLE_INFINITY as nat;
    lemma_hundred();
    lemma_magnitude_zero(23);
    lemma_magnitude_increases(0, inf, 23);
    product_keeps_the_sign(a, hundred);
    product_keeps_the_sign(b, hundred);
    if b.finite() {
        if a.infinite() {
            lemma_magnitude_increases(b.unsigned(), inf, 23);
        }
        products_keep_order(a, b, hundred);
    } else {
        lemma_ordered(a.product(hundred).unsigned(), inf);
    }
}

/// A processor that was idle for longer, over the same time, has no larger load.
pub proof fn load_falls_as_idle_time_rises(less_idle: CoreDelta, more_idle: CoreDelta)
    requires
        less_idle.kernel == more_idle.kernel,
        less_idle.user == more_idle.user,
        less_idle.idle <= more_idle.idle,
    ensures
        load_of(more_idle).value() <= load_of(less_idle).value(),
{
    let k = less_idle.kernel as int;
    let u = less_idle.user as int;
    let total = Single::of_int(k).sum(Single::of_int(u));
    let short = Single::of_int(less_idle.idle as int);
    let long = Single::of_int(more_idle.idle as int);
    lemma_one();
    lemma_magnitude_zero(23);
    sum_of_integers_is_finite(k, u);
    integers_are_finite(less_idle.idle as int);
    integers_are_finite(more_idle.idle as int);
    integers_keep_order(less_idle.idle as int, more_idle.idle as int);
    opposite_is_exact(short);
    opposite_is_exact(long);
    sum_keeps_order(total, long.opposite(), short.opposite());
    if total.above_whole(0) {
        let busy = total.difference(short).raised(Single::nought());
        let idle = total.difference(long).raised(Single::nought());
        quotients_keep_order(idle, busy, total);
        lemma_hundredfold_keeps_order(idle.quotient(total), busy.quotient(total));
        clamping_keeps_order(
            idle.quotient(total).product(Single::of_int(100)),
            busy.quotient(total).product(Single::of_int(100)),
            0,
            100,
        );
    }
}

/// Where no time has passed, there is no load.
pub proof fn no_time_is_no_load(delta: CoreDelta)
    requires
        delta.kernel + delta.user <= 0,
    ensures
        load_of(delta).value() == 0,
{
    let k = delta.kernel as int;
    let u = delta.user as int;
    lemma_one();
    lemma_magnitude_zero(23);
    integer_is_near(k);
    integer_is_near(u);
    integers_keep_order(k, -u);
    integers_are_finite(k);
    integers_are_finite(u);
    lemma_opposite_integer(u);
    let total = Single::of_int(k).sum(Single::of_int(u));
    lemma_integers_are_small(k, u);
    sum_is_near(Single::of_int(k), Single::of_int(u));
}

proof fn lemma_integers_are_small(k: int, u: int)
    requires
        -0x1_0000_0000_0000_0000 <= k <= 0x1_0000_0000_0000_0000,
        -0x1_0000_0000_0000_0000 <= u <= 0x1_0000_0000_0000_0000,
    ensures
        apart(Single::of_int(k).value() + Single::of_int(u).value(), 0) <= pow2(277),
{
    let one = single_one();
    lemma_one();
    integer_is_near(k);
    integer_is_near(u);
    assert(apart(k * one, 0) <= 0x1_0000_0000_0000_0000 * one && apart(u * one, 0)
        <= 0x1_0000_0000_0000_0000 * one) by (nonlinear_arith)
        requires
            one > 0,
            -0x1_0000_0000_0000_0000 <= k <= 0x1_0000_0000_0000_0000,
            -0x1_0000_0000_0000_0000 <= u <= 0x1_0000_0000_0000_0000,
    ;
}

proof fn lemma_opposite_integer(u: int)
    requires
        -0x1_0000_0000_0000_0000 <= u <= 0x1_0000_0000_0000_0000,
    ensures
        Single::of_int(-u).value() == -Single::of_int(u).value(),
{
    let n = absolute(u) * single_one() as nat;
    lemma_magnitude_zero(23);
    rounded_result_is_a_number(true, n, 1);
    rounded_result_is_a_number(false, n, 1);
    assert(absolute(-u) == absolute(u));
    if u == 0 {
        integer_is_near(0);
    }
}

/// A processor that was never idle, while some time has passed, has a load of 100.
pub proof fn never_idle_is_full_load(delta: CoreDelta)
    requires
        delta.kernel >= 0,
        delta.user >= 0,
        delta.kernel + delta.user > 0,
        delta.idle <= 0,
    ensures
        load_of(delta).value() == 100 * single_one(),
{
    let one = single_one();
    let none = CoreDelta { idle: 0, kernel: delta.kernel, user: delta.user };
    let t = delta.kernel + delta.user;
    let total = Single::of_int(delta.kernel as int).sum(Single::of_int(delta.user as int));
    let idle = Single::of_int(delta.idle as int);
    lemma_one();
    lemma_times(none, t * one, 0);
    lemma_full(total, idle, delta.idle as int);
}

proof fn lemma_full(total: Single, idle: Single, i: int)
    requires
        total.finite(),
        total.value() > 0,
        -0x1_0000_0000_0000_0000 <= i <= 0,
        idle == Single::of_int(i),
    ensures
        total.difference(idle).raised(Single::nought()).quotient(total).product(
            Single::of_int(100),
        ).clamped(0, 100).value() == 100 * single_one(),
{
    let one = single_one();
    lemma_magnitude_zero(23);
    integer_is_near(i);
    opposite_is_exact(idle);
    sum_keeps_order(total, Single::nought(), idle.opposite());
    lemma_plus_nothing(total);
    let busy = total.difference(idle).raised(Single::nought());
    lemma_more_than_whole(busy, total);
    let ratio = busy.quotient(total);
    lemma_times_hundred(ratio);
}

/// A hundred times what is no less than one, moved between 0 and 100, is 100.
proof fn lemma_times_hundred(ratio: Single)
    requires
        !ratio.nan(),
        ratio.value() >= single_one(),
    ensures
        ratio.product(Single::of_int(100)).clamped(0, 100).value() == 100 * single_one(),
{
    lemma_hundred();
    small_integers_are_exact(1);
    assert(1nat as int * single_one() == single_one()) by (nonlinear_arith);
    lemma_hundredfold_keeps_order(Single::of_int(1), ratio);
    lemma_one_times_hundred();
}

/// Nothing added to a number leaves it what it is.
proof fn lemma_plus_nothing(x: Single)
    requires
        x.finite(),
        x.value() > 0,
    ensures
        x.sum(Single::nought()).value() == x.value(),
{
    let n = absolute(x.value());
    let inf = SINGLE_INFINITY as nat;
    lemma_magnitude_zero(23);
    assert(1 * magnitude_value(x.unsigned(), 23) == magnitude_value(x.unsigned(), 23));
    rounding_keeps_numbers(1, 23, inf, x.unsigned());
    rounded_result_is_a_number(false, n, 1);
}

proof fn lemma_one_times_hundred()
    ensures
        Single::of_int(1).product(Single::of_int(100)).value() == 100 * single_one(),
{
    let one = single_one() as nat;
    let inf = SINGLE_INFINITY as nat;
    let hundred = Single::of_int(100);
    lemma_one();
    small_integers_are_exact(1);
    small_integers_are_exact(100);
    integers_are_finite(1);
    lemma_hundred();
    assert(1nat as int * single_one() == single_one()) by (nonlinear_arith);
    let n = absolute(Single::of_int(1).value()) * absolute(hundred.value());
    rounding_keeps_numbers(one, 23, inf, hundred.unsigned());
    rounded_result_is_a_number(false, n, one);
}

/// A processor that was idle all the time has no load, where its times are below
/// 2^24; beyond, `load_is_the_busy_share` bounds what rounding leaves.
pub proof fn always_idle_is_no_load(delta: CoreDelta)
    requires
        delta.kernel >= 0,
        delta.user >= 0,
        delta.kernel + delta.user < 0x100_0000,
        delta.idle == delta.kernel + delta.user,
    ensures
        load_of(delta).value() == 0,
{
    let k = delta.kernel as int;
    let u = delta.user as int;
    let one = single_one();
    let total = Single::of_int(k).sum(Single::of_int(u));
    let idle = Single::of_int(k + u);
    lemma_one();
    lemma_magnitude_zero(23);
    integer_is_near(k);
    integer_is_near(u);
    integer_is_near(k + u);
    assert((k + u) * one == k * one + u * one && (k + u > 0 ==> (k + u) * one > 0))
        by (nonlinear_arith)
        requires
            one > 0,
    ;
    if k + u > 0 {
        assert(total == idle);
        opposite_is_exact(idle);
        let busy = total.difference(idle).raised(Single::nought());
        let ratio = busy.quotient(total);
        assert(busy.value() == 0);
        assert(busy.unsigned() == 0) by {
            if busy.unsigned() > 0 {
                lemma_magnitude_increases(0, busy.unsigned(), 23);
            }
        }
        lemma_no_part(busy, total);
        lemma_hundred();
        lemma_no_multiple(ratio, Single::of_int(100));
        small_integers_are_exact(0);
    } else {
        no_time_is_no_load(delta);
    }
}

proof fn lemma_no_part(a: Single, b: Single)
    requires
        a.unsigned() == 0,
        b.finite(),
        b.value() > 0,
    ensures
        a.quotient(b).unsigned() == 0,
        !a.quotient(b).nan(),
        a.quotient(b).value() == 0,
{
    let n = absolute(a.value()) * single_one() as nat;
    let d = absolute(b.value());
    lemma_magnitude_zero(23);
    assert(n == 0 && d * 0 == 0) by (nonlinear_arith)
        requires
            n == absolute(a.value()) * single_one() as nat,
            absolute(a.value()) == 0,
    ;
    rounding_keeps_numbers(d, 23, SINGLE_INFINITY as nat, 0);
    rounded_result_is_a_number(a.negative() != b.negative(), 0, d);
}

proof fn lemma_no_multiple(a: Single, b: Single)
    requires
        a.unsigned() == 0,
        b.finite(),
    ensures
        !a.product(b).nan(),
        a.product(b).value() == 0,
{
    let one = single_one() as nat;
    let n = absolute(a.value()) * absolute(b.value());
    lemma_one();
    lemma_magnitude_zero(23);
    assert(n == 0 && one * 0 == 0) by (nonlinear_arith)
        requires
            n == absolute(a.value()) * absolute(b.value()),
            absolute(a.value()) == 0,
    ;
    rounding_keeps_numbers(one, 23, SINGLE_INFINITY as nat, 0);
    rounded_result_is_a_number(a.negative() != b.negative(), 0, one);
}

} // verus!
