//! Rounding to the nearest number of a binary format.
//!
//! A format is given by its `precision`, the bits of its fraction, and by the
//! pattern of its `infinity`. Exact results are fractions `n / d`, counted like
//! `magnitude_value` in units of the smallest positive number of the format.
use crate::number::{lemma_magnitude_increases, lemma_magnitude_zero, magnitude_value};
use vstd::arithmetic::div_mod::{lemma_fundamental_div_mod, lemma_fundamental_div_mod_converse};
use vstd::arithmetic::power2::{
    lemma2_to64, lemma2_to64_rest, lemma_pow2_adds, lemma_pow2_pos, lemma_pow2_strictly_increases,
    lemma_pow2_unfold, pow2,
};
use vstd::prelude::*;

verus! {

/// The largest pattern up to `top` that encodes no more than `n / d`.
pub open spec fn floor_pattern(n: nat, d: nat, precision: nat, top: nat) -> nat
    decreases top,
{
    if top == 0 || d * magnitude_value(top, precision) <= n {
        top
    } else {
        floor_pattern(n, d, precision, (top - 1) as nat)
    }
}

/// The pattern of the number nearest to `n / d`; of two that are equally near,
/// the even one. From halfway between the largest number and the next power of
/// two on, it is `infinity`.
pub open spec fn nearest_pattern(n: nat, d: nat, precision: nat, infinity: nat) -> nat {
    let low = floor_pattern(n, d, precision, infinity);
    let middle = d * (magnitude_value(low, precision) + magnitude_value(low + 1, precision));
    if low == infinity || 2 * n < middle || (2 * n == middle && low % 2 == 0) {
        low
    } else {
        low + 1
    }
}

/// A pattern that encodes no more than `n / d`, and whose successor encodes
/// more, is the largest of its kind.
pub proof fn lemma_floor_is(n: nat, d: nat, precision: nat, top: nat, low: nat)
    requires
        d > 0,
        low <= top,
        d * magnitude_value(low, precision) <= n,
        low == top || n < d * magnitude_value(low + 1, precision),
    ensures
        floor_pattern(n, d, precision, top) == low,
    decreases top,
{
    if low < top {
        if low + 1 < top {
            lemma_magnitude_increases(low + 1, top, precision);
        }
        let a = magnitude_value(low + 1, precision);
        let b = magnitude_value(top, precision);
        assert(d * a <= d * b) by (nonlinear_arith)
            requires
                a <= b,
        ;
        lemma_floor_is(n, d, precision, (top - 1) as nat, low);
    }
}

/// The pattern `k * 2^precision + t` encodes `t * 2^k`.
pub proof fn lemma_pattern_value(k: nat, t: nat, precision: nat)
    requires
        t < 2 * pow2(precision),
        k == 0 || t >= pow2(precision),
    ensures
        magnitude_value(k * pow2(precision) + t, precision) == t * pow2(k),
{
    let p = pow2(precision);
    let pattern = k * p + t;
    lemma_pow2_pos(precision);
    lemma2_to64();
    if t < p {
        assert(k * p == 0) by (nonlinear_arith)
            requires
                k == 0,
        ;
        lemma_fundamental_div_mod_converse(pattern as int, p as int, 0, t as int);
        assert(t * pow2(0) == t) by (nonlinear_arith)
            requires
                pow2(0) == 1,
        ;
    } else {
        assert(pattern == (k + 1) * p + (t - p)) by (nonlinear_arith)
            requires
                pattern == k * p + t,
        ;
        lemma_fundamental_div_mod_converse(pattern as int, p as int, (k + 1) as int, t - p);
    }
}

/// Its successor encodes `(t + 1) * 2^k`.
pub proof fn lemma_next_pattern_value(k: nat, t: nat, precision: nat)
    requires
        t < 2 * pow2(precision),
        k == 0 || t >= pow2(precision),
    ensures
        magnitude_value(k * pow2(precision) + t + 1, precision) == (t + 1) * pow2(k),
{
    let p = pow2(precision);
    lemma_pow2_pos(precision);
    if t + 1 < 2 * p {
        lemma_pattern_value(k, t + 1, precision);
    } else {
        lemma_pattern_value(k + 1, p, precision);
        lemma_pow2_unfold(k + 1);
        assert(k * p + t + 1 == (k + 1) * p + p) by (nonlinear_arith)
            requires
                t + 1 == 2 * p,
        ;
        assert(p * (2 * pow2(k)) == (t + 1) * pow2(k)) by (nonlinear_arith)
            requires
                t + 1 == 2 * p,
        ;
    }
}

/// Whether `n / d` is `m * 2^e`, or, where `inexact`, lies between that and
/// `(m + 1) * 2^e`.
pub open spec fn lies_at(n: nat, d: nat, m: nat, e: int, inexact: bool) -> bool {
    let x = n * pow2(if e < 0 { (-e) as nat } else { 0 });
    let y = d * pow2(if e < 0 { 0 } else { e as nat });
    if inexact {
        y * m < x < y * (m + 1)
    } else {
        x == y * m
    }
}

/// Comparing `n / d` with `z * 2^k`, where the latter is `w * 2^e`, is comparing
/// `m` with `w`.
proof fn lemma_compare(n: nat, d: nat, m: nat, e: int, inexact: bool, z: nat, k: nat, w: nat, s: nat)
    requires
        d > 0,
        lies_at(n, d, m, e, inexact),
        k == e + s,
        w == z * pow2(s),
    ensures
        n < d * (z * pow2(k)) <==> m < w,
        n == d * (z * pow2(k)) <==> m == w && !inexact,
{
    let a = if e < 0 { (-e) as nat } else { 0 };
    let b = if e < 0 { 0 } else { e as nat };
    let pa = pow2(a);
    let pb = pow2(b);
    let pk = pow2(k);
    let ps = pow2(s);
    let x = n * pa;
    let y = d * pb;
    let g = d * (z * pk);
    lemma_pow2_pos(a);
    lemma_pow2_pos(b);
    lemma_pow2_adds(k, a);
    lemma_pow2_adds(s, b);
    assert(k + a == s + b);
    assert(pk * pa == ps * pb);
    assert(g * pa == y * w) by (nonlinear_arith)
        requires
            g == d * (z * pk),
            y == d * pb,
            w == z * ps,
            pk * pa == ps * pb,
    ;
    assert(y > 0) by (nonlinear_arith)
        requires
            y == d * pb,
            d > 0,
            pb > 0,
    ;
    assert(n < g <==> x < y * w) by (nonlinear_arith)
        requires
            x == n * pa,
            g * pa == y * w,
            pa > 0,
    ;
    assert(n == g <==> x == y * w) by (nonlinear_arith)
        requires
            x == n * pa,
            g * pa == y * w,
            pa > 0,
    ;
    if m < w {
        assert(y * (m + 1) <= y * w) by (nonlinear_arith)
            requires
                m + 1 <= w,
        ;
        assert(y * m < y * (m + 1)) by (nonlinear_arith)
            requires
                y > 0,
        ;
    } else {
        assert(y * w <= y * m) by (nonlinear_arith)
            requires
                w <= m,
        ;
        if w < m {
            assert(y * w < y * m) by (nonlinear_arith)
                requires
                    w < m,
                    y > 0,
            ;
        }
    }
}

/// `2^s`.
pub(crate) fn power(s: u32) -> (r: u128)
    requires
        s < 127,
    ensures
        r == pow2(s as nat),
{
    let mut r: u128 = 1;
    let mut i: u32 = 0;
    proof {
        lemma2_to64();
    }
    while i < s
        invariant
            i <= s < 127,
            r == pow2(i as nat),
        decreases s - i,
    {
        proof {
            lemma_pow2_unfold((i + 1) as nat);
            lemma_power_fits((i + 1) as nat);
        }
        r = r * 2;
        i = i + 1;
    }
    r
}

proof fn lemma_power_fits(s: nat)
    requires
        s < 127,
    ensures
        pow2(s) <= 0x4000_0000_0000_0000_0000_0000_0000_0000,
{
    lemma2_to64_rest();
    lemma_pow2_adds(63, 63);
    assert(pow2(63) * pow2(63) == 0x4000_0000_0000_0000_0000_0000_0000_0000);
    if s < 126 {
        lemma_pow2_strictly_increases(s, 126);
    }
}

/// The number of bits that `m` takes.
fn bit_length(m: u128) -> (r: u32)
    requires
        m < pow2(126),
    ensures
        r <= 126,
        m < pow2(r as nat),
        r > 0 ==> m >= pow2((r - 1) as nat),
{
    let mut r: u32 = 0;
    let mut p: u128 = 1;
    proof {
        lemma2_to64();
    }
    while p <= m
        invariant
            m < pow2(126),
            r <= 126,
            p == pow2(r as nat),
            r > 0 ==> m >= pow2((r - 1) as nat),
        decreases 126 - r,
    {
        proof {
            if r < 126 {
                lemma_pow2_unfold((r + 1) as nat);
                lemma_power_fits((r + 1) as nat);
            }
        }
        r = r + 1;
        p = p * 2;
    }
    r
}

/// What the nearest number is, where `n / d` lies from `t * 2^k` up to
/// `(t + 1) * 2^k`.
proof fn lemma_nearest(n: nat, d: nat, precision: nat, infinity: nat, k: nat, t: nat)
    requires
        d > 0,
        precision > 0,
        t < 2 * pow2(precision),
        k == 0 || t >= pow2(precision),
        d * (t * pow2(k)) <= n < d * ((t + 1) * pow2(k)),
    ensures
        ({
            let low = k * pow2(precision) + t;
            let middle = d * ((2 * t + 1) * pow2(k));
            nearest_pattern(n, d, precision, infinity) == (if low >= infinity {
                infinity
            } else if 2 * n < middle || (2 * n == middle && t % 2 == 0) {
                low
            } else {
                low + 1
            })
        }),
{
    let p = pow2(precision);
    let low = k * p + t;
    lemma_pattern_value(k, t, precision);
    lemma_next_pattern_value(k, t, precision);
    if low >= infinity {
        let a = magnitude_value(infinity, precision);
        let b = magnitude_value(low, precision);
        if infinity < low {
            lemma_magnitude_increases(infinity, low, precision);
        }
        assert(d * a <= d * b) by (nonlinear_arith)
            requires
                a <= b,
        ;
        lemma_floor_is(n, d, precision, infinity, infinity);
    } else {
        lemma_floor_is(n, d, precision, infinity, low);
        let q = pow2(k);
        assert(t * q + (t + 1) * q == (2 * t + 1) * q) by (nonlinear_arith);
        lemma_pow2_unfold(precision);
        let h = pow2((precision - 1) as nat);
        assert(k * p == 2 * (k * h)) by (nonlinear_arith)
            requires
                p == 2 * h,
        ;
    }
}

/// Doubling a number raises its place by one.
proof fn lemma_double(n: nat, d: nat, m: nat, e: int, inexact: bool)
    requires
        lies_at(n, d, m, e, inexact),
    ensures
        lies_at(2 * n, d, m, e + 1, inexact),
{
    if e < 0 {
        let a = (-e) as nat;
        let b = (-e - 1) as nat;
        lemma_pow2_unfold(a);
        assert((2 * n) * pow2(b) == n * (2 * pow2(b))) by (nonlinear_arith);
    } else {
        let q = pow2(e as nat);
        lemma_pow2_unfold((e + 1) as nat);
        let x = n * pow2(0);
        let y = d * q;
        assert((2 * n) * pow2(0) == 2 * x) by (nonlinear_arith)
            requires
                x == n * pow2(0),
        ;
        assert((d * (2 * q)) * m == 2 * (y * m)) by (nonlinear_arith)
            requires
                y == d * q,
        ;
        assert((d * (2 * q)) * (m + 1) == 2 * (y * (m + 1))) by (nonlinear_arith)
            requires
                y == d * q,
        ;
    }
}

/// A pattern below infinity, one more where `up`, else infinity.
spec fn bounded(low: nat, up: bool, infinity: nat) -> nat {
    if low >= infinity {
        infinity
    } else if up {
        low + 1
    } else {
        low
    }
}

/// A multiple of the last place is rounded to itself.
proof fn lemma_multiple(n: nat, d: nat, m: nat, e: int, k: nat, t: nat, pn: nat, infinity: nat)
    requires
        d > 0,
        pn > 0,
        lies_at(n, d, m, e, false),
        k <= e,
        t == m * pow2((e - k) as nat),
        t < 2 * pow2(pn),
        k == 0 || t >= pow2(pn),
    ensures
        nearest_pattern(n, d, pn, infinity) == bounded(k * pow2(pn) + t, false, infinity),
{
    let q = pow2(k);
    let c = pow2((e - k) as nat);
    lemma2_to64();
    lemma_pow2_pos(k);
    lemma_pow2_adds((e - k) as nat, k);
    assert(n == d * (t * q)) by (nonlinear_arith)
        requires
            n * 1 == (d * (c * q)) * m,
            t == m * c,
    ;
    assert(d * (t * q) < d * ((t + 1) * q)) by (nonlinear_arith)
        requires
            d > 0,
            q > 0,
    ;
    assert(2 * (d * (t * q)) < d * ((2 * t + 1) * q)) by (nonlinear_arith)
        requires
            d > 0,
            q > 0,
    ;
    lemma_nearest(n, d, pn, infinity, k, t);
}

/// A number `rem` units past a multiple of the last place goes to the nearer
/// side.
#[verifier::spinoff_prover]
#[verifier::rlimit(60)]
proof fn lemma_between(
    n: nat,
    d: nat,
    m: nat,
    e: int,
    inexact: bool,
    k: nat,
    s: nat,
    t: nat,
    rem: nat,
    pn: nat,
    infinity: nat,
)
    requires
        d > 0,
        pn > 0,
        s > 0,
        k == e + s,
        lies_at(n, d, m, e, inexact),
        m == t * pow2(s) + rem,
        rem < pow2(s),
        t < 2 * pow2(pn),
        k == 0 || t >= pow2(pn),
    ensures
        ({
            let half = pow2((s - 1) as nat);
            nearest_pattern(n, d, pn, infinity) == bounded(
                k * pow2(pn) + t,
                rem > half || (rem == half && (inexact || t % 2 == 1)),
                infinity,
            )
        }),
{
    let half = pow2((s - 1) as nat);
    lemma_pow2_unfold(s);
    let unit = pow2(s);
    assert((t + 1) * unit == t * unit + unit) by (nonlinear_arith);
    assert((2 * t + 1) * half == t * unit + half) by (nonlinear_arith)
        requires
            unit == 2 * half,
    ;
    lemma_compare(n, d, m, e, inexact, t, k, t * unit, s);
    lemma_compare(n, d, m, e, inexact, t + 1, k, (t + 1) * unit, s);
    lemma_double(n, d, m, e, inexact);
    lemma_compare(
        2 * n,
        d,
        m,
        e + 1,
        inexact,
        2 * t + 1,
        k,
        (2 * t + 1) * half,
        (s - 1) as nat,
    );
    lemma_nearest(n, d, pn, infinity, k, t);
}

/// The pattern `k * 2^precision + t`, as far as it is below infinity.
fn assemble(k: u32, t: u64, up: bool, precision: u32, infinity: u64) -> (r: u64)
    requires
        k <= 2400,
        t <= 0x20_0000_0000_0000,
        1 <= precision <= 52,
    ensures
        r == bounded(k as nat * pow2(precision as nat) + t as nat, up, infinity as nat),
{
    let p: u128 = power(precision);
    proof {
        lemma2_to64_rest();
        if precision < 52 {
            lemma_pow2_strictly_increases(precision as nat, 52);
        }
        assert(k * p <= 2400 * 0x10_0000_0000_0000) by (nonlinear_arith)
            requires
                k <= 2400,
                p <= 0x10_0000_0000_0000,
        ;
    }
    let low: u64 = (k as u128 * p) as u64 + t;
    if low >= infinity {
        infinity
    } else if up {
        low + 1
    } else {
        low
    }
}

/// The pattern of the number nearest to `m * 2^e`, or, where `inexact`, to a
/// number between that and `(m + 1) * 2^e`. The bits of `m` then reach below the
/// last place of the result, so that it does not matter which.
#[verifier::spinoff_prover]
#[verifier::rlimit(60)]
pub(crate) fn round(
    m: u128,
    e: i32,
    inexact: bool,
    precision: u32,
    infinity: u64,
    Ghost(n): Ghost<nat>,
    Ghost(d): Ghost<nat>,
) -> (r: u64)
    requires
        d > 0,
        lies_at(n, d, m as nat, e as int, inexact),
        m < pow2(126),
        -4000 <= e <= 2200,
        1 <= precision <= 52,
        inexact ==> m > 0 && (e < 0 || m >= pow2((precision + 1) as nat)),
    ensures
        r == nearest_pattern(n, d, precision as nat, infinity as nat),
{
    let ghost pn = precision as nat;
    let ghost p = pow2(pn);
    proof {
        lemma2_to64_rest();
        lemma2_to64();
        lemma_pow2_pos(pn);
        lemma_pow2_unfold(pn + 1);
        if precision < 52 {
            lemma_pow2_strictly_increases(pn, 52);
        }
    }
    if m == 0 {
        proof {
            let q = pow2(if e < 0 { (-e) as nat } else { 0 });
            lemma_pow2_pos(if e < 0 { (-e) as nat } else { 0 });
            let y = d * pow2(if e < 0 { 0 } else { e as nat });
            assert(n == 0) by (nonlinear_arith)
                requires
                    n * q == y * 0,
                    q > 0,
            ;
            assert(d * (0 * pow2(0)) == 0 && d * ((0 + 1) * pow2(0)) == d) by (nonlinear_arith)
                requires
                    pow2(0) == 1,
            ;
            lemma_nearest(n, d, pn, infinity as nat, 0, 0);
        }
        return assemble(0, 0, false, precision, infinity);
    }
    let length = bit_length(m);
    let place: i32 = length as i32 + e - (precision as i32 + 1);
    let k: u32 = if place > 0 { place as u32 } else { 0 };
    let s: i32 = k as i32 - e;
    if s <= 0 {
        let shift: u32 = (0 - s) as u32;
        let scale: u128 = power(shift);
        proof {
            lemma_digits(m as nat, length as nat, shift as nat, pn, place as int);
        }
        let t: u64 = (m * scale) as u64;
        proof {
            lemma_multiple(n, d, m as nat, e as int, k as nat, t as nat, pn, infinity as nat);
        }
        return assemble(k, t, false, precision, infinity);
    }
    if s > 126 {
        proof {
            lemma_pow2_strictly_increases(126, s as nat);
            if s > 127 {
                lemma_pow2_strictly_increases(126, (s - 1) as nat);
            }
            lemma_between(
                n,
                d,
                m as nat,
                e as int,
                inexact,
                k as nat,
                s as nat,
                0,
                m as nat,
                pn,
                infinity as nat,
            );
        }
        return assemble(k, 0, false, precision, infinity);
    }
    let half: u128 = power(s as u32 - 1);
    proof {
        lemma_pow2_unfold(s as nat);
        lemma_power_fits(s as nat);
        lemma_pow2_pos(s as nat);
        lemma_fundamental_div_mod(m as int, pow2(s as nat) as int);
        lemma_quotient(m as nat, length as nat, s as nat, pn, place as int);
    }
    let unit: u128 = 2 * half;
    let t: u64 = (m / unit) as u64;
    let rem: u128 = m % unit;
    proof {
        assert(t * unit == unit * (m as int / unit as int)) by (nonlinear_arith)
            requires
                t == m as int / unit as int,
        ;
        lemma_between(
            n,
            d,
            m as nat,
            e as int,
            inexact,
            k as nat,
            s as nat,
            t as nat,
            rem as nat,
            pn,
            infinity as nat,
        );
    }
    assemble(k, t, rem > half || (rem == half && (inexact || t % 2 == 1)), precision, infinity)
}

/// The digits of a short number, moved up to the last place.
proof fn lemma_digits(m: nat, length: nat, shift: nat, pn: nat, place: int)
    requires
        0 < length,
        pow2((length - 1) as nat) <= m < pow2(length),
        length + shift <= pn + 1,
        place > 0 ==> length + shift == pn + 1,
    ensures
        m * pow2(shift) < 2 * pow2(pn),
        place > 0 ==> m * pow2(shift) >= pow2(pn),
{
    let c = pow2(shift);
    lemma_pow2_pos(shift);
    lemma_pow2_adds(length, shift);
    lemma_pow2_adds((length - 1) as nat, shift);
    lemma_pow2_unfold(pn + 1);
    if length + shift < pn + 1 {
        lemma_pow2_strictly_increases(length + shift, pn + 1);
    }
    assert(m * c < pow2(length) * c) by (nonlinear_arith)
        requires
            m < pow2(length),
            c > 0,
    ;
    assert(m * c >= pow2((length - 1) as nat) * c) by (nonlinear_arith)
        requires
            m >= pow2((length - 1) as nat),
    ;
}

/// The digits of a long number, down to the last place.
proof fn lemma_quotient(m: nat, length: nat, s: nat, pn: nat, place: int)
    requires
        0 < length,
        pow2((length - 1) as nat) <= m < pow2(length),
        length <= pn + 1 + s,
        place > 0 ==> length == pn + 1 + s,
    ensures
        m / pow2(s) < 2 * pow2(pn),
        place > 0 ==> m / pow2(s) >= pow2(pn),
{
    let c = pow2(s);
    let t = m / c;
    lemma_pow2_pos(s);
    lemma_fundamental_div_mod(m as int, c as int);
    lemma_pow2_adds(pn + 1, s);
    lemma_pow2_adds(pn, s);
    lemma_pow2_unfold(pn + 1);
    if length < pn + 1 + s {
        lemma_pow2_strictly_increases(length, pn + 1 + s);
    }
    assert(t < pow2(pn + 1)) by (nonlinear_arith)
        requires
            c * t <= m,
            m < pow2(pn + 1) * c,
            c > 0,
    ;
    if place > 0 {
        assert(t >= pow2(pn)) by (nonlinear_arith)
            requires
                m < c * t + c,
                m >= pow2(pn) * c,
                c > 0,
        ;
    }
}

proof fn lemma_floor(n: nat, d: nat, precision: nat, top: nat)
    requires
        d > 0,
    ensures
        ({
            let low = floor_pattern(n, d, precision, top);
            &&& low <= top
            &&& d * magnitude_value(low, precision) <= n
            &&& low == top || n < d * magnitude_value(low + 1, precision)
        }),
    decreases top,
{
    if top == 0 {
        lemma_magnitude_zero(precision);
        assert(d * 0 == 0) by (nonlinear_arith);
    } else if d * magnitude_value(top, precision) > n {
        lemma_floor(n, d, precision, (top - 1) as nat);
    }
}

/// The nearest number is no larger than infinity.
pub proof fn lemma_nearest_is_bounded(n: nat, d: nat, precision: nat, infinity: nat)
    requires
        d > 0,
    ensures
        nearest_pattern(n, d, precision, infinity) <= infinity,
{
    lemma_floor(n, d, precision, infinity);
}

/// Rounding does not pass a number of the format: what is no larger than it is
/// rounded to nothing larger, and what is no smaller to nothing smaller.
pub proof fn rounding_stops_at_numbers(n: nat, d: nat, precision: nat, infinity: nat, q: nat)
    requires
        d > 0,
        q <= infinity,
    ensures
        n <= d * magnitude_value(q, precision) ==> nearest_pattern(n, d, precision, infinity) <= q,
        n >= d * magnitude_value(q, precision) ==> nearest_pattern(n, d, precision, infinity) >= q,
{
    let low = floor_pattern(n, d, precision, infinity);
    lemma_floor(n, d, precision, infinity);
    let target = magnitude_value(q, precision);
    let below = magnitude_value(low, precision);
    let above = magnitude_value(low + 1, precision);
    lemma_magnitude_increases(low, low + 1, precision);
    if n <= d * target && low >= q {
        if q < low {
            lemma_magnitude_increases(q, low, precision);
            assert(d * target < d * below) by (nonlinear_arith)
                requires
                    target < below,
                    d > 0,
            ;
        }
        assert(2 * (d * below) < d * (below + above)) by (nonlinear_arith)
            requires
                below < above,
                d > 0,
        ;
    }
    if n >= d * target && low < q {
        if low + 1 < q {
            lemma_magnitude_increases(low + 1, q, precision);
        }
        assert(d * above <= d * target) by (nonlinear_arith)
            requires
                above <= target,
        ;
    }
}

/// A number of the format is rounded to itself.
pub proof fn rounding_keeps_numbers(d: nat, precision: nat, infinity: nat, q: nat)
    requires
        d > 0,
        q <= infinity,
    ensures
        nearest_pattern(d * magnitude_value(q, precision), d, precision, infinity) == q,
{
    rounding_stops_at_numbers(d * magnitude_value(q, precision), d, precision, infinity, q);
}

/// No number of the format is nearer to `n / d` than the one that it is rounded
/// to, short of infinity.
pub proof fn rounding_finds_the_nearest(n: nat, d: nat, precision: nat, infinity: nat, q: nat)
    requires
        d > 0,
        q <= infinity,
        n <= d * magnitude_value(infinity, precision),
    ensures
        ({
            let r = d * magnitude_value(nearest_pattern(n, d, precision, infinity), precision);
            let other = d * magnitude_value(q, precision);
            distance(n, r) <= distance(n, other)
        }),
{
    let low = floor_pattern(n, d, precision, infinity);
    lemma_floor(n, d, precision, infinity);
    let a = magnitude_value(low, precision);
    let b = magnitude_value(low + 1, precision);
    let c = magnitude_value(q, precision);
    lemma_magnitude_increases(low, low + 1, precision);
    assert(d * (a + b) == d * a + d * b) by (nonlinear_arith);
    if q <= low {
        if q < low {
            lemma_magnitude_increases(q, low, precision);
        }
        assert(d * c <= d * a) by (nonlinear_arith)
            requires
                c <= a,
        ;
    } else {
        if low + 1 < q {
            lemma_magnitude_increases(low + 1, q, precision);
        }
        assert(d * b <= d * c) by (nonlinear_arith)
            requires
                b <= c,
        ;
    }
    assert(d * a < d * b) by (nonlinear_arith)
        requires
            a < b,
            d > 0,
    ;
}

/// The distance between two numbers.
pub open spec fn distance(a: nat, b: nat) -> int {
    if a < b {
        b - a
    } else {
        a - b
    }
}

/// What lies halfway between two neighbours is rounded to the one with the even
/// pattern.
pub proof fn rounding_breaks_ties_to_even(n: nat, d: nat, precision: nat, infinity: nat, q: nat)
    requires
        d > 0,
        q < infinity,
        2 * n == d * (magnitude_value(q, precision) + magnitude_value(q + 1, precision)),
    ensures
        nearest_pattern(n, d, precision, infinity) == (if q % 2 == 0 {
            q
        } else {
            q + 1
        }),
{
    let a = magnitude_value(q, precision);
    let b = magnitude_value(q + 1, precision);
    lemma_magnitude_increases(q, q + 1, precision);
    assert(d * a <= n < d * b) by (nonlinear_arith)
        requires
            2 * n == d * (a + b),
            a < b,
            d > 0,
    ;
    lemma_floor_is(n, d, precision, infinity, q);
}

/// Rounding keeps the order of numbers.
pub proof fn rounding_keeps_order(
    n1: nat,
    d1: nat,
    n2: nat,
    d2: nat,
    precision: nat,
    infinity: nat,
)
    requires
        d1 > 0,
        d2 > 0,
        n1 * d2 <= n2 * d1,
    ensures
        nearest_pattern(n1, d1, precision, infinity) <= nearest_pattern(
            n2,
            d2,
            precision,
            infinity,
        ),
{
    let low1 = floor_pattern(n1, d1, precision, infinity);
    let low2 = floor_pattern(n2, d2, precision, infinity);
    lemma_floor(n1, d1, precision, infinity);
    lemma_floor(n2, d2, precision, infinity);
    if low1 > low2 {
        let a = magnitude_value(low1, precision);
        let b = magnitude_value(low2 + 1, precision);
        if low2 + 1 < low1 {
            lemma_magnitude_increases(low2 + 1, low1, precision);
        }
        assert(false) by (nonlinear_arith)
            requires
                d1 * a <= n1,
                n2 < d2 * b,
                b <= a,
                n1 * d2 <= n2 * d1,
                d1 > 0,
                d2 > 0,
        ;
    } else if low1 == low2 && low1 < infinity {
        let c = magnitude_value(low1, precision) + magnitude_value(low1 + 1, precision);
        assert(2 * n2 < d2 * c ==> 2 * n1 < d1 * c) by (nonlinear_arith)
            requires
                n1 * d2 <= n2 * d1,
                d1 > 0,
                d2 > 0,
        ;
        assert(2 * n2 == d2 * c ==> 2 * n1 <= d1 * c) by (nonlinear_arith)
            requires
                n1 * d2 <= n2 * d1,
                d1 > 0,
                d2 > 0,
        ;
    }
}

/// The step from a number to the next is no more than the part that the fraction
/// resolves, or the smallest number where that is more.
proof fn lemma_step_is_small(pattern: nat, precision: nat)
    ensures
        pow2(precision) * magnitude_value(pattern + 1, precision) <= (pow2(precision) + 1)
            * magnitude_value(pattern, precision) + pow2(precision),
{
    let p = pow2(precision);
    lemma_pow2_pos(precision);
    lemma2_to64();
    lemma_fundamental_div_mod(pattern as int, p as int);
    let e = pattern / p;
    let f = pattern % p;
    let k: nat = if e == 0 { 0 } else { (e - 1) as nat };
    let t: nat = if e == 0 { f } else { p + f };
    assert(pattern == k * p + t) by (nonlinear_arith)
        requires
            pattern == p * e + f,
            e == 0 ==> k == 0 && t == f,
            e > 0 ==> k == e - 1 && t == p + f,
    ;
    lemma_pattern_value(k, t, precision);
    lemma_next_pattern_value(k, t, precision);
    let q = pow2(k);
    assert(p * ((t + 1) * q) <= (p + 1) * (t * q) + p) by (nonlinear_arith)
        requires
            t >= p || q == 1,
            q >= 0,
    ;
}

/// A rounded result is off by no more than one part in `2^precision`, and the
/// smallest number of the format; short of infinity, no more in the other
/// direction either.
pub proof fn rounding_error_is_small(n: nat, d: nat, precision: nat, infinity: nat)
    requires
        d > 0,
    ensures
        ({
            let p = pow2(precision);
            let r = d * magnitude_value(nearest_pattern(n, d, precision, infinity), precision);
            &&& p * r <= (p + 1) * n + p * d
            &&& n <= d * magnitude_value(infinity, precision) ==> p * n <= p * r + n + p * d
        }),
{
    let p = pow2(precision);
    let low = floor_pattern(n, d, precision, infinity);
    let a = magnitude_value(low, precision);
    let b = magnitude_value(low + 1, precision);
    let r = magnitude_value(nearest_pattern(n, d, precision, infinity), precision);
    lemma_floor(n, d, precision, infinity);
    lemma_step_is_small(low, precision);
    lemma_magnitude_increases(low, low + 1, precision);
    assert(p * (d * b) <= (p + 1) * (d * a) + p * d) by (nonlinear_arith)
        requires
            p * b <= (p + 1) * a + p,
            d > 0,
    ;
    assert((p + 1) * (d * a) <= (p + 1) * n) by (nonlinear_arith)
        requires
            d * a <= n,
    ;
    assert((p + 1) * (d * a) == p * (d * a) + d * a) by (nonlinear_arith);
    assert((p + 1) * n == p * n + n) by (nonlinear_arith);
    assert(p * (d * r) <= p * (d * b) && p * (d * a) <= p * (d * r)) by (nonlinear_arith)
        requires
            a <= r <= b,
            d > 0,
    ;
    if low != infinity {
        assert(p * n <= p * (d * b)) by (nonlinear_arith)
            requires
                n <= d * b,
        ;
    }
}

/// How `n / d` is rounded where it is `x / y * 2^j`, and `t * 2^(j + s)` and the
/// number after it are those next to it. It goes `up` where it is nearer to the
/// latter, or as near and `t` is odd.
pub proof fn lemma_nearest_at(
    n: nat,
    d: nat,
    x: nat,
    y: nat,
    j: nat,
    s: nat,
    t: nat,
    up: bool,
    precision: nat,
    infinity: nat,
)
    requires
        d > 0,
        y > 0,
        precision > 0,
        n * y == x * d * pow2(j),
        pow2(precision) <= t < 2 * pow2(precision),
        (j + s) * pow2(precision) + t < infinity,
        y * t * pow2(s) <= x < y * (t + 1) * pow2(s),
        up ==> 2 * x > y * (2 * t + 1) * pow2(s) || (2 * x == y * (2 * t + 1) * pow2(s) && t % 2
            == 1),
        !up ==> 2 * x < y * (2 * t + 1) * pow2(s) || (2 * x == y * (2 * t + 1) * pow2(s) && t % 2
            == 0),
    ensures
        nearest_pattern(n, d, precision, infinity) == (j + s) * pow2(precision) + t + (if up {
            1nat
        } else {
            0nat
        }),
        magnitude_value(nearest_pattern(n, d, precision, infinity), precision) == (if up {
            t + 1
        } else {
            t
        }) * pow2(j + s),
{
    let k = j + s;
    let p = pow2(precision);
    let low = k * p + t;
    let u = pow2(k);
    let w = pow2(s);
    let z = pow2(j);
    lemma_pow2_adds(j, s);
    lemma_pow2_pos(j);
    lemma_pow2_pos(k);
    lemma_pow2_unfold(precision);
    lemma_pattern_value(k, t, precision);
    lemma_next_pattern_value(k, t, precision);
    let c = d * z;
    assert(n * y == x * c) by (nonlinear_arith)
        requires
            n * y == x * d * z,
            c == d * z,
    ;
    assert(d * (t * u) == t * w * c && d * ((t + 1) * u) == (t + 1) * w * c && d * (t * u + (t
        + 1) * u) == (2 * t + 1) * w * c) by (nonlinear_arith)
        requires
            u == z * w,
            c == d * z,
    ;
    assert(c > 0) by (nonlinear_arith)
        requires
            c == d * z,
            d > 0,
            z > 0,
    ;
    lemma_scaled(n, x, y, c, t * w);
    lemma_scaled(n, x, y, c, (t + 1) * w);
    lemma_scaled(2 * n, 2 * x, y, c, (2 * t + 1) * w);
    assert((2 * n) * y == (2 * x) * c) by (nonlinear_arith)
        requires
            n * y == x * c,
    ;
    assert(y * t * w == y * (t * w) && y * (t + 1) * w == y * ((t + 1) * w) && y * (2 * t + 1)
        * w == y * ((2 * t + 1) * w)) by (nonlinear_arith);
    lemma_floor_is(n, d, precision, infinity, low);
    let half = pow2((precision - 1) as nat);
    assert(k * p == 2 * (k * half)) by (nonlinear_arith)
        requires
            p == 2 * half,
    ;
}

/// Fractions compare like their cross products.
proof fn lemma_scaled(n: nat, x: nat, y: nat, c: nat, m: nat)
    by (nonlinear_arith)
    requires
        y > 0,
        c > 0,
    ensures
        n * y == x * c ==> {
            &&& y * m <= x <==> m * c <= n
            &&& x < y * m <==> n < m * c
            &&& x == y * m <==> n == m * c
        },
{
    if n * y == x * c {
        assert((y * m) * c == (m * c) * y);
        if y * m <= x {
            assert((y * m) * c <= x * c);
            assert((m * c) * y <= n * y);
            assert(m * c <= n);
        } else {
            assert(x * c < (y * m) * c);
            assert(n * y < (m * c) * y);
            assert(n < m * c);
        }
        if x == y * m {
            assert(n * y == (m * c) * y);
        }
        if n == m * c {
            assert(x * c == (y * m) * c);
        }
    }
}

} // verus!
