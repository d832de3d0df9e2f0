//! What the formulas mean: each result against the figures it is made of, as true
//! numbers, and by how much rounding may move it.
use crate::accuracy::{
    apart, difference_is_near, fraction_is_near, integer_is_near, lemma_below_infinity,
    product_is_near, quotient_is_near, sum_is_near,
};
use crate::arithmetic::small_integers_are_exact;
use crate::bounds::{bounded_numbers_are_finite, fractions_are_finite, integers_are_finite};
use crate::busy::lemma_one;
use crate::formulas::{
    cpu_temperature, disk_state, gigabytes, gigabytes_keep_order, gpu_temperature, gpu_usage,
    lemma_gigabyte, lemma_no_bytes, linear, rates_of, share, used_space, video_memory, DiskSpace,
};
use crate::network::{interval, rate_of, Traffic};
use crate::number::{lemma_magnitude_zero, single_one, Single};
use crate::pdh::PdhSample;
use vstd::arithmetic::power2::{lemma2_to64, lemma_pow2_adds, lemma_pow2_strictly_increases, pow2};
use vstd::prelude::*;

verus! {

/// `n / d` of a number.
#[verifier::spinoff_prover]
#[verifier::rlimit(60)]
pub proof fn part_is_near(x: Single, n: nat, d: nat)
    requires
        x.finite(),
        0 <= x.value() <= pow2(221),
        0 < n < 0x1_0000,
        0 < d < 0x1_0000,
    ensures
        ({
            let p = x.product(Single::fraction(n, d));
            &&& p.finite()
            &&& p.value() >= 0
            &&& 0x80_0000 * apart(d * p.value(), n * x.value()) <= 4 * (n * x.value()) + d
                * 0x80_0000
        }),
{
    let one = single_one();
    let f = Single::fraction(n, d);
    let w = f.value();
    let v = x.value();
    lemma_one();
    lemma2_to64();
    lemma_pow2_adds(17, 221);
    lemma_pow2_strictly_increases(240, 277);
    lemma_pow2_strictly_increases(238, 240);
    lemma_pow2_adds(2, 238);
    fraction_is_near(n, d);
    fractions_are_finite(n, d);
    let dw = d * w;
    let no = n * one;
    assert(w * d == dw && 0x80_0000 * d <= no && no <= 0x1_0000 * one && 0 <= w <= dw)
        by (nonlinear_arith)
        requires
            dw == d * w,
            no == n * one,
            w >= 0,
            0 < n < 0x1_0000,
            0 < d < 0x1_0000,
            one >= 0x1_0000_0000_0000_0000,
    ;
    let nv = n * v;
    let vw = v * w;
    assert(0x80_0000 * (d * vw) <= 0x80_0002 * (nv * one) && 0x7f_fffe * (nv * one) <= 0x80_0000
        * (d * vw) && nv >= 0) by (nonlinear_arith)
        requires
            dw == d * w,
            vw == v * w,
            nv == n * v,
            no == n * one,
            0x80_0000 * dw <= 0x80_0002 * no,
            0x7f_fffe * no <= 0x80_0000 * dw,
            v >= 0,
            n > 0,
    ;
    assert(vw <= one * pow2(277)) by (nonlinear_arith)
        requires
            vw == v * w,
            0 <= v <= pow2(221),
            0 <= w <= 0x2_0000 * one,
            0x2_0000 * pow2(221) <= pow2(277),
            one > 0,
    ;
    product_is_near(x, f);
    let p = x.product(f).value();
    let dp = d * p;
    assert(0x80_0000 * (dp * one) <= 0x80_0001 * (d * vw) + d * 0x80_0000 * one && 0x7f_ffff * (d
        * vw) <= 0x80_0000 * (dp * one) + d * 0x80_0000 * one && d * vw >= 0) by (nonlinear_arith)
        requires
            dp == d * p,
            0x80_0000 * (p * one) <= 0x80_0001 * vw + 0x80_0000 * one,
            0x7f_ffff * vw <= 0x80_0000 * (p * one) + 0x80_0000 * one,
            d > 0,
            vw == v * w,
            v >= 0,
            w >= 0,
    ;
    let slack = d * 0x80_0000;
    assert(nv * one >= 0) by (nonlinear_arith)
        requires
            nv >= 0,
            one > 0,
    ;
    assert(0x80_0000 * (dp * one) <= 0x80_0004 * (nv * one) + slack * one && 0x7f_fffc * (nv * one)
        <= 0x80_0000 * (dp * one) + slack * one);
    assert(0x80_0000 * dp <= 0x80_0004 * nv + slack && 0x7f_fffc * nv <= 0x80_0000 * dp + slack)
        by (nonlinear_arith)
        requires
            0x80_0000 * (dp * one) <= 0x80_0004 * (nv * one) + slack * one,
            0x7f_fffc * (nv * one) <= 0x80_0000 * (dp * one) + slack * one,
            one > 0,
    ;
    assert(p <= 0x4_0000 * pow2(221)) by {
        assert(nv <= 0x1_0000 * pow2(221) && p <= dp) by (nonlinear_arith)
            requires
                nv == n * v,
                0 <= v <= pow2(221),
                0 < n < 0x1_0000,
                dp == d * p,
                d >= 1,
                p >= 0,
        ;
        assert(pow2(221) >= 0x1_0000_0000_0000_0000);
        assert(slack <= 0x80_0000 * 0x1_0000) by (nonlinear_arith)
            requires
                slack == d * 0x80_0000,
                d < 0x1_0000,
        ;
    }
    lemma_below_infinity(x.product(f));
}

/// A percentage is finite, and far below infinity.
pub proof fn lemma_percentage(load: Single)
    requires
        load.within(0, 100),
    ensures
        load.finite(),
        0 <= load.value() <= pow2(213),
{
    lemma_one();
    bounded_numbers_are_finite(load, 0, 100);
}

/// A base, and `n / d` of a load for each percent of it.
#[verifier::spinoff_prover]
#[verifier::rlimit(60)]
pub proof fn linear_is_near(load: Single, n: nat, d: nat, base: nat)
    requires
        load.finite(),
        0 <= load.value() <= pow2(213),
        0 < n < 0x1_0000,
        0 < d < 0x1_0000,
        0 < base < 0x1_0000,
    ensures
        ({
            let exact = n * load.value() + d * (base * single_one());
            &&& 0x80_0000 * apart(d * linear(load, n, d, base as int).value(), exact) <= 6 * exact
                + 2 * (d * 0x80_0000)
            &&& !linear(load, n, d, base as int).nan()
            &&& linear(load, n, d, base as int).value() >= 0
        }),
        ({
            let exact = n * load.value() + d * (base * single_one());
            let r = Single::of_int(base as int).sum(load.product(Single::fraction(n, d)));
            &&& 0x80_0000 * apart(d * r.value(), exact) <= 6 * exact + 2 * (d * 0x80_0000)
            &&& !r.nan()
            &&& r.value() >= 0
        }),
{
    let one = single_one();
    let f = Single::fraction(n, d);
    let p = load.product(f);
    let b = Single::of_int(base as int);
    let v = load.value();
    let most = pow2(213);
    lemma_one();
    lemma2_to64();
    lemma_pow2_strictly_increases(213, 221);
    lemma_pow2_adds(16, 213);
    lemma_pow2_adds(2, 229);
    lemma_pow2_strictly_increases(231, 277);
    part_is_near(load, n, d);
    integer_is_near(base as int);
    let x = p.value();
    let y = base * one;
    let nx = n * v;
    let dx = d * x;
    let dy = d * y;
    assert(0 <= y <= 0x1_0000 * one && 0 <= nx <= 0x1_0000 * most && x <= dx && 0 <= dy)
        by (nonlinear_arith)
        requires
            y == base * one,
            nx == n * v,
            0 <= v <= most,
            0 < n < 0x1_0000,
            0 < base < 0x1_0000,
            dx == d * x,
            dy == d * y,
            d >= 1,
            x >= 0,
            one > 0,
    ;
    assert(d * 0x80_0000 <= 0x80_0000_0000 && d * 0x80_0000 >= 0) by (nonlinear_arith)
        requires
            0 < d < 0x1_0000,
    ;
    assert(x <= 2 * pow2(229));
    sum_is_near(p, b);
    sum_is_near(b, p);
    lemma_scaled_sum(d as int, p.sum(b).value(), x, y);
    lemma_scaled_sum(d as int, b.sum(p).value(), x, y);
}

/// A sum, and a multiple of it.
proof fn lemma_scaled_sum(d: int, r: int, x: int, y: int)
    requires
        d > 0,
        x >= 0,
        y >= 0,
        0x80_0000 * apart(r, x + y) <= (x + y) + 0x80_0000,
    ensures
        0x80_0000 * apart(d * r, d * x + d * y) <= (d * x + d * y) + d * 0x80_0000,
{
    assert(0x80_0000 * (d * r) <= 0x80_0001 * (d * x + d * y) + d * 0x80_0000 && 0x7f_ffff * (d * x
        + d * y) <= 0x80_0000 * (d * r) + d * 0x80_0000) by (nonlinear_arith)
        requires
            d > 0,
            0x80_0000 * r <= 0x80_0001 * (x + y) + 0x80_0000,
            0x7f_ffff * (x + y) <= 0x80_0000 * r + 0x80_0000,
    ;
}

/// The estimated temperatures: 38 degrees and 0.44 for each percent of load for the
/// processor, and 42 degrees and 0.36 for the graphics card.
pub proof fn temperatures_follow_the_load(load: Single)
    requires
        load.finite(),
        0 <= load.value() <= pow2(213),
    ensures
        ({
            let cpu = 44 * load.value() + 3800 * single_one();
            let gpu = 36 * load.value() + 4200 * single_one();
            &&& 0x80_0000 * apart(100 * cpu_temperature(load).value(), cpu) <= 7 * cpu
            &&& 0x80_0000 * apart(100 * gpu_temperature(load).value(), gpu) <= 7 * gpu
        }),
{
    lemma_one();
    linear_is_near(load, 44, 100, 38);
    linear_is_near(load, 36, 100, 42);
}

/// The estimated disk rates, and the estimated load of the graphics card: 45 KB/s and
/// 30 KB/s for each percent of load above 12 KB/s and 8 KB/s, and 0.35 percent above 3.
pub proof fn estimates_follow_the_load(load: Single)
    requires
        load.finite(),
        0 <= load.value() <= pow2(213),
    ensures
        ({
            let read = 45 * load.value() + 12 * single_one();
            let write = 30 * load.value() + 8 * single_one();
            let gpu = 35 * load.value() + 300 * single_one();
            &&& 0x80_0000 * apart(linear(load, 45, 1, 12).value(), read) <= 7 * read
            &&& 0x80_0000 * apart(linear(load, 30, 1, 8).value(), write) <= 7 * write
            &&& 0x80_0000 * apart(100 * linear(load, 35, 100, 3).value(), gpu) <= 7 * gpu
        }),
{
    lemma_one();
    linear_is_near(load, 45, 1, 12);
    linear_is_near(load, 30, 1, 8);
    linear_is_near(load, 35, 100, 3);
}

/// So many bytes as a number, near to it and no more than twice as much.
proof fn lemma_bytes(bytes: u64)
    ensures
        ({
            let k = Single::of_int(bytes as int);
            let exact = bytes * single_one();
            &&& k.finite()
            &&& k.value() >= 0
            &&& 0x80_0000 * apart(k.value(), exact) <= 2 * exact
            &&& exact >= 0
            &&& bytes > 0 ==> exact >= single_one()
            &&& exact <= pow2(213)
            &&& k.value() <= pow2(213)
        }),
{
    let one = single_one();
    let exact = bytes * one;
    lemma_one();
    lemma2_to64();
    lemma_pow2_adds(64, 149);
    integer_is_near(bytes as int);
    integers_are_finite(bytes as int);
    assert(0 <= exact <= 0x1_0000_0000_0000_0000 * one && (bytes > 0 ==> exact >= one))
        by (nonlinear_arith)
        requires
            exact == bytes * one,
            one > 0,
    ;
}

/// A transfer rate, times the seconds, times 1024, gives the bytes.
#[verifier::spinoff_prover]
#[verifier::rlimit(60)]
pub proof fn rate_times_time_is_the_bytes(bytes: u64, seconds: Single)
    requires
        seconds.finite(),
        16 * seconds.value() >= single_one(),
    ensures
        ({
            let r = rate_of(bytes, seconds).value();
            let s = seconds.value();
            let exact = (bytes * single_one()) * single_one();
            &&& 0x80_0000 * apart(1024 * (r * s), exact) <= 8 * exact + 0x4_0000_0000 * (s
                + single_one())
            &&& r >= 0
        }),
        !rate_of(bytes, seconds).nan(),
{
    let one = single_one();
    let s = seconds.value();
    let count = Single::of_int(bytes as int);
    let unit = Single::of_int(1024);
    let kilos = count.quotient(unit);
    let b = bytes * one;
    let c = count.value();
    let k = kilos.value();
    lemma_one();
    lemma2_to64();
    lemma_bytes(bytes);
    integer_is_near(1024);
    lemma_pow2_strictly_increases(213, 221);
    lemma_pow2_strictly_increases(221, 277);
    lemma_pow2_adds(8, 213);
    assert(c * one <= (1024 * one) * pow2(277)) by (nonlinear_arith)
        requires
            0 <= c <= pow2(277),
            one > 0,
    ;
    quotient_is_near(count, unit);
    assert(0x80_0000 * (1024 * k) <= 0x80_0001 * c + 0x2_0000_0000 && 0x7f_ffff * c <= 0x80_0000
        * (1024 * k) + 0x2_0000_0000) by (nonlinear_arith)
        requires
            0x80_0000 * (k * (1024 * one)) <= 0x80_0001 * (c * one) + 0x80_0000 * (1024 * one),
            0x7f_ffff * (c * one) <= 0x80_0000 * (k * (1024 * one)) + 0x80_0000 * (1024 * one),
            one > 0,
    ;
    assert(pow2(221) >= 0x1_0000_0000_0000_0000);
    assert(k <= pow2(221));
    lemma_below_infinity(kilos);
    lemma_pow2_adds(4, 221);
    lemma_pow2_strictly_increases(225, 277);
    let top = pow2(277);
    let low = pow2(221);
    assert(k * one <= k * (16 * s) && k * s <= low * s && s * (16 * low) <= s * top)
        by (nonlinear_arith)
        requires
            0 <= k <= low,
            one <= 16 * s,
            s > 0,
            16 * low <= top,
    ;
    assert(k * (16 * s) == 16 * (k * s) && s * (16 * low) == 16 * (low * s)) by (nonlinear_arith);
    quotient_is_near(kilos, seconds);
    let r = kilos.quotient(seconds).value();
    lemma_rate_is_near(b, c, k, r, s, one);
}

proof fn lemma_rate_is_near(b: int, c: int, k: int, r: int, s: int, one: int)
    requires
        one > 0,
        s > 0,
        b >= 0,
        c >= 0,
        k >= 0,
        0x80_0000 * apart(c, b) <= 2 * b,
        0x80_0000 * (1024 * k) <= 0x80_0001 * c + 0x2_0000_0000,
        0x7f_ffff * c <= 0x80_0000 * (1024 * k) + 0x2_0000_0000,
        0x80_0000 * apart(r * s, k * one) <= k * one + 0x80_0000 * s,
    ensures
        0x80_0000 * apart(1024 * (r * s), b * one) <= 8 * (b * one) + 0x4_0000_0000 * (s + one),
{
    let rs = r * s;
    assert(0x80_0000 * (1024 * k) <= 0x80_0006 * b + 0x2_0000_0001 && 0x7f_fffc * b <= 0x80_0000
        * (1024 * k) + 0x2_0000_0001);
    let ko = k * one;
    let bo = b * one;
    assert(0x80_0000 * (1024 * ko) <= 0x80_0006 * bo + 0x2_0000_0001 * one && 0x7f_fffc * bo
        <= 0x80_0000 * (1024 * ko) + 0x2_0000_0001 * one && bo >= 0 && ko >= 0)
        by (nonlinear_arith)
        requires
            0x80_0000 * (1024 * k) <= 0x80_0006 * b + 0x2_0000_0001,
            0x7f_fffc * b <= 0x80_0000 * (1024 * k) + 0x2_0000_0001,
            ko == k * one,
            bo == b * one,
            one > 0,
            b >= 0,
            k >= 0,
    ;
}

/// The size of a gigabyte.
proof fn lemma_unit_of_sizes()
    ensures
        Single::of_int(0x4000_0000).finite(),
        Single::of_int(0x4000_0000).value() == 0x4000_0000 * single_one(),
{
    lemma2_to64();
    lemma_pow2_adds(30, 149);
    lemma_gigabyte();
}

/// A size in GB, times 2^30, gives the bytes.
pub proof fn gigabytes_are_bytes(bytes: u64)
    ensures
        ({
            let exact = bytes * single_one();
            &&& 0x80_0000 * apart(0x4000_0000 * gigabytes(bytes).value(), exact) <= 4 * exact
            &&& gigabytes(bytes).finite()
            &&& gigabytes(bytes).value() >= 0
        }),
{
    let one = single_one();
    let count = Single::of_int(bytes as int);
    let unit = Single::of_int(0x4000_0000);
    let b = bytes * one;
    let c = count.value();
    let g = gigabytes(bytes).value();
    lemma_one();
    lemma2_to64();
    lemma_bytes(bytes);
    lemma_unit_of_sizes();
    gigabytes_keep_order(bytes, bytes);
    lemma_pow2_strictly_increases(213, 277);
    assert(c * one <= (0x4000_0000 * one) * pow2(277)) by (nonlinear_arith)
        requires
            0 <= c <= pow2(277),
            one > 0,
    ;
    quotient_is_near(count, unit);
    assert(0x80_0000 * (0x4000_0000 * g) <= 0x80_0001 * c + 0x20_0000_0000_0000 && 0x7f_ffff * c
        <= 0x80_0000 * (0x4000_0000 * g) + 0x20_0000_0000_0000) by (nonlinear_arith)
        requires
            0x80_0000 * (g * (0x4000_0000 * one)) <= 0x80_0001 * (c * one) + 0x80_0000 * (
            0x4000_0000 * one),
            0x7f_ffff * (c * one) <= 0x80_0000 * (g * (0x4000_0000 * one)) + 0x80_0000 * (
            0x4000_0000 * one),
            one > 0,
    ;
    if bytes == 0 {
        lemma_no_bytes();
        assert(b == 0) by (nonlinear_arith)
            requires
                b == bytes * one,
                bytes == 0,
        ;
    } else {
        assert(one >= 0x1_0000_0000_0000_0000);
    }
}

/// A share in percent, times the total, gives a hundred times the part. Where there
/// is no total there is no share.
#[verifier::spinoff_prover]
#[verifier::rlimit(60)]
pub proof fn share_times_total_is_the_part(part: Single, total: Single)
    requires
        part.finite(),
        total.finite(),
        part.value() >= 0,
        total.value() > 0,
        part.value() * single_one() <= total.value() * pow2(250),
    ensures
        ({
            let r = share(part, total).value();
            let exact = part.value() * single_one();
            &&& 0x80_0000 * apart(r * total.value(), 100 * exact) <= 300 * exact + 0x4000_0000
                * total.value()
            &&& r >= 0
        }),
        !share(part, total).nan(),
{
    let one = single_one();
    let hundred = Single::of_int(100);
    let ratio = part.quotient(total);
    let t = total.value();
    let e = part.value() * one;
    let q = ratio.value();
    lemma_one();
    lemma2_to64();
    integer_is_near(100);
    lemma_pow2_adds(2, 250);
    lemma_pow2_adds(8, 252);
    lemma_pow2_strictly_increases(252, 260);
    lemma_pow2_strictly_increases(260, 277);
    assert(t * pow2(250) <= t * pow2(277)) by (nonlinear_arith)
        requires
            t > 0,
            pow2(250) <= pow2(277),
    ;
    quotient_is_near(part, total);
    assert(q <= pow2(252)) by (nonlinear_arith)
        requires
            0x80_0000 * (q * t) <= 0x80_0001 * e + 0x80_0000 * t,
            e <= t * pow2(250),
            t > 0,
            pow2(252) == 4 * pow2(250),
            pow2(250) >= 1,
    ;
    lemma_below_infinity(ratio);
    assert(q * (100 * one) <= one * pow2(277)) by (nonlinear_arith)
        requires
            0 <= q <= pow2(252),
            256 * pow2(252) <= pow2(277),
            one > 0,
    ;
    product_is_near(ratio, hundred);
    let r = ratio.product(hundred).value();
    assert(0x80_0000 * r <= 0x80_0001 * (100 * q) + 0x80_0000 && 0x7f_ffff * (100 * q) <= 0x80_0000
        * r + 0x80_0000) by (nonlinear_arith)
        requires
            0x80_0000 * (r * one) <= 0x80_0001 * (q * (100 * one)) + 0x80_0000 * one,
            0x7f_ffff * (q * (100 * one)) <= 0x80_0000 * (r * one) + 0x80_0000 * one,
            one > 0,
    ;
    let rt = r * t;
    let qt = q * t;
    assert(0x80_0000 * rt <= 0x80_0001 * (100 * qt) + 0x80_0000 * t && 0x7f_ffff * (100 * qt)
        <= 0x80_0000 * rt + 0x80_0000 * t) by (nonlinear_arith)
        requires
            0x80_0000 * r <= 0x80_0001 * (100 * q) + 0x80_0000,
            0x7f_ffff * (100 * q) <= 0x80_0000 * r + 0x80_0000,
            rt == r * t,
            qt == q * t,
            t > 0,
    ;
    assert(e >= 0) by (nonlinear_arith)
        requires
            e == part.value() * one,
            part.value() >= 0,
            one > 0,
    ;
}

/// There is no share of nothing.
pub proof fn no_total_has_no_share(part: Single, total: Single)
    requires
        total.nan() || total.value() <= 0,
    ensures
        share(part, total).value() == 0,
{
    lemma_magnitude_zero(23);
}

/// The space in use, times 2^30, gives the bytes that are not available; it is
/// nothing where all of them are.
#[verifier::spinoff_prover]
#[verifier::rlimit(60)]
pub proof fn used_space_is_what_is_not_available(disk: DiskSpace)
    ensures
        ({
            let total = disk.total_bytes * single_one();
            let rest = (disk.total_bytes - disk.available_bytes) * single_one();
            let used = 0x4000_0000 * disk_state(disk).used_gb.value();
            &&& disk.available_bytes <= disk.total_bytes ==> 0x80_0000 * apart(used, rest) <= 12
                * total
            &&& disk.available_bytes >= disk.total_bytes ==> used == 0
        }),
        disk_state(disk).total_gb == gigabytes(disk.total_bytes),
        disk_state(disk).used_gb.finite(),
{
    let one = single_one();
    let a = disk.available_bytes * one;
    let t = disk.total_bytes * one;
    let total = gigabytes(disk.total_bytes);
    let available = gigabytes(disk.available_bytes);
    let left = total.difference(available);
    lemma_one();
    lemma2_to64();
    lemma_magnitude_zero(23);
    lemma_pow2_adds(1, 213);
    lemma_pow2_strictly_increases(214, 277);
    gigabytes_are_bytes(disk.total_bytes);
    gigabytes_are_bytes(disk.available_bytes);
    gigabytes_keep_order(disk.total_bytes, disk.total_bytes);
    gigabytes_keep_order(disk.available_bytes, disk.available_bytes);
    lemma_bytes(disk.total_bytes);
    lemma_bytes(disk.available_bytes);
    difference_is_near(total, available);
    let d = left.value();
    let v = total.value() - available.value();
    assert(apart(d, 0) < pow2(277)) by {
        lemma_pow2_adds(2, 213);
        lemma_pow2_strictly_increases(215, 277);
        assert(pow2(213) >= 1);
    }
    lemma_below_infinity(left);
    assert((disk.total_bytes - disk.available_bytes) * one == t - a) by (nonlinear_arith)
        requires
            t == disk.total_bytes * one,
            a == disk.available_bytes * one,
    ;
    if disk.available_bytes <= disk.total_bytes {
        gigabytes_keep_order(disk.available_bytes, disk.total_bytes);
        assert(a <= t) by (nonlinear_arith)
            requires
                t == disk.total_bytes * one,
                a == disk.available_bytes * one,
                disk.available_bytes <= disk.total_bytes,
                one > 0,
        ;
        assert(used_space(disk).value() == d);
        assert(0x80_0000 * d <= 0x80_0001 * v + 0x80_0000 && 0x7f_ffff * v <= 0x80_0000 * d
            + 0x80_0000);
        if disk.total_bytes == 0 {
            lemma_no_bytes();
            assert(t == 0) by (nonlinear_arith)
                requires
                    t == disk.total_bytes * one,
                    disk.total_bytes == 0,
            ;
        } else {
            assert(one >= 0x1_0000_0000_0000_0000);
        }
    }
    if disk.available_bytes >= disk.total_bytes {
        gigabytes_keep_order(disk.total_bytes, disk.available_bytes);
    }
}

/// The estimated video memory: 1.8 GB and 0.15 for each GB of memory in use, kept
/// between 1 and 16.
#[verifier::spinoff_prover]
#[verifier::rlimit(60)]
pub proof fn video_memory_follows_the_memory(ram: Single)
    requires
        ram.finite(),
        0 <= ram.value() <= pow2(213),
    ensures
        ({
            let exact = 15 * ram.value() + 180 * single_one();
            let shown = if exact > 1600 * single_one() {
                1600 * single_one()
            } else {
                exact
            };
            0x80_0000 * apart(100 * video_memory(ram).value(), shown) <= 8 * shown
        }),
        !video_memory(ram).nan(),
{
    let one = single_one();
    let base = Single::fraction(18, 10);
    let part = ram.product(Single::fraction(15, 100));
    let all = base.sum(part);
    let exact = 15 * ram.value() + 180 * one;
    lemma_one();
    lemma2_to64();
    lemma_pow2_strictly_increases(213, 221);
    lemma_pow2_adds(2, 221);
    lemma_pow2_strictly_increases(223, 277);
    lemma_pow2_strictly_increases(149, 221);
    part_is_near(ram, 15, 100);
    fraction_is_near(18, 10);
    fractions_are_finite(18, 10);
    let f = base.value();
    let p = part.value();
    assert(pow2(221) >= one && 0x100_0000_0000 <= one);
    assert(0x80_0000 * (10 * f) <= 0x80_0001 * (18 * one) + 10 * 0x80_0000);
    assert(0x7f_ffff * (18 * one) <= 0x80_0000 * (10 * f) + 10 * 0x80_0000);
    assert(p <= pow2(221)) by {
        lemma_pow2_adds(8, 213);
    }
    assert(f <= 2 * pow2(221));
    sum_is_near(base, part);
    let r = all.value();
    assert(0x80_0000 * apart(100 * r, exact) <= 7 * exact);
    small_integers_are_exact(1);
    small_integers_are_exact(16);
}

/// The load of the graphics card to show: what the counter gave where that is above
/// zero, cut off at 100, else 3 percent and 0.35 for each percent of the processor's
/// load.
#[verifier::spinoff_prover]
#[verifier::rlimit(60)]
pub proof fn gpu_usage_is_the_counter_or_an_estimate(counter: Single, cpu: Single)
    requires
        cpu.within(0, 100),
    ensures
        !counter.nan() && 0 < counter.value() <= 100 * single_one() ==> gpu_usage(counter, cpu)
            == counter,
        !counter.nan() && counter.value() > 100 * single_one() ==> gpu_usage(counter, cpu).value()
            == 100 * single_one(),
        counter.nan() || counter.value() <= 0 ==> {
            let exact = 35 * cpu.value() + 300 * single_one();
            0x80_0000 * apart(100 * gpu_usage(counter, cpu).value(), exact) <= 7 * exact
        },
{
    lemma_one();
    small_integers_are_exact(100);
    small_integers_are_exact(1);
    lemma_percentage(cpu);
    estimates_follow_the_load(cpu);
    linear_is_near(cpu, 35, 100, 3);
}

/// Each rate comes from the counter of its own name, and from no other: what the
/// counter gave stands, where that is above zero for the network and not below it for
/// the disks. Else the rate of the network is that of the bytes gained in its own
/// direction, and those of the disks follow the load of the processor, with 45 KB/s
/// above 12 for each percent in the one case and 30 KB/s above 8 in the other.
#[verifier::spinoff_prover]
#[verifier::rlimit(60)]
pub proof fn rates_come_from_their_own_counters(
    counters: PdhSample,
    cpu: Single,
    gained: Traffic,
    seconds: Single,
)
    requires
        cpu.within(0, 100),
        seconds.finite(),
        16 * seconds.value() >= single_one(),
    ensures
        ({
            let rx = counters.net_rx_kbps;
            let shown = rates_of(counters, cpu, gained, seconds).net_rx_kbps;
            let exact = (gained.received * single_one()) * single_one();
            if !rx.nan() && rx.value() > 0 {
                shown == rx
            } else {
                0x80_0000 * apart(1024 * (shown.value() * seconds.value()), exact) <= 8 * exact
                    + 0x4_0000_0000 * (seconds.value() + single_one())
            }
        }),
        ({
            let tx = counters.net_tx_kbps;
            let shown = rates_of(counters, cpu, gained, seconds).net_tx_kbps;
            let exact = (gained.transmitted * single_one()) * single_one();
            if !tx.nan() && tx.value() > 0 {
                shown == tx
            } else {
                0x80_0000 * apart(1024 * (shown.value() * seconds.value()), exact) <= 8 * exact
                    + 0x4_0000_0000 * (seconds.value() + single_one())
            }
        }),
        ({
            let read = counters.disk_read_kbps;
            let shown = rates_of(counters, cpu, gained, seconds).disk_read_kbps;
            let exact = 45 * cpu.value() + 12 * single_one();
            if !read.nan() && read.value() >= 0 {
                shown == read
            } else {
                0x80_0000 * apart(shown.value(), exact) <= 7 * exact
            }
        }),
        ({
            let write = counters.disk_write_kbps;
            let shown = rates_of(counters, cpu, gained, seconds).disk_write_kbps;
            let exact = 30 * cpu.value() + 8 * single_one();
            if !write.nan() && write.value() >= 0 {
                shown == write
            } else {
                0x80_0000 * apart(shown.value(), exact) <= 7 * exact
            }
        }),
        ({
            let gpu = counters.gpu_util_pct;
            let shown = rates_of(counters, cpu, gained, seconds).gpu_usage_pct;
            let exact = 35 * cpu.value() + 300 * single_one();
            if !gpu.nan() && 0 < gpu.value() <= 100 * single_one() {
                shown == gpu
            } else if !gpu.nan() && gpu.value() > 0 {
                shown.value() == 100 * single_one()
            } else {
                0x80_0000 * apart(100 * shown.value(), exact) <= 7 * exact
            }
        }),
{
    lemma_percentage(cpu);
    estimates_follow_the_load(cpu);
    gpu_usage_is_the_counter_or_an_estimate(counters.gpu_util_pct, cpu);
    rate_times_time_is_the_bytes(gained.received, seconds);
    rate_times_time_is_the_bytes(gained.transmitted, seconds);
}

/// No rate depends on a counter of another name, nor that of one direction of the
/// network on the bytes of the other.
pub proof fn rates_are_independent(
    a: PdhSample,
    b: PdhSample,
    cpu: Single,
    gained: Traffic,
    other: Traffic,
    seconds: Single,
)
    ensures
        a.net_rx_kbps == b.net_rx_kbps && gained.received == other.received ==> rates_of(
            a,
            cpu,
            gained,
            seconds,
        ).net_rx_kbps == rates_of(b, cpu, other, seconds).net_rx_kbps,
        a.net_tx_kbps == b.net_tx_kbps && gained.transmitted == other.transmitted ==> rates_of(
            a,
            cpu,
            gained,
            seconds,
        ).net_tx_kbps == rates_of(b, cpu, other, seconds).net_tx_kbps,
        a.disk_read_kbps == b.disk_read_kbps ==> rates_of(a, cpu, gained, seconds).disk_read_kbps
            == rates_of(b, cpu, other, seconds).disk_read_kbps,
        a.disk_write_kbps == b.disk_write_kbps ==> rates_of(
            a,
            cpu,
            gained,
            seconds,
        ).disk_write_kbps == rates_of(b, cpu, other, seconds).disk_write_kbps,
        a.gpu_util_pct == b.gpu_util_pct ==> rates_of(a, cpu, gained, seconds).gpu_usage_pct
            == rates_of(b, cpu, other, seconds).gpu_usage_pct,
{
}

/// The time that traffic is counted over is the time that has passed, or a tenth of a
/// second where less has.
pub proof fn interval_is_no_less_than_a_tenth(elapsed: Single)
    ensures
        !elapsed.nan() && 10 * elapsed.value() >= 2 * single_one() ==> interval(elapsed) == elapsed,
        elapsed.nan() || 10 * elapsed.value() <= 0 ==> {
            0x80_0000 * apart(10 * interval(elapsed).value(), single_one()) <= 2 * single_one()
        },
        !interval(elapsed).nan(),
        16 * interval(elapsed).value() >= single_one(),
        0x80_0000 * (10 * interval(elapsed).value()) >= 0x7f_fffe * single_one(),
        !elapsed.nan() ==> interval(elapsed).value() >= elapsed.value(),
        !elapsed.nan() && interval(elapsed) != elapsed ==> 0x80_0000 * apart(
            10 * interval(elapsed).value(),
            single_one(),
        ) <= 2 * single_one(),
{
    lemma_one();
    fraction_is_near(1, 10);
    assert(1nat * single_one() == single_one()) by (nonlinear_arith);
}

} // verus!
