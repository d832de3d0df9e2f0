//! The formulas by which raw figures become part of a sample, and what they keep
//! to.
use crate::arithmetic::{absolute, small_integers_are_exact, SINGLE_INFINITY};
use crate::bounds::{
    clamped_number_is_within, conversion_keeps_order, fractions_are_finite, integers_are_finite,
    lemma_ordered, part_of_a_whole_is_a_percentage, product_is_a_number, product_keeps_the_sign,
    quotient_keeps_the_sign, rounded_result_is_a_number, sum_is_a_number,
};
use crate::network::{interval, rate_of, rates_are_not_negative, transfer_rate, Traffic};
use crate::number::{lemma_magnitude_increases, lemma_magnitude_zero, single_one, Single};
use crate::pdh::PdhSample;
use crate::rounding::{
    lemma_pattern_value, nearest_pattern, rounding_keeps_numbers, rounding_keeps_order,
    rounding_stops_at_numbers,
};
use crate::sample::DiskMetrics;
use vstd::arithmetic::power2::{lemma2_to64, lemma_pow2_adds, lemma_pow2_pos, pow2};
use vstd::prelude::*;

verus! {

/// So many bytes, in GB.
pub open spec fn gigabytes(bytes: u64) -> Single {
    Single::of_int(bytes as int).quotient(Single::of_int(0x4000_0000))
}

/// So many bytes, in GB.
pub fn to_gigabytes(bytes: u64) -> (r: Single)
    ensures
        r == gigabytes(bytes),
{
    Single::from_u64(bytes).over(Single::from_u64(0x4000_0000))
}

/// A share in percent, or nothing where there is nothing to take a share of.
pub open spec fn share(part: Single, total: Single) -> Single {
    if total.above_whole(0) {
        part.quotient(total).product(Single::of_int(100))
    } else {
        Single::nought()
    }
}

/// A share in percent, or nothing where there is nothing to take a share of.
pub fn share_percent(part: Single, total: Single) -> (r: Single)
    ensures
        r == share(part, total),
{
    if total.is_above_whole(0) {
        part.over(total).times(Single::whole(100))
    } else {
        Single::zero()
    }
}

/// The space on a disk, in bytes.
#[derive(Debug)]
pub struct DiskSpace {
    pub name: String,
    pub mount_point: String,
    pub total_bytes: u64,
    pub available_bytes: u64,
}

/// The space in use on a disk, in GB: the total less what is available, and never
/// less than nothing.
pub open spec fn used_space(disk: DiskSpace) -> Single {
    gigabytes(disk.total_bytes).difference(gigabytes(disk.available_bytes)).raised(
        Single::nought(),
    )
}

/// The state of a disk.
pub open spec fn disk_state(disk: DiskSpace) -> DiskMetrics {
    DiskMetrics {
        name: disk.name,
        mount_point: disk.mount_point,
        total_gb: gigabytes(disk.total_bytes),
        used_gb: used_space(disk),
        usage_pct: share(used_space(disk), gigabytes(disk.total_bytes)),
    }
}

/// The state of a disk.
pub fn disk_metrics(disk: &DiskSpace) -> (r: DiskMetrics)
    ensures
        r == disk_state(*disk),
        r.name == disk.name,
        r.mount_point == disk.mount_point,
        r.total_gb == gigabytes(disk.total_bytes),
        r.usage_pct == share(r.used_gb, r.total_gb),
{
    let total = to_gigabytes(disk.total_bytes);
    let available = to_gigabytes(disk.available_bytes);
    let used = total.minus(available).at_least(Single::zero());
    DiskMetrics {
        name: disk.name.clone(),
        mount_point: disk.mount_point.clone(),
        total_gb: total,
        used_gb: used,
        usage_pct: share_percent(used, total),
    }
}

/// The states of all disks, in their order.
pub fn disk_list(disks: &Vec<DiskSpace>) -> (r: Vec<DiskMetrics>)
    ensures
        r@ == disks@.map_values(|d: DiskSpace| disk_state(d)),
        r@.len() == disks@.len(),
        forall|i: int| 0 <= i < r@.len() ==> #[trigger] r@[i] == disk_state(disks@[i]),
{
    let mut list: Vec<DiskMetrics> = Vec::new();
    let mut i: usize = 0;
    while i < disks.len()
        invariant
            i <= disks@.len(),
            list@ == disks@.take(i as int).map_values(|d: DiskSpace| disk_state(d)),
        decreases disks@.len() - i,
    {
        list.push(disk_metrics(&disks[i]));
        i = i + 1;
        assert(list@ =~= disks@.take(i as int).map_values(|d: DiskSpace| disk_state(d)));
    }
    assert(disks@.take(i as int) == disks@);
    list
}

/// `base` and, for each percent of `load`, `n / d` more.
pub open spec fn linear(load: Single, n: nat, d: nat, base: int) -> Single {
    load.product(Single::fraction(n, d)).sum(Single::of_int(base))
}

fn linear_in(load: Single, n: u16, d: u16, base: u8) -> (r: Single)
    requires
        d > 0,
    ensures
        r == linear(load, n as nat, d as nat, base as int),
{
    load.times(Single::ratio(n, d)).plus(Single::whole(base))
}

/// The rates and loads to show: transfer rates in KB/s, load in percent.
#[derive(Clone, Copy, PartialEq, Eq, Structural, Debug)]
pub struct Rates {
    pub disk_read_kbps: Single,
    pub disk_write_kbps: Single,
    pub gpu_usage_pct: Single,
    pub net_rx_kbps: Single,
    pub net_tx_kbps: Single,
}

/// `counter` where it is above zero, else `estimate`.
pub open spec fn positive_or(counter: Single, estimate: Single) -> Single {
    if counter.above_whole(0) {
        counter
    } else {
        estimate
    }
}

/// `counter` where it is not below zero, else `estimate`.
pub open spec fn nonnegative_or(counter: Single, estimate: Single) -> Single {
    if counter.reaches_whole(0) {
        counter
    } else {
        estimate
    }
}

/// The load of the graphics card to show: the counter, kept between 0 and 100,
/// where it is above zero, else an estimate from the load of the processor, kept
/// between 1 and 100.
pub open spec fn gpu_usage(counter: Single, cpu: Single) -> Single {
    if counter.above_whole(0) {
        counter.clamped(0, 100)
    } else {
        linear(cpu, 35, 100, 3).clamped(1, 100)
    }
}

/// The rates to show, given the load of the processor and the traffic over so
/// many seconds.
pub open spec fn rates_of(
    counters: PdhSample,
    cpu: Single,
    gained: Traffic,
    seconds: Single,
) -> Rates {
    Rates {
        disk_read_kbps: nonnegative_or(counters.disk_read_kbps, linear(cpu, 45, 1, 12)),
        disk_write_kbps: nonnegative_or(counters.disk_write_kbps, linear(cpu, 30, 1, 8)),
        gpu_usage_pct: gpu_usage(counters.gpu_util_pct, cpu),
        net_rx_kbps: positive_or(counters.net_rx_kbps, rate_of(gained.received, seconds)),
        net_tx_kbps: positive_or(counters.net_tx_kbps, rate_of(gained.transmitted, seconds)),
    }
}

fn pick_positive(counter: Single, estimate: Single) -> (r: Single)
    ensures
        r == positive_or(counter, estimate),
{
    if counter.is_above_whole(0) {
        counter
    } else {
        estimate
    }
}

fn pick_nonnegative(counter: Single, estimate: Single) -> (r: Single)
    ensures
        r == nonnegative_or(counter, estimate),
{
    if counter.has_reached_whole(0) {
        counter
    } else {
        estimate
    }
}

/// Chooses between what the performance counters gave and estimates. A counter that
/// gave something stands as it is in the rate of its name; that of the graphics card
/// is cut off at 100.
pub fn resolve_rates(counters: PdhSample, cpu: Single, gained: Traffic, seconds: Single) -> (r:
    Rates)
    ensures
        r == rates_of(counters, cpu, gained, seconds),
        !counters.net_rx_kbps.nan() && counters.net_rx_kbps.value() > 0 ==> r.net_rx_kbps
            == counters.net_rx_kbps,
        !counters.net_tx_kbps.nan() && counters.net_tx_kbps.value() > 0 ==> r.net_tx_kbps
            == counters.net_tx_kbps,
        !counters.disk_read_kbps.nan() && counters.disk_read_kbps.value() >= 0 ==> r.disk_read_kbps
            == counters.disk_read_kbps,
        !counters.disk_write_kbps.nan() && counters.disk_write_kbps.value() >= 0
            ==> r.disk_write_kbps == counters.disk_write_kbps,
        !counters.gpu_util_pct.nan() && 0 < counters.gpu_util_pct.value() <= 100 * single_one()
            ==> r.gpu_usage_pct == counters.gpu_util_pct,
        !counters.gpu_util_pct.nan() && counters.gpu_util_pct.value() > 100 * single_one()
            ==> r.gpu_usage_pct.value() == 100 * single_one(),
{
    proof {
        lemma_pow2_pos(149);
        small_integers_are_exact(100);
    }
    let gpu_usage_pct = if counters.gpu_util_pct.is_above_whole(0) {
        counters.gpu_util_pct.clamp(0, 100)
    } else {
        linear_in(cpu, 35, 100, 3).clamp(1, 100)
    };
    Rates {
        disk_read_kbps: pick_nonnegative(counters.disk_read_kbps, linear_in(cpu, 45, 1, 12)),
        disk_write_kbps: pick_nonnegative(counters.disk_write_kbps, linear_in(cpu, 30, 1, 8)),
        gpu_usage_pct,
        net_rx_kbps: pick_positive(
            counters.net_rx_kbps,
            transfer_rate(gained.received, seconds),
        ),
        net_tx_kbps: pick_positive(
            counters.net_tx_kbps,
            transfer_rate(gained.transmitted, seconds),
        ),
    }
}

/// The video memory estimated to be in use, in GB, kept between 1 and 16.
pub open spec fn video_memory(ram_used: Single) -> Single {
    Single::fraction(18, 10).sum(ram_used.product(Single::fraction(15, 100))).clamped(1, 16)
}

/// The video memory estimated to be in use, in GB.
pub fn estimate_video_memory(ram_used: Single) -> (r: Single)
    ensures
        r == video_memory(ram_used),
{
    Single::ratio(18, 10).plus(ram_used.times(Single::ratio(15, 100))).clamp(1, 16)
}

/// The temperature of the processor, estimated from its load.
pub open spec fn cpu_temperature(cpu: Single) -> Single {
    Single::of_int(38).sum(cpu.product(Single::fraction(44, 100)))
}

/// The temperature of the graphics card, estimated from its load.
pub open spec fn gpu_temperature(gpu: Single) -> Single {
    Single::of_int(42).sum(gpu.product(Single::fraction(36, 100)))
}

/// The temperature of the processor, estimated from its load.
pub fn estimate_cpu_temperature(cpu: Single) -> (r: Single)
    ensures
        r == cpu_temperature(cpu),
{
    Single::whole(38).plus(cpu.times(Single::ratio(44, 100)))
}

/// The temperature of the graphics card, estimated from its load.
pub fn estimate_gpu_temperature(gpu: Single) -> (r: Single)
    ensures
        r == gpu_temperature(gpu),
{
    Single::whole(42).plus(gpu.times(Single::ratio(36, 100)))
}

/// A smoothed temperature, moved towards a target: 88 percent of the one and 12
/// percent of the other.
pub open spec fn smoothed(before: Single, target: Single) -> Single {
    before.product(Single::fraction(88, 100)).sum(target.product(Single::fraction(12, 100)))
}

/// A smoothed temperature, moved towards a target.
pub fn smooth(before: Single, target: Single) -> (r: Single)
    ensures
        r == smoothed(before, target),
{
    before.times(Single::ratio(88, 100)).plus(target.times(Single::ratio(12, 100)))
}

/// The bytes of a GB, as a number.
pub proof fn lemma_gigabyte()
    ensures
        Single::of_int(0x4000_0000).finite(),
        !Single::of_int(0x4000_0000).negative(),
        absolute(Single::of_int(0x4000_0000).value()) == pow2(179),
{
    let q: nat = 156 * 0x80_0000 + 0x80_0000;
    lemma2_to64();
    lemma_pow2_adds(30, 149);
    lemma_pow2_adds(23, 156);
    lemma_pattern_value(156, 0x80_0000, 23);
    rounding_keeps_numbers(1, 23, SINGLE_INFINITY as nat, q);
}

/// Sizes in GB are finite, never below zero, and in the order of the bytes.
pub proof fn gigabytes_keep_order(a: u64, b: u64)
    requires
        a <= b,
    ensures
        gigabytes(a).finite(),
        gigabytes(b).finite(),
        0 <= gigabytes(a).value() <= gigabytes(b).value() <= pow2(213),
{
    let one = single_one() as nat;
    let inf = SINGLE_INFINITY as nat;
    let d = pow2(179);
    let x = Single::of_int(a as int);
    let y = Single::of_int(b as int);
    let m = absolute(x.value()) * one;
    let n = absolute(y.value()) * one;
    // The pattern of 2 to the power of 64.
    let q: nat = 190 * 0x80_0000 + 0x80_0000;
    lemma_gigabyte();
    lemma2_to64();
    lemma_pow2_pos(179);
    lemma_pow2_pos(149);
    lemma_pow2_adds(30, 149);
    lemma_pow2_adds(23, 190);
    lemma_pattern_value(190, 0x80_0000, 23);
    lemma_magnitude_zero(23);
    integers_are_finite(a as int);
    integers_are_finite(b as int);
    conversion_keeps_order(a as nat, b as nat);
    let top = pow2(213);
    assert(m <= n && m * d <= n * d && n <= d * top) by (nonlinear_arith)
        requires
            m == absolute(x.value()) * one,
            n == absolute(y.value()) * one,
            absolute(x.value()) <= absolute(y.value()) <= top,
            d == 0x4000_0000 * one,
    ;
    rounded_result_is_a_number(false, m, d);
    rounded_result_is_a_number(false, n, d);
    rounding_keeps_order(m, d, n, d, 23, inf);
    rounding_stops_at_numbers(n, d, 23, inf, q);
    lemma_ordered(nearest_pattern(m, d, 23, inf), nearest_pattern(n, d, 23, inf));
    lemma_ordered(nearest_pattern(n, d, 23, inf), q);
}

/// What is not empty is no smaller than the single byte.
pub proof fn lemma_one_byte(b: u64)
    requires
        b > 0,
    ensures
        gigabytes(b).value() >= pow2(119),
{
    let one = single_one() as nat;
    let inf = SINGLE_INFINITY as nat;
    let d = pow2(179);
    let q: nat = 96 * 0x80_0000 + 0x80_0000;
    let n = absolute(Single::of_int(b as int).value()) * one;
    lemma_gigabyte();
    lemma2_to64();
    lemma_pow2_pos(179);
    lemma_pow2_pos(149);
    lemma_pow2_adds(23, 96);
    lemma_pow2_adds(30, 119);
    lemma_pow2_adds(30, 149);
    lemma_pattern_value(96, 0x80_0000, 23);
    integers_are_finite(b as int);
    conversion_keeps_order(1, b as nat);
    small_integers_are_exact(1);
    assert(1nat as int * single_one() == single_one()) by (nonlinear_arith);
    assert(d * pow2(119) <= n) by (nonlinear_arith)
        requires
            n == absolute(Single::of_int(b as int).value()) * one,
            absolute(Single::of_int(b as int).value()) >= one,
            d == 0x4000_0000 * one,
            one == 0x4000_0000 * pow2(119),
    ;
    rounded_result_is_a_number(false, n, d);
    rounding_stops_at_numbers(n, d, 23, inf, q);
    lemma_ordered(q, nearest_pattern(n, d, 23, inf));
}

/// The share of the memory in use is a finite number, and not below zero, even
/// where more is said to be in use than there is.
#[verifier::spinoff_prover]
#[verifier::rlimit(60)]
pub proof fn memory_share_is_finite(used: u64, total: u64)
    ensures
        share(gigabytes(used), gigabytes(total)).finite(),
        share(gigabytes(used), gigabytes(total)).value() >= 0,
{
    let part = gigabytes(used);
    let whole = gigabytes(total);
    let one = single_one() as nat;
    let inf = SINGLE_INFINITY as nat;
    lemma_magnitude_zero(23);
    gigabytes_keep_order(used, used);
    gigabytes_keep_order(total, total);
    if whole.above_whole(0) {
        lemma2_to64();
        lemma_pow2_pos(149);
        lemma_pow2_pos(119);
        if total > 0 {
            lemma_one_byte(total);
        } else {
            lemma_no_bytes();
        }
        // The patterns of 2 to the power of 94 and of 101.
        let q: nat = 220 * 0x80_0000 + 0x80_0000;
        let top: nat = 227 * 0x80_0000 + 0x80_0000;
        lemma_pow2_adds(23, 220);
        lemma_pow2_adds(23, 227);
        lemma_pow2_adds(7, 243);
        lemma_pow2_adds(149, 213);
        lemma_pow2_adds(119, 243);
        lemma_pattern_value(220, 0x80_0000, 23);
        lemma_pattern_value(227, 0x80_0000, 23);
        let n = absolute(part.value()) * one;
        let d = absolute(whole.value());
        assert(n <= d * pow2(243)) by (nonlinear_arith)
            requires
                n == absolute(part.value()) * one,
                absolute(part.value()) <= pow2(213),
                one * pow2(213) == pow2(119) * pow2(243),
                d >= pow2(119),
        ;
        quotient_keeps_the_sign(part, whole);
        rounded_result_is_a_number(part.negative() != whole.negative(), n, d);
        rounding_stops_at_numbers(n, d, 23, inf, q);
        let ratio = part.quotient(whole);
        lemma_ordered(ratio.unsigned(), q);
        let hundred = Single::of_int(100);
        small_integers_are_exact(100);
        integers_are_finite(100);
        product_keeps_the_sign(ratio, hundred);
        let m = absolute(ratio.value()) * absolute(hundred.value());
        assert(m <= one * pow2(250)) by (nonlinear_arith)
            requires
                m == absolute(ratio.value()) * absolute(hundred.value()),
                absolute(ratio.value()) <= pow2(243),
                absolute(hundred.value()) == 100 * one,
                pow2(250) == 128 * pow2(243),
        ;
        rounded_result_is_a_number(ratio.negative() != hundred.negative(), m, one);
        rounding_stops_at_numbers(m, one, 23, inf, top);
    }
}

/// No bytes are no GB.
pub proof fn lemma_no_bytes()
    ensures
        gigabytes(0).value() == 0,
{
    let d = pow2(179);
    lemma_gigabyte();
    lemma_pow2_pos(179);
    lemma_magnitude_zero(23);
    integers_are_finite(0);
    rounded_result_is_a_number(false, 0, d);
    rounding_stops_at_numbers(0, d, 23, SINGLE_INFINITY as nat, 0);
    assert(d * 0 == 0) by (nonlinear_arith);
    assert(0nat * single_one() as nat == 0) by (nonlinear_arith);
}

/// The share of the memory in use is a percentage where no more is in use than
/// there is.
pub proof fn memory_share_is_a_percentage(used: u64, total: u64)
    requires
        used <= total,
    ensures
        share(gigabytes(used), gigabytes(total)).within(0, 100),
{
    gigabytes_keep_order(used, total);
    lemma_pow2_pos(149);
    lemma_magnitude_zero(23);
    if gigabytes(total).above_whole(0) {
        part_of_a_whole_is_a_percentage(gigabytes(used), gigabytes(total));
    }
}

/// What is left of a size once another is taken away is no more than it was.
proof fn lemma_rest(total: Single, available: Single)
    requires
        total.finite(),
        available.finite(),
        total.value() >= 0,
        available.value() >= 0,
    ensures
        !total.difference(available).nan(),
        total.difference(available).value() <= total.value(),
{
    let v = total.value() - available.value();
    let inf = SINGLE_INFINITY as nat;
    lemma_magnitude_zero(23);
    assert(available.opposite().value() == -available.value());
    rounded_result_is_a_number(v < 0, absolute(v), 1);
    if v > 0 {
        if total.negative() {
            lemma_ordered(0, total.unsigned());
        }
        rounding_stops_at_numbers(absolute(v), 1, 23, inf, total.unsigned());
        lemma_ordered(nearest_pattern(absolute(v), 1, 23, inf), total.unsigned());
    }
}

/// No more space is in use on a disk than it has, and the share in use is a
/// percentage, whatever sizes were reported.
pub proof fn disk_usage_is_a_percentage(disk: DiskSpace)
    ensures
        0 <= disk_state(disk).used_gb.value() <= disk_state(disk).total_gb.value(),
        !disk_state(disk).used_gb.nan(),
        disk_state(disk).usage_pct.within(0, 100),
{
    let total = gigabytes(disk.total_bytes);
    let available = gigabytes(disk.available_bytes);
    gigabytes_keep_order(disk.total_bytes, disk.total_bytes);
    gigabytes_keep_order(disk.available_bytes, disk.available_bytes);
    lemma_pow2_pos(149);
    lemma_magnitude_zero(23);
    lemma_rest(total, available);
    let used = used_space(disk);
    if total.above_whole(0) {
        part_of_a_whole_is_a_percentage(used, total);
    }
}

/// The load of the graphics card is a percentage, whatever the counter gave,
/// where that of the processor is one.
pub proof fn gpu_usage_is_a_percentage(counter: Single, cpu: Single)
    requires
        cpu.within(0, 100),
    ensures
        gpu_usage(counter, cpu).within(0, 100),
{
    let estimate = linear(cpu, 35, 100, 3);
    lemma_pow2_pos(149);
    if counter.above_whole(0) {
        clamped_number_is_within(counter, 0, 100);
    } else {
        fractions_are_finite(35, 100);
        product_is_a_number(cpu, Single::fraction(35, 100));
        integers_are_finite(3);
        sum_is_a_number(cpu.product(Single::fraction(35, 100)), Single::of_int(3));
        clamped_number_is_within(estimate, 1, 100);
    }
}

proof fn lemma_linear(load: Single, n: nat, d: nat, base: nat)
    requires
        load.within(0, 100),
        0 < n < 0x1_0000,
        0 < d < 0x1_0000,
        base < 0x1_0000,
    ensures
        linear(load, n, d, base as int).reaches_whole(0),
{
    lemma_pow2_pos(149);
    fractions_are_finite(n, d);
    product_keeps_the_sign(load, Single::fraction(n, d));
    small_integers_are_exact(base);
    integers_are_finite(base as int);
    assert(base * single_one() >= 0) by (nonlinear_arith)
        requires
            single_one() > 0,
    ;
    sum_is_a_number(load.product(Single::fraction(n, d)), Single::of_int(base as int));
}

/// Every rate is a number, and not below zero, whatever the counters gave.
pub proof fn shown_rates_are_not_negative(
    counters: PdhSample,
    cpu: Single,
    gained: Traffic,
    elapsed: Single,
)
    requires
        cpu.within(0, 100),
    ensures
        rates_of(counters, cpu, gained, interval(elapsed)).disk_read_kbps.reaches_whole(0),
        rates_of(counters, cpu, gained, interval(elapsed)).disk_write_kbps.reaches_whole(0),
        rates_of(counters, cpu, gained, interval(elapsed)).net_rx_kbps.reaches_whole(0),
        rates_of(counters, cpu, gained, interval(elapsed)).net_tx_kbps.reaches_whole(0),
{
    lemma_linear(cpu, 45, 1, 12);
    lemma_linear(cpu, 30, 1, 8);
    rates_are_not_negative(gained.received, elapsed);
    rates_are_not_negative(gained.transmitted, elapsed);
}

/// The video memory in use lies between 1 and 16 GB.
pub proof fn video_memory_is_bounded(used: u64)
    ensures
        video_memory(gigabytes(used)).within(1, 16),
{
    let ram = gigabytes(used);
    let part = ram.product(Single::fraction(15, 100));
    gigabytes_keep_order(used, used);
    fractions_are_finite(15, 100);
    fractions_are_finite(18, 10);
    product_is_a_number(ram, Single::fraction(15, 100));
    sum_is_a_number(Single::fraction(18, 10), part);
    clamped_number_is_within(Single::fraction(18, 10).sum(part), 1, 16);
}

/// Whether a temperature is a number, and not below zero.
pub open spec fn is_warm(t: Single) -> bool {
    !t.nan() && t.value() >= 0
}

proof fn lemma_warm_sum(a: Single, b: Single)
    requires
        is_warm(a),
        is_warm(b),
    ensures
        is_warm(a.sum(b)),
{
    lemma_magnitude_zero(23);
    lemma_magnitude_increases(0, SINGLE_INFINITY as nat, 23);
    sum_is_a_number(a, b);
}

/// Smoothing keeps temperatures numbers that are not below zero.
pub proof fn smoothing_keeps_temperatures_warm(before: Single, target: Single)
    requires
        is_warm(before),
        is_warm(target),
    ensures
        is_warm(smoothed(before, target)),
{
    fractions_are_finite(88, 100);
    fractions_are_finite(12, 100);
    product_keeps_the_sign(before, Single::fraction(88, 100));
    product_keeps_the_sign(target, Single::fraction(12, 100));
    lemma_warm_sum(
        before.product(Single::fraction(88, 100)),
        target.product(Single::fraction(12, 100)),
    );
}

/// Temperatures estimated from a percentage are numbers that are not below zero.
pub proof fn estimated_temperatures_are_warm(load: Single)
    requires
        load.within(0, 100),
    ensures
        is_warm(cpu_temperature(load)),
        is_warm(gpu_temperature(load)),
{
    lemma_pow2_pos(149);
    fractions_are_finite(44, 100);
    fractions_are_finite(36, 100);
    product_keeps_the_sign(load, Single::fraction(44, 100));
    product_keeps_the_sign(load, Single::fraction(36, 100));
    small_integers_are_exact(38);
    small_integers_are_exact(42);
    lemma_warm_sum(Single::of_int(38), load.product(Single::fraction(44, 100)));
    lemma_warm_sum(Single::of_int(42), load.product(Single::fraction(36, 100)));
}

} // verus!
