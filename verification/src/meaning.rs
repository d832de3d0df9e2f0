//! What a sample says of what was read for it: each of its figures against the
//! readings behind it, as true numbers, and by how much rounding may move it.
use crate::accuracy::{apart, integer_is_near};
use crate::arithmetic::absolute;
use crate::busy::{lemma_one, load_is_the_busy_share, no_time_is_no_load};
use crate::cpu::deltas_make_up_the_times;
use crate::estimates::{
    gigabytes_are_bytes, interval_is_no_less_than_a_tenth, lemma_percentage, no_total_has_no_share,
    rates_come_from_their_own_counters, share_times_total_is_the_part, temperatures_follow_the_load,
    used_space_is_what_is_not_available, video_memory_follows_the_memory,
};
use crate::formulas::{
    disk_state, gigabytes, gigabytes_keep_order, lemma_no_bytes, lemma_one_byte, share,
};
use crate::mean::{mean_times_count_is_the_sum, no_processor_is_no_load, true_sum};
use crate::network::{interval, total_received, total_transmitted};
use crate::number::{single_one, Single};
use crate::sensors::{
    classified, first_warm, is_first_warm, scan_finds_the_first_sensor, SensorKind, SensorReading,
};
use crate::smoothing::smoothing_weighs_88_to_12;
use crate::worker::{samples_keep_to_their_bounds, spent, Readings, TelemetryWorker};
use vstd::arithmetic::power2::{
    lemma_pow2_adds, lemma_pow2_pos, lemma_pow2_strictly_increases, pow2,
};
use vstd::prelude::*;

verus! {

/// Each rate of a sample is what the counter of its own name gave, where that is above
/// zero for the network and the graphics card, and not below it for the disks. That of
/// the graphics card is cut off at 100.
pub proof fn sample_shows_the_counters(worker: TelemetryWorker, readings: Readings)
    ensures
        ({
            let sample = worker.sample_of(readings);
            let counters = readings.counters;
            &&& !counters.net_rx_kbps.nan() && counters.net_rx_kbps.value() > 0
                ==> sample.net_rx_kbps == counters.net_rx_kbps
            &&& !counters.net_tx_kbps.nan() && counters.net_tx_kbps.value() > 0
                ==> sample.net_tx_kbps == counters.net_tx_kbps
            &&& !counters.disk_read_kbps.nan() && counters.disk_read_kbps.value() >= 0
                ==> sample.disk_read_kbps == counters.disk_read_kbps
            &&& !counters.disk_write_kbps.nan() && counters.disk_write_kbps.value() >= 0
                ==> sample.disk_write_kbps == counters.disk_write_kbps
            &&& !counters.gpu_util_pct.nan() && 0 < counters.gpu_util_pct.value() <= 100
                * single_one() ==> sample.gpu_usage_pct == counters.gpu_util_pct
            &&& !counters.gpu_util_pct.nan() && counters.gpu_util_pct.value() > 100 * single_one()
                ==> sample.gpu_usage_pct.value() == 100 * single_one()
        }),
{
    lemma_pow2_pos(149);
    crate::arithmetic::small_integers_are_exact(100);
}

/// The rate of one direction of the network does not depend on the counter of the
/// other, nor on that of a disk or of the graphics card, and neither do those of the
/// disks: readings that differ in other counters give the same rate.
pub proof fn counters_do_not_mix(worker: TelemetryWorker, a: Readings, b: Readings)
    requires
        a == (Readings { counters: a.counters, ..b }),
    ensures
        a.counters.net_rx_kbps == b.counters.net_rx_kbps ==> worker.sample_of(a).net_rx_kbps
            == worker.sample_of(b).net_rx_kbps,
        a.counters.net_tx_kbps == b.counters.net_tx_kbps ==> worker.sample_of(a).net_tx_kbps
            == worker.sample_of(b).net_tx_kbps,
        a.counters.disk_read_kbps == b.counters.disk_read_kbps ==> worker.sample_of(
            a,
        ).disk_read_kbps == worker.sample_of(b).disk_read_kbps,
        a.counters.disk_write_kbps == b.counters.disk_write_kbps ==> worker.sample_of(
            a,
        ).disk_write_kbps == worker.sample_of(b).disk_write_kbps,
        a.counters.gpu_util_pct == b.counters.gpu_util_pct ==> worker.sample_of(a).gpu_usage_pct
            == worker.sample_of(b).gpu_usage_pct,
        worker.sample_of(a).cpu_usage_pct == worker.sample_of(b).cpu_usage_pct,
        worker.sample_of(a).cpu_cores_pct == worker.sample_of(b).cpu_cores_pct,
        worker.sample_of(a).ram_pct == worker.sample_of(b).ram_pct,
        worker.sample_of(a).cpu_temp_c == worker.sample_of(b).cpu_temp_c,
{
    assert(worker.loads(a) == worker.loads(b));
    assert(worker.gained(a) == worker.gained(b));
}

/// Where the counter of a direction of the network gave nothing, its rate is that of
/// the bytes that all interfaces have moved in that direction since the last sample:
/// times the seconds, times 1024, it is their number, and nothing where their total
/// went back. Where the counter of a disk gave nothing, its rate follows the load of
/// the processor.
#[verifier::spinoff_prover]
#[verifier::rlimit(60)]
pub proof fn sample_falls_back_on_traffic_and_load(worker: TelemetryWorker, readings: Readings)
    requires
        !readings.interval_sec.infinite(),
        total_received(readings.interfaces@) <= u64::MAX,
        total_transmitted(readings.interfaces@) <= u64::MAX,
    ensures
        ({
            let sample = worker.sample_of(readings);
            let counters = readings.counters;
            let one = single_one();
            let s = interval(readings.interval_sec).value();
            let received = total_received(readings.interfaces@) - worker.prev_traffic.received;
            let sent = total_transmitted(readings.interfaces@) - worker.prev_traffic.transmitted;
            let rx = if received > 0 {
                (received * one) * one
            } else {
                0
            };
            let tx = if sent > 0 {
                (sent * one) * one
            } else {
                0
            };
            let read = 45 * sample.cpu_usage_pct.value() + 12 * one;
            let write = 30 * sample.cpu_usage_pct.value() + 8 * one;
            let gpu = 35 * sample.cpu_usage_pct.value() + 300 * one;
            &&& counters.net_rx_kbps.nan() || counters.net_rx_kbps.value() <= 0 ==> 0x80_0000
                * apart(1024 * (sample.net_rx_kbps.value() * s), rx) <= 8 * rx + 0x4_0000_0000 * (s
                + one)
            &&& counters.net_tx_kbps.nan() || counters.net_tx_kbps.value() <= 0 ==> 0x80_0000
                * apart(1024 * (sample.net_tx_kbps.value() * s), tx) <= 8 * tx + 0x4_0000_0000 * (s
                + one)
            &&& counters.disk_read_kbps.nan() || counters.disk_read_kbps.value() < 0 ==> 0x80_0000
                * apart(sample.disk_read_kbps.value(), read) <= 7 * read
            &&& counters.disk_write_kbps.nan() || counters.disk_write_kbps.value() < 0 ==> 0x80_0000
                * apart(sample.disk_write_kbps.value(), write) <= 7 * write
            &&& counters.gpu_util_pct.nan() || counters.gpu_util_pct.value() <= 0 ==> 0x80_0000
                * apart(100 * sample.gpu_usage_pct.value(), gpu) <= 7 * gpu
        }),
{
    let seconds = interval(readings.interval_sec);
    let sample = worker.sample_of(readings);
    assert((0 * single_one()) * single_one() == 0) by (nonlinear_arith);
    samples_keep_to_their_bounds(worker, readings);
    interval_is_no_less_than_a_tenth(readings.interval_sec);
    crate::bounds::fractions_are_finite(1, 10);
    rates_come_from_their_own_counters(
        readings.counters,
        sample.cpu_usage_pct,
        worker.gained(readings),
        seconds,
    );
}

/// Sizes in a sample, times 2^30, are the bytes that were read, and the use of the
/// memory, times the whole of it, is a hundred times what is in use, but for rounding.
/// Where there is no memory, none is in use. The video memory is 1.8 GB and 0.15 for
/// each GB of memory in use, up to 16.
#[verifier::spinoff_prover]
#[verifier::rlimit(60)]
pub proof fn sample_shows_the_memory(worker: TelemetryWorker, readings: Readings)
    ensures
        ({
            let sample = worker.sample_of(readings);
            let one = single_one();
            let used = readings.used_memory * one;
            let total = readings.total_memory * one;
            let swap_used = readings.used_swap * one;
            let swap_total = readings.total_swap * one;
            let part = sample.ram_used_gb.value();
            let whole = sample.ram_total_gb.value();
            let video = 15 * part + 180 * one;
            let shown = if video > 1600 * one {
                1600 * one
            } else {
                video
            };
            &&& 0x80_0000 * apart(0x4000_0000 * part, used) <= 4 * used
            &&& 0x80_0000 * apart(0x4000_0000 * whole, total) <= 4 * total
            &&& 0x80_0000 * apart(0x4000_0000 * sample.swap_used_gb.value(), swap_used) <= 4
                * swap_used
            &&& 0x80_0000 * apart(0x4000_0000 * sample.swap_total_gb.value(), swap_total) <= 4
                * swap_total
            &&& readings.total_memory > 0 ==> 0x80_0000 * apart(
                sample.ram_pct.value() * whole,
                100 * (part * one),
            ) <= 300 * (part * one) + 0x4000_0000 * whole
            &&& readings.total_memory == 0 ==> sample.ram_pct.value() == 0
            &&& 0x80_0000 * apart(100 * sample.gpu_vram_used_gb.value(), shown) <= 8 * shown
            &&& sample.gpu_vram_total_gb.value() == 16 * one
        }),
{
    let part = gigabytes(readings.used_memory);
    let whole = gigabytes(readings.total_memory);
    gigabytes_are_bytes(readings.used_memory);
    gigabytes_are_bytes(readings.total_memory);
    gigabytes_are_bytes(readings.used_swap);
    gigabytes_are_bytes(readings.total_swap);
    gigabytes_keep_order(readings.used_memory, readings.used_memory);
    integer_is_near(16);
    video_memory_follows_the_memory(part);
    if readings.total_memory > 0 {
        lemma_memory_share(part, whole, readings.total_memory);
    } else {
        lemma_no_bytes();
        no_total_has_no_share(part, whole);
    }
}

proof fn lemma_memory_share(part: Single, whole: Single, total: u64)
    requires
        part.finite(),
        0 <= part.value() <= pow2(213),
        total > 0,
        whole == gigabytes(total),
    ensures
        ({
            let exact = part.value() * single_one();
            0x80_0000 * apart(share(part, whole).value() * whole.value(), 100 * exact) <= 300
                * exact + 0x4000_0000 * whole.value()
        }),
{
    let p = part.value();
    let w = whole.value();
    let one = single_one();
    lemma_one();
    lemma_one_byte(total);
    gigabytes_keep_order(total, total);
    lemma_pow2_pos(119);
    lemma_pow2_adds(149, 213);
    lemma_pow2_adds(119, 250);
    lemma_pow2_strictly_increases(362, 369);
    let low = pow2(119);
    let top = pow2(250);
    assert(p * one <= w * top) by (nonlinear_arith)
        requires
            0 <= p <= pow2(213),
            one * pow2(213) <= low * top,
            low <= w,
            one > 0,
            top >= 0,
    ;
    share_times_total_is_the_part(part, whole);
}

/// A sample shows one load for each processor that both queries report on, and none
/// where the queries do not report on the same number of them. Over the time between
/// the two, the load times that time is a hundred times what was not idle, but for
/// rounding; where no time has passed, or it went back, it is zero.
pub proof fn sample_shows_the_busy_share(worker: TelemetryWorker, readings: Readings, i: int)
    requires
        worker.can_take(readings),
        0 <= i < readings.cpu_times@.len(),
        worker.prev_cpu_times@.len() == readings.cpu_times@.len(),
    ensures
        ({
            let cores = worker.sample_of(readings).cpu_cores_pct;
            let prev = worker.prev_cpu_times@[i];
            let curr = readings.cpu_times@[i];
            let kernel = curr.kernel_time - prev.kernel_time;
            let user = curr.user_time - prev.user_time;
            let idle = curr.idle_time - prev.idle_time;
            let time = kernel + user;
            let moved = absolute(kernel) + absolute(user);
            &&& cores.len() == readings.cpu_times@.len()
            &&& time > 0 && 0 <= idle <= time ==> 0x80_0000 * apart(
                cores[i].value() * time,
                100 * ((time - idle) * single_one()),
            ) <= 2600 * (moved * single_one())
            &&& time <= 0 ==> cores[i].value() == 0
        }),
{
    let prev = worker.prev_cpu_times@[i];
    let curr = readings.cpu_times@[i];
    let delta = spent(worker.prev_cpu_times@, readings.cpu_times@)[i];
    deltas_make_up_the_times(prev, curr);
    if delta.kernel + delta.user > 0 {
        if 0 <= delta.idle <= delta.kernel + delta.user {
            load_is_the_busy_share(delta);
        }
    } else {
        no_time_is_no_load(delta);
    }
}

/// Where the two queries do not report on the same number of processors, or on none, a
/// sample shows no load.
pub proof fn sample_shows_no_load_without_queries(worker: TelemetryWorker, readings: Readings)
    requires
        worker.prev_cpu_times@.len() != readings.cpu_times@.len() || readings.cpu_times@.len() == 0,
    ensures
        worker.sample_of(readings).cpu_cores_pct.len() == 0,
        worker.sample_of(readings).cpu_usage_pct.value() == 0,
{
    no_processor_is_no_load();
    assert(worker.loads(readings) =~= Seq::empty());
}

/// The load of the machine in a sample, times the number of its processors, is the sum
/// of their loads, but for rounding.
pub proof fn sample_shows_the_mean_load(worker: TelemetryWorker, readings: Readings)
    requires
        0 < worker.sample_of(readings).cpu_cores_pct.len() < 0x100_0000,
    ensures
        ({
            let cores = worker.sample_of(readings).cpu_cores_pct;
            let n = cores.len();
            0x80_0000 * apart(
                n * worker.sample_of(readings).cpu_usage_pct.value(),
                true_sum(cores),
            ) <= (2 * n + 2) * true_sum(cores) + 3 * n * 0x80_0000
        }),
{
    samples_keep_to_their_bounds(worker, readings);
    let cores = worker.sample_of(readings).cpu_cores_pct;
    assert forall|i: int| 0 <= i < cores.len() implies (#[trigger] cores[i]).within(0, 100) by {
        assert(worker.sample_of(readings).cpu_cores_pct[i].within(0, 100));
    }
    mean_times_count_is_the_sum(cores);
}

/// A sample shows each disk under its own name and place, in the order of the list. Its
/// sizes, times 2^30, are the bytes that it has and those that are not available, and
/// its use, times its size, is a hundred times what is in use, but for rounding.
#[verifier::spinoff_prover]
#[verifier::rlimit(60)]
pub proof fn sample_shows_the_disks(worker: TelemetryWorker, readings: Readings, i: int)
    requires
        0 <= i < readings.disks@.len(),
    ensures
        ({
            let disk = readings.disks@[i];
            let shown = worker.sample_of(readings).disks[i];
            let one = single_one();
            let total = disk.total_bytes * one;
            let rest = (disk.total_bytes - disk.available_bytes) * one;
            let part = shown.used_gb.value();
            let whole = shown.total_gb.value();
            &&& worker.sample_of(readings).disks.len() == readings.disks@.len()
            &&& shown.name == disk.name
            &&& shown.mount_point == disk.mount_point
            &&& 0x80_0000 * apart(0x4000_0000 * whole, total) <= 4 * total
            &&& disk.available_bytes <= disk.total_bytes ==> 0x80_0000 * apart(
                0x4000_0000 * part,
                rest,
            ) <= 12 * total
            &&& disk.available_bytes >= disk.total_bytes ==> part == 0
            &&& disk.total_bytes > 0 ==> 0x80_0000 * apart(
                shown.usage_pct.value() * whole,
                100 * (part * one),
            ) <= 300 * (part * one) + 0x4000_0000 * whole
            &&& disk.total_bytes == 0 ==> shown.usage_pct.value() == 0
        }),
{
    let disk = readings.disks@[i];
    let used = disk_state(disk).used_gb;
    gigabytes_are_bytes(disk.total_bytes);
    gigabytes_keep_order(disk.total_bytes, disk.total_bytes);
    used_space_is_what_is_not_available(disk);
    crate::formulas::disk_usage_is_a_percentage(disk);
    if disk.total_bytes > 0 {
        lemma_memory_share(used, gigabytes(disk.total_bytes), disk.total_bytes);
    } else {
        lemma_no_bytes();
        no_total_has_no_share(used, gigabytes(disk.total_bytes));
    }
}

/// A smoothed temperature of a sample is 88 percent of the one before and 12 percent of
/// what the first sensor of its kind measures, but for rounding. Where no sensor of its
/// kind reports, the estimate takes its place: 38 degrees and 0.44 for each percent of
/// load for the processor, and 42 degrees and 0.36 for the graphics card.
#[verifier::spinoff_prover]
#[verifier::rlimit(60)]
pub proof fn sample_shows_smoothed_temperatures(worker: TelemetryWorker, readings: Readings)
    requires
        worker.cpu_temp_ema.finite(),
        worker.gpu_temp_ema.finite(),
        worker.cpu_target(readings).finite(),
        worker.gpu_target(readings).finite(),
    ensures
        ({
            let sample = worker.sample_of(readings);
            let one = single_one();
            let cpu = worker.cpu_target(readings);
            let gpu = worker.gpu_target(readings);
            let cpu_exact = 88 * worker.cpu_temp_ema.value() + 12 * cpu.value();
            let gpu_exact = 88 * worker.gpu_temp_ema.value() + 12 * gpu.value();
            let cpu_size = 88 * apart(worker.cpu_temp_ema.value(), 0) + 12 * apart(cpu.value(), 0);
            let gpu_size = 88 * apart(worker.gpu_temp_ema.value(), 0) + 12 * apart(gpu.value(), 0);
            let cpu_estimate = 44 * sample.cpu_usage_pct.value() + 3800 * one;
            let gpu_estimate = 36 * sample.gpu_usage_pct.value() + 4200 * one;
            &&& 0x80_0000 * apart(100 * sample.cpu_temp_c.value(), cpu_exact) <= 6 * cpu_size + 400
                * 0x80_0000
            &&& 0x80_0000 * apart(100 * sample.gpu_temp_c.value(), gpu_exact) <= 6 * gpu_size + 400
                * 0x80_0000
            &&& is_first_warm(readings.sensors@, SensorKind::Cpu, None) ==> 0x80_0000 * apart(
                100 * cpu.value(),
                cpu_estimate,
            ) <= 7 * cpu_estimate
            &&& is_first_warm(readings.sensors@, SensorKind::Gpu, None) ==> 0x80_0000 * apart(
                100 * gpu.value(),
                gpu_estimate,
            ) <= 7 * gpu_estimate
            &&& is_first_warm(readings.sensors@, SensorKind::Cpu, None) || is_first_warm(
                readings.sensors@,
                SensorKind::Cpu,
                Some(cpu),
            )
            &&& is_first_warm(readings.sensors@, SensorKind::Gpu, None) || is_first_warm(
                readings.sensors@,
                SensorKind::Gpu,
                Some(gpu),
            )
        }),
{
    let sample = worker.sample_of(readings);
    samples_keep_to_their_bounds(worker, readings);
    lemma_percentage(sample.cpu_usage_pct);
    lemma_percentage(sample.gpu_usage_pct);
    temperatures_follow_the_load(sample.cpu_usage_pct);
    temperatures_follow_the_load(sample.gpu_usage_pct);
    smoothing_weighs_88_to_12(worker.cpu_temp_ema, worker.cpu_target(readings));
    smoothing_weighs_88_to_12(worker.gpu_temp_ema, worker.gpu_target(readings));
    scan_finds_the_first_sensor(readings.sensors@, SensorKind::Cpu);
    scan_finds_the_first_sensor(readings.sensors@, SensorKind::Gpu);
    lemma_none_or_some(readings.sensors@, SensorKind::Cpu);
    lemma_none_or_some(readings.sensors@, SensorKind::Gpu);
}

/// Where no sensor of the kind reports, none is found.
proof fn lemma_none_or_some(sensors: Seq<SensorReading>, kind: SensorKind)
    ensures
        is_first_warm(sensors, kind, None) ==> first_warm(
            sensors.map_values(|s: SensorReading| classified(s)),
            kind,
        ) is None,
{
    scan_finds_the_first_sensor(sensors, kind);
}

/// The worker keeps what the next sample needs: the processor times, the traffic of all
/// interfaces in each direction, and the temperatures that the sample shows.
pub proof fn worker_keeps_what_was_read(worker: TelemetryWorker, readings: Readings)
    requires
        total_received(readings.interfaces@) <= u64::MAX,
        total_transmitted(readings.interfaces@) <= u64::MAX,
    ensures
        worker.after(readings).prev_cpu_times == readings.cpu_times,
        worker.after(readings).prev_traffic.received == total_received(readings.interfaces@),
        worker.after(readings).prev_traffic.transmitted == total_transmitted(readings.interfaces@),
        worker.after(readings).cpu_temp_ema == worker.sample_of(readings).cpu_temp_c,
        worker.after(readings).gpu_temp_ema == worker.sample_of(readings).gpu_temp_c,
        worker.sample_of(readings).timestamp_sec == readings.elapsed_sec,
{
}

} // verus!
