//! The telemetry worker: what it keeps from one sample to the next, and how raw
//! readings become a sample.
use crate::arithmetic::small_integers_are_exact;
use crate::bounds::integers_are_finite;
use crate::cpu::{
    comparable, core_delta, core_deltas, core_load_is_a_percentage, core_loads, differences_fit,
    load_of, mean_load, mean_load_is_a_percentage, overall_load, CoreDelta,
    SystemProcessorPerformanceInformation,
};
use crate::formulas::{
    cpu_temperature, disk_list, disk_state, disk_usage_is_a_percentage,
    estimate_cpu_temperature, estimate_gpu_temperature, estimate_video_memory,
    estimated_temperatures_are_warm, gigabytes, gpu_temperature, gpu_usage_is_a_percentage,
    is_warm, memory_share_is_a_percentage, memory_share_is_finite, rates_of, resolve_rates, share,
    share_percent, shown_rates_are_not_negative, smooth, smoothed,
    smoothing_keeps_temperatures_warm, to_gigabytes, video_memory, video_memory_is_bounded,
    DiskSpace, Rates,
};
use crate::mean::mean_lies_between;
use crate::network::{
    gain, interval, total_received, total_traffic, total_transmitted, traffic_interval,
    traffic_since, InterfaceBytes, Traffic,
};
use crate::number::{lemma_magnitude_zero, single_one, Double, Single};
use crate::pdh::PdhSample;
use crate::sample::{MetricSample, SampleModel};
use crate::sensors::{
    classified, first_warm, first_warm_is_the_first, scan_sensors, target_temperature, SensorKind,
    SensorReading,
};
use crate::smoothing::{
    estimates_keep_their_bands, lies_between, smoothing_keeps_the_bands, smoothing_stays_between,
};
use vstd::arithmetic::power2::lemma_pow2_pos;
use vstd::prelude::*;

verus! {

/// The milliseconds that the worker waits before its first sample, so that the
/// first differences cover some time.
pub const WARM_UP_MS: u64 = 250;

/// What the worker keeps from one sample to the next.
#[derive(Debug)]
pub struct TelemetryWorker {
    pub prev_cpu_times: Vec<SystemProcessorPerformanceInformation>,
    pub prev_traffic: Traffic,
    pub cpu_temp_ema: Single,
    pub gpu_temp_ema: Single,
}

/// What is read from the system for one sample.
#[derive(Debug)]
pub struct Readings {
    /// The seconds since the worker started.
    pub elapsed_sec: Double,
    /// The seconds since the sample before.
    pub interval_sec: Single,
    pub cpu_times: Vec<SystemProcessorPerformanceInformation>,
    pub counters: PdhSample,
    pub used_memory: u64,
    pub total_memory: u64,
    pub used_swap: u64,
    pub total_swap: u64,
    pub interfaces: Vec<InterfaceBytes>,
    pub disks: Vec<DiskSpace>,
    pub sensors: Vec<SensorReading>,
}

/// What the worker does once it has sent a sample.
#[derive(Clone, Copy, PartialEq, Eq, Structural, Debug)]
pub enum NextStep {
    /// Nobody listens any more.
    Stop,
    /// Wait so many milliseconds, then take the next sample.
    Wait { ms: u64 },
}

/// What follows an attempt to send a sample.
pub open spec fn next_step(delivered: bool, interval_ms: u64) -> NextStep {
    if delivered {
        NextStep::Wait { ms: interval_ms }
    } else {
        NextStep::Stop
    }
}

/// What the worker does once it has tried to send a sample: it waits for the next
/// one where the sample was `delivered`, and stops where nobody is there to get
/// it.
pub fn after_send(delivered: bool, interval_ms: u64) -> (r: NextStep)
    ensures
        r == next_step(delivered, interval_ms),
        delivered ==> r == (NextStep::Wait { ms: interval_ms }),
        !delivered ==> r == NextStep::Stop,
{
    if delivered {
        NextStep::Wait { ms: interval_ms }
    } else {
        NextStep::Stop
    }
}

/// What each processor has spent between two queries; nothing where the two
/// cannot be compared.
pub open spec fn spent(
    prev: Seq<SystemProcessorPerformanceInformation>,
    curr: Seq<SystemProcessorPerformanceInformation>,
) -> Seq<CoreDelta> {
    if comparable(prev, curr) {
        Seq::new(curr.len(), |i: int| core_delta(prev[i], curr[i]))
    } else {
        Seq::empty()
    }
}

/// The temperature that a smoothed one moves towards: that of the first warm
/// sensor of the kind, or an estimate.
pub open spec fn target(sensors: Seq<SensorReading>, kind: SensorKind, estimate: Single) -> Single {
    match first_warm(sensors.map_values(|s: SensorReading| classified(s)), kind) {
        Some(t) => t,
        None => estimate,
    }
}

/// Whether no sensor reports a temperature above zero, neither of the processor
/// nor of the graphics card.
pub open spec fn no_sensor_reports(sensors: Seq<SensorReading>) -> bool {
    let readings = sensors.map_values(|s: SensorReading| classified(s));
    first_warm(readings, SensorKind::Cpu) is None && first_warm(readings, SensorKind::Gpu) is None
}

impl TelemetryWorker {
    /// Whether every difference and every total of the readings fits.
    pub open spec fn can_take(self, readings: Readings) -> bool {
        &&& comparable(self.prev_cpu_times@, readings.cpu_times@) ==> forall|i: int|
            0 <= i < readings.cpu_times@.len() ==> differences_fit(
                #[trigger] self.prev_cpu_times@[i],
                readings.cpu_times@[i],
            )
        &&& total_received(readings.interfaces@) <= u64::MAX
        &&& total_transmitted(readings.interfaces@) <= u64::MAX
    }

    /// The loads of the processors since the last sample.
    pub open spec fn loads(self, readings: Readings) -> Seq<Single> {
        spent(self.prev_cpu_times@, readings.cpu_times@).map_values(|d: CoreDelta| load_of(d))
    }

    /// The traffic since the last sample.
    pub open spec fn gained(self, readings: Readings) -> Traffic {
        Traffic {
            received: gain(
                self.prev_traffic.received as int,
                total_received(readings.interfaces@) as int,
            ) as u64,
            transmitted: gain(
                self.prev_traffic.transmitted as int,
                total_transmitted(readings.interfaces@) as int,
            ) as u64,
        }
    }

    /// The rates to show.
    pub open spec fn rates(self, readings: Readings) -> Rates {
        rates_of(
            readings.counters,
            mean_load(self.loads(readings)),
            self.gained(readings),
            interval(readings.interval_sec),
        )
    }

    /// The temperature that the processor's moves towards.
    pub open spec fn cpu_target(self, readings: Readings) -> Single {
        target(
            readings.sensors@,
            SensorKind::Cpu,
            cpu_temperature(mean_load(self.loads(readings))),
        )
    }

    /// The temperature that the graphics card's moves towards.
    pub open spec fn gpu_target(self, readings: Readings) -> Single {
        target(
            readings.sensors@,
            SensorKind::Gpu,
            gpu_temperature(self.rates(readings).gpu_usage_pct),
        )
    }

    /// The sample that the readings amount to.
    pub open spec fn sample_of(self, readings: Readings) -> SampleModel {
        let cpu = mean_load(self.loads(readings));
        let rates = self.rates(readings);
        let ram_used = gigabytes(readings.used_memory);
        let ram_total = gigabytes(readings.total_memory);
        SampleModel {
            timestamp_sec: readings.elapsed_sec,
            cpu_usage_pct: cpu,
            cpu_cores_pct: self.loads(readings),
            ram_used_gb: ram_used,
            ram_total_gb: ram_total,
            ram_pct: share(ram_used, ram_total),
            swap_used_gb: gigabytes(readings.used_swap),
            swap_total_gb: gigabytes(readings.total_swap),
            disk_read_kbps: rates.disk_read_kbps,
            disk_write_kbps: rates.disk_write_kbps,
            disks: readings.disks@.map_values(|d: DiskSpace| disk_state(d)),
            net_rx_kbps: rates.net_rx_kbps,
            net_tx_kbps: rates.net_tx_kbps,
            gpu_usage_pct: rates.gpu_usage_pct,
            gpu_vram_used_gb: video_memory(ram_used),
            gpu_vram_total_gb: Single::of_int(16),
            cpu_temp_c: smoothed(self.cpu_temp_ema, self.cpu_target(readings)),
            gpu_temp_c: smoothed(self.gpu_temp_ema, self.gpu_target(readings)),
        }
    }

    /// The worker once it has made a sample of the readings: it keeps the processor
    /// times, the traffic and the smoothed temperatures.
    pub open spec fn after(self, readings: Readings) -> TelemetryWorker {
        TelemetryWorker {
            prev_cpu_times: readings.cpu_times,
            prev_traffic: Traffic {
                received: total_received(readings.interfaces@) as u64,
                transmitted: total_transmitted(readings.interfaces@) as u64,
            },
            cpu_temp_ema: self.sample_of(readings).cpu_temp_c,
            gpu_temp_ema: self.sample_of(readings).gpu_temp_c,
        }
    }

    /// A worker that has seen the given processor times, and no traffic yet. The
    /// smoothed temperatures start at 40 and 45 degrees.
    pub fn new(cpu_times: Vec<SystemProcessorPerformanceInformation>) -> (r: Self)
        ensures
            r.prev_cpu_times == cpu_times,
            r.prev_traffic == (Traffic { received: 0, transmitted: 0 }),
            r.cpu_temp_ema == Single::of_int(40),
            r.gpu_temp_ema == Single::of_int(45),
            r.well_formed(),
            r.in_band(),
    {
        proof {
            lemma_pow2_pos(149);
            small_integers_are_exact(40);
            small_integers_are_exact(45);
            assert(38 * single_one() <= 40nat as int * single_one() <= 82 * single_one())
                by (nonlinear_arith)
                requires
                    single_one() > 0,
            ;
            assert(42 * single_one() <= 45nat as int * single_one() <= 78 * single_one())
                by (nonlinear_arith)
                requires
                    single_one() > 0,
            ;
        }
        TelemetryWorker {
            prev_cpu_times: cpu_times,
            prev_traffic: Traffic { received: 0, transmitted: 0 },
            cpu_temp_ema: Single::whole(40),
            gpu_temp_ema: Single::whole(45),
        }
    }

    /// The smoothed temperatures are numbers that are not below zero.
    pub open spec fn well_formed(self) -> bool {
        is_warm(self.cpu_temp_ema) && is_warm(self.gpu_temp_ema)
    }

    /// The smoothed temperatures lie in the bands of the estimates.
    pub open spec fn in_band(self) -> bool {
        self.cpu_temp_ema.within(38, 82) && self.gpu_temp_ema.within(42, 78)
    }

    /// Makes a sample of the readings, and keeps what the next one needs. `None`,
    /// with the worker unchanged, where a difference of processor times or a
    /// total of bytes overflows.
    #[verifier::spinoff_prover]
    #[verifier::rlimit(60)]
    pub fn advance(&mut self, readings: Readings) -> (r: Option<MetricSample>)
        ensures
            r is Some <==> old(self).can_take(readings),
            (old(self).prev_cpu_times@.len() != readings.cpu_times@.len() || forall|i: int|
                0 <= i < readings.cpu_times@.len() ==> {
                    let prev = #[trigger] old(self).prev_cpu_times@[i];
                    let curr = readings.cpu_times@[i];
                    &&& i64::MIN <= curr.idle_time - prev.idle_time <= i64::MAX
                    &&& i64::MIN <= curr.kernel_time - prev.kernel_time <= i64::MAX
                    &&& i64::MIN <= curr.user_time - prev.user_time <= i64::MAX
                }) && total_received(readings.interfaces@) <= u64::MAX && total_transmitted(
                readings.interfaces@,
            ) <= u64::MAX ==> r is Some,
            r is None ==> *final(self) == *old(self),
            r matches Some(sample) ==> {
                &&& sample@ == old(self).sample_of(readings)
                &&& *final(self) == old(self).after(readings)
            },
            r matches Some(sample) ==> {
                &&& sample.timestamp_sec == readings.elapsed_sec
                &&& sample.gpu_vram_total_gb.value() == 16 * single_one()
                &&& sample.disks@.len() == readings.disks@.len()
                &&& forall|i: int|
                    0 <= i < readings.disks@.len() ==> (#[trigger] sample.disks@[i]).name
                        == readings.disks@[i].name && sample.disks@[i].mount_point
                        == readings.disks@[i].mount_point
                &&& sample.cpu_cores_pct@.len() == (if old(self).prev_cpu_times@.len()
                    == readings.cpu_times@.len() {
                    readings.cpu_times@.len()
                } else {
                    0
                })
                &&& !readings.counters.net_rx_kbps.nan()
                    && readings.counters.net_rx_kbps.value() > 0 ==> sample.net_rx_kbps == readings.counters.net_rx_kbps
                &&& !readings.counters.net_tx_kbps.nan()
                    && readings.counters.net_tx_kbps.value() > 0 ==> sample.net_tx_kbps == readings.counters.net_tx_kbps
                &&& !readings.counters.disk_read_kbps.nan()
                    && readings.counters.disk_read_kbps.value() >= 0 ==> sample.disk_read_kbps
                    == readings.counters.disk_read_kbps
                &&& !readings.counters.disk_write_kbps.nan()
                    && readings.counters.disk_write_kbps.value() >= 0 ==> sample.disk_write_kbps
                    == readings.counters.disk_write_kbps
                &&& !readings.counters.gpu_util_pct.nan() && 0
                    < readings.counters.gpu_util_pct.value() <= 100 * single_one()
                    ==> sample.gpu_usage_pct == readings.counters.gpu_util_pct
            },
            r is Some ==> {
                &&& final(self).prev_cpu_times == readings.cpu_times
                &&& final(self).prev_traffic.received == total_received(readings.interfaces@)
                &&& final(self).prev_traffic.transmitted == total_transmitted(readings.interfaces@)
            },
            r matches Some(sample) ==> {
                &&& final(self).cpu_temp_ema == sample.cpu_temp_c
                &&& final(self).gpu_temp_ema == sample.gpu_temp_c
            },
            r is Some ==> total_received(readings.interfaces@) <= u64::MAX && total_transmitted(
                readings.interfaces@,
            ) <= u64::MAX,
            old(self).well_formed() ==> final(self).well_formed(),
            old(self).in_band() && no_sensor_reports(readings.sensors@)
                ==> final(self).in_band(),
    {
        let deltas = match core_deltas(&self.prev_cpu_times, &readings.cpu_times) {
            Some(deltas) => deltas,
            None => {
                return None;
            },
        };
        let now = match total_traffic(&readings.interfaces) {
            Some(now) => now,
            None => {
                return None;
            },
        };
        assert(deltas@ =~= spent(self.prev_cpu_times@, readings.cpu_times@));
        let cpu_cores_pct = core_loads(&deltas);
        let cpu_usage_pct = overall_load(&cpu_cores_pct);
        let gained = traffic_since(self.prev_traffic, now);
        let seconds = traffic_interval(readings.interval_sec);
        let rates = resolve_rates(readings.counters, cpu_usage_pct, gained, seconds);
        let ram_used_gb = to_gigabytes(readings.used_memory);
        let ram_total_gb = to_gigabytes(readings.total_memory);
        let measured = scan_sensors(&readings.sensors);
        let cpu_target = target_temperature(
            measured.cpu,
            estimate_cpu_temperature(cpu_usage_pct),
        );
        let gpu_target = target_temperature(
            measured.gpu,
            estimate_gpu_temperature(rates.gpu_usage_pct),
        );
        let cpu_temp_c = smooth(self.cpu_temp_ema, cpu_target);
        let gpu_temp_c = smooth(self.gpu_temp_ema, gpu_target);
        let sample = MetricSample {
            timestamp_sec: readings.elapsed_sec,
            cpu_usage_pct,
            cpu_cores_pct,
            ram_used_gb,
            ram_total_gb,
            ram_pct: share_percent(ram_used_gb, ram_total_gb),
            swap_used_gb: to_gigabytes(readings.used_swap),
            swap_total_gb: to_gigabytes(readings.total_swap),
            disk_read_kbps: rates.disk_read_kbps,
            disk_write_kbps: rates.disk_write_kbps,
            disks: disk_list(&readings.disks),
            net_rx_kbps: rates.net_rx_kbps,
            net_tx_kbps: rates.net_tx_kbps,
            gpu_usage_pct: rates.gpu_usage_pct,
            gpu_vram_used_gb: estimate_video_memory(ram_used_gb),
            gpu_vram_total_gb: Single::whole(16),
            cpu_temp_c,
            gpu_temp_c,
        };
        proof {
            assert(sample@ == self.sample_of(readings));
            small_integers_are_exact(16);
            if self.well_formed() {
                temperatures_stay_warm(*self, readings);
            }
            if self.in_band() && no_sensor_reports(readings.sensors@) {
                temperatures_keep_their_bands(*self, readings);
            }
        }
        self.prev_cpu_times = readings.cpu_times;
        self.prev_traffic = now;
        self.cpu_temp_ema = cpu_temp_c;
        self.gpu_temp_ema = gpu_temp_c;
        Some(sample)
    }
}

proof fn lemma_loads(worker: TelemetryWorker, readings: Readings)
    ensures
        worker.loads(readings).len() <= u64::MAX,
        forall|i: int|
            0 <= i < worker.loads(readings).len() ==> (
            #[trigger] worker.loads(readings)[i]).within(0, 100),
        mean_load(worker.loads(readings)).within(0, 100),
{
    let deltas = spent(worker.prev_cpu_times@, readings.cpu_times@);
    let loads = worker.loads(readings);
    assert(readings.cpu_times@.len() == readings.cpu_times.len());
    assert forall|i: int| 0 <= i < loads.len() implies (#[trigger] loads[i]).within(0, 100) by {
        core_load_is_a_percentage(deltas[i]);
    }
    mean_load_is_a_percentage(loads);
}

/// Whatever is read, a sample keeps to its bounds: loads are percentages, no disk
/// is more than full, the video memory in use lies between 1 and 16 GB, and no rate
/// is below zero. The use of the memory is a percentage where no more is in use
/// than there is.
pub proof fn samples_keep_to_their_bounds(worker: TelemetryWorker, readings: Readings)
    ensures
        worker.sample_of(readings).cpu_usage_pct.within(0, 100),
        forall|i: int|
            0 <= i < worker.sample_of(readings).cpu_cores_pct.len() ==> (
            #[trigger] worker.sample_of(readings).cpu_cores_pct[i]).within(0, 100),
        worker.sample_of(readings).gpu_usage_pct.within(0, 100),
        worker.sample_of(readings).gpu_vram_used_gb.within(1, 16),
        forall|i: int|
            0 <= i < worker.sample_of(readings).disks.len() ==> (
            #[trigger] worker.sample_of(readings).disks[i]).usage_pct.within(0, 100),
        worker.sample_of(readings).disk_read_kbps.reaches_whole(0),
        worker.sample_of(readings).disk_write_kbps.reaches_whole(0),
        worker.sample_of(readings).net_rx_kbps.reaches_whole(0),
        worker.sample_of(readings).net_tx_kbps.reaches_whole(0),
        readings.used_memory <= readings.total_memory ==> worker.sample_of(
            readings,
        ).ram_pct.within(0, 100),
{
    if readings.used_memory <= readings.total_memory {
        memory_share_is_a_percentage(readings.used_memory, readings.total_memory);
    }
    lemma_loads(worker, readings);
    shown_rates_are_not_negative(
        readings.counters,
        mean_load(worker.loads(readings)),
        worker.gained(readings),
        readings.interval_sec,
    );
    gpu_usage_is_a_percentage(
        readings.counters.gpu_util_pct,
        mean_load(worker.loads(readings)),
    );
    video_memory_is_bounded(readings.used_memory);
    let disks = worker.sample_of(readings).disks;
    assert forall|i: int| 0 <= i < disks.len() implies (#[trigger] disks[i]).usage_pct.within(
        0,
        100,
    ) by {
        disk_usage_is_a_percentage(readings.disks@[i]);
    }
}

proof fn lemma_target(sensors: Seq<SensorReading>, kind: SensorKind, estimate: Single)
    requires
        is_warm(estimate),
    ensures
        is_warm(target(sensors, kind, estimate)),
{
    first_warm_is_the_first(sensors.map_values(|s: SensorReading| classified(s)), kind);
    lemma_pow2_pos(149);
}

/// Temperatures that are numbers, and not below zero, stay so, whatever is read.
pub proof fn temperatures_stay_warm(worker: TelemetryWorker, readings: Readings)
    requires
        worker.well_formed(),
    ensures
        is_warm(worker.sample_of(readings).cpu_temp_c),
        is_warm(worker.sample_of(readings).gpu_temp_c),
{
    let cpu = mean_load(worker.loads(readings));
    let gpu = worker.rates(readings).gpu_usage_pct;
    samples_keep_to_their_bounds(worker, readings);
    estimated_temperatures_are_warm(cpu);
    estimated_temperatures_are_warm(gpu);
    lemma_target(readings.sensors@, SensorKind::Cpu, cpu_temperature(cpu));
    lemma_target(readings.sensors@, SensorKind::Gpu, gpu_temperature(gpu));
    smoothing_keeps_temperatures_warm(
        worker.cpu_temp_ema,
        target(readings.sensors@, SensorKind::Cpu, cpu_temperature(cpu)),
    );
    smoothing_keeps_temperatures_warm(
        worker.gpu_temp_ema,
        target(readings.sensors@, SensorKind::Gpu, gpu_temperature(gpu)),
    );
}

/// Where no sensor reports, the temperatures stay in the bands of the estimates: a
/// sample shows from 38 to 82 degrees for the processor, and from 42 to 78 for the
/// graphics card, where the one before did.
pub proof fn temperatures_keep_their_bands(worker: TelemetryWorker, readings: Readings)
    requires
        worker.in_band(),
        no_sensor_reports(readings.sensors@),
    ensures
        worker.sample_of(readings).cpu_temp_c.within(38, 82),
        worker.sample_of(readings).gpu_temp_c.within(42, 78),
{
    let cpu = mean_load(worker.loads(readings));
    let gpu = worker.rates(readings).gpu_usage_pct;
    samples_keep_to_their_bounds(worker, readings);
    estimates_keep_their_bands(cpu);
    estimates_keep_their_bands(gpu);
    smoothing_keeps_the_bands(worker.cpu_temp_ema, cpu_temperature(cpu));
    smoothing_keeps_the_bands(worker.gpu_temp_ema, gpu_temperature(gpu));
}

/// Each smoothed temperature of a sample lies between the one before and its
/// target, but for rounding.
pub proof fn temperatures_move_towards_their_targets(worker: TelemetryWorker, readings: Readings)
    requires
        worker.well_formed(),
    ensures
        lies_between(
            worker.sample_of(readings).cpu_temp_c,
            worker.cpu_temp_ema,
            worker.cpu_target(readings),
        ),
        lies_between(
            worker.sample_of(readings).gpu_temp_c,
            worker.gpu_temp_ema,
            worker.gpu_target(readings),
        ),
{
    let cpu = mean_load(worker.loads(readings));
    let gpu = worker.rates(readings).gpu_usage_pct;
    samples_keep_to_their_bounds(worker, readings);
    estimated_temperatures_are_warm(cpu);
    estimated_temperatures_are_warm(gpu);
    lemma_target(readings.sensors@, SensorKind::Cpu, cpu_temperature(cpu));
    lemma_target(readings.sensors@, SensorKind::Gpu, gpu_temperature(gpu));
    smoothing_stays_between(worker.cpu_temp_ema, worker.cpu_target(readings));
    smoothing_stays_between(worker.gpu_temp_ema, worker.gpu_target(readings));
}

/// The load of the machine in a sample lies between the smallest and the largest
/// load of its processors, but for rounding: with `n` processors, `4 n + 8` parts
/// in 2^23, and four times the smallest number above zero. It is zero where none
/// has a load.
pub proof fn load_lies_between_those_of_the_processors(
    worker: TelemetryWorker,
    readings: Readings,
    least: int,
    most: int,
)
    requires
        ({
            let cores = worker.sample_of(readings).cpu_cores_pct;
            cores.len() > 0 ==> {
                &&& 0 <= least < cores.len()
                &&& 0 <= most < cores.len()
                &&& forall|i: int|
                    0 <= i < cores.len() ==> cores[least].value() <= (#[trigger] cores[i]).value()
                        <= cores[most].value()
            }
        }),
    ensures
        ({
            let cores = worker.sample_of(readings).cpu_cores_pct;
            let n = cores.len();
            let mean = worker.sample_of(readings).cpu_usage_pct.value();
            if n > 0 {
                &&& 0x80_0000 * mean <= (0x80_0000 + 4 * n + 8) * cores[most].value() + 4
                    * 0x80_0000
                &&& (0x80_0000 - 4 * n - 8) * cores[least].value() <= 0x80_0000 * mean + 4
                    * 0x80_0000
            } else {
                worker.sample_of(readings).cpu_usage_pct == Single::nought()
            }
        }),
{
    lemma_loads(worker, readings);
    if worker.loads(readings).len() > 0 {
        mean_lies_between(worker.loads(readings), least, most);
    }
}

/// Whatever is said to be in use, the use of the memory is finite, and not below
/// zero.
pub proof fn memory_use_is_finite(worker: TelemetryWorker, readings: Readings)
    ensures
        worker.sample_of(readings).ram_pct.finite(),
        worker.sample_of(readings).ram_pct.value() >= 0,
{
    memory_share_is_finite(readings.used_memory, readings.total_memory);
}

/// A sample that is taken twice, with nothing changed in between, shows no
/// traffic of its own and idle processors.
pub proof fn still_machine_shows_nothing(worker: TelemetryWorker, readings: Readings)
    requires
        worker.prev_cpu_times@ == readings.cpu_times@,
        worker.prev_traffic.received == total_received(readings.interfaces@),
        worker.prev_traffic.transmitted == total_transmitted(readings.interfaces@),
    ensures
        worker.can_take(readings),
        worker.gained(readings) == (Traffic { received: 0, transmitted: 0 }),
        forall|i: int|
            0 <= i < worker.loads(readings).len() ==> #[trigger] worker.loads(readings)[i]
                == Single::nought(),
{
    let deltas = spent(worker.prev_cpu_times@, readings.cpu_times@);
    small_integers_are_exact(0);
    lemma_pow2_pos(149);
    assert forall|i: int| 0 <= i < deltas.len() implies load_of(#[trigger] deltas[i])
        == Single::nought() by {
        assert(deltas[i] == (CoreDelta { idle: 0, kernel: 0, user: 0 }));
        assert(Single::of_int(0).value() == 0) by {
            assert(0 * single_one() == 0) by (nonlinear_arith);
        }
        assert(!Single::of_int(0).infinite()) by {
            integers_are_finite(0);
        }
        lemma_magnitude_zero(23);
        assert(!Single::of_int(0).sum(Single::of_int(0)).above_whole(0));
    }
}

} // verus!
