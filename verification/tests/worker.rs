use perfmon_dash::cpu::SystemProcessorPerformanceInformation;
use perfmon_dash::formulas::DiskSpace;
use perfmon_dash::network::{InterfaceBytes, Traffic};
use perfmon_dash::number::{Double, Single};
use perfmon_dash::pdh::PdhSample;
use perfmon_dash::sensors::SensorReading;
use perfmon_dash::worker::{after_send, NextStep, Readings, TelemetryWorker, WARM_UP_MS};

const GB: u64 = 1024 * 1024 * 1024;

fn single(x: f32) -> Single {
    Single { bits: x.to_bits() }
}

fn times(idle: i64, kernel: i64, user: i64) -> SystemProcessorPerformanceInformation {
    SystemProcessorPerformanceInformation {
        idle_time: idle,
        kernel_time: kernel,
        user_time: user,
        dpc_time: 0,
        interrupt_time: 0,
        interrupt_count: 0,
    }
}

fn counters(x: f32) -> PdhSample {
    PdhSample {
        disk_read_kbps: single(x),
        disk_write_kbps: single(x),
        gpu_util_pct: single(x),
        net_rx_kbps: single(x),
        net_tx_kbps: single(x),
    }
}

fn sensor(label: &str, temperature: f32) -> SensorReading {
    SensorReading { label: label.to_string(), temperature: single(temperature) }
}

fn readings(cpu_times: Vec<SystemProcessorPerformanceInformation>) -> Readings {
    Readings {
        elapsed_sec: Double { bits: 2.5f64.to_bits() },
        interval_sec: single(0.5),
        cpu_times,
        counters: counters(0.0),
        used_memory: 8 * GB,
        total_memory: 32 * GB,
        used_swap: GB,
        total_swap: 4 * GB,
        interfaces: vec![
            InterfaceBytes { received: 10_240, transmitted: 1024 },
            InterfaceBytes { received: 20_480, transmitted: 2048 },
        ],
        disks: vec![DiskSpace {
            name: "n".to_string(),
            mount_point: "m".to_string(),
            total_bytes: 100 * GB,
            available_bytes: 25 * GB,
        }],
        sensors: Vec::new(),
    }
}

#[test]
fn a_new_worker_starts_at_40_and_45_degrees() {
    let worker = TelemetryWorker::new(vec![times(1, 2, 3)]);
    assert_eq!(worker.prev_cpu_times, vec![times(1, 2, 3)]);
    assert_eq!(worker.prev_traffic, Traffic { received: 0, transmitted: 0 });
    assert_eq!(worker.cpu_temp_ema, single(40.0));
    assert_eq!(worker.gpu_temp_ema, single(45.0));
    assert_eq!(WARM_UP_MS, 250);
}

#[test]
fn a_sample_holds_the_figures() {
    let mut worker = TelemetryWorker::new(vec![times(0, 0, 0), times(0, 0, 0)]);
    let s = worker.advance(readings(vec![times(50, 80, 20), times(75, 90, 10)])).unwrap();
    assert_eq!(f64::from_bits(s.timestamp_sec.bits), 2.5);
    assert_eq!(s.cpu_cores_pct, vec![single(50.0), single(25.0)]);
    assert_eq!(s.cpu_usage_pct, single(37.5));
    assert_eq!(s.ram_used_gb, single(8.0));
    assert_eq!(s.ram_total_gb, single(32.0));
    assert_eq!(s.ram_pct, single(25.0));
    assert_eq!(s.swap_used_gb, single(1.0));
    assert_eq!(s.swap_total_gb, single(4.0));
    assert_eq!(s.disk_read_kbps, single(0.0));
    assert_eq!(s.disk_write_kbps, single(0.0));
    assert_eq!(s.disks.len(), 1);
    assert_eq!(s.disks[0].name, "n");
    assert_eq!(s.disks[0].mount_point, "m");
    assert_eq!(s.disks[0].total_gb, single(100.0));
    assert_eq!(s.disks[0].used_gb, single(75.0));
    assert_eq!(s.disks[0].usage_pct, single(75.0));
    assert_eq!(s.net_rx_kbps, single(60.0));
    assert_eq!(s.net_tx_kbps, single(6.0));
    let gpu = (37.5f32 * 0.35 + 3.0).clamp(1.0, 100.0);
    assert_eq!(s.gpu_usage_pct, single(gpu));
    assert_eq!(s.gpu_vram_used_gb, single((1.8f32 + (8.0 * 0.15)).clamp(1.0, 16.0)));
    assert_eq!(s.gpu_vram_total_gb, single(16.0));
    let cpu_temp = 40.0f32 * 0.88 + (38.0 + (37.5 * 0.44)) * 0.12;
    let gpu_temp = 45.0f32 * 0.88 + (42.0 + (gpu * 0.36)) * 0.12;
    assert_eq!(s.cpu_temp_c, single(cpu_temp));
    assert_eq!(s.gpu_temp_c, single(gpu_temp));
    assert_eq!(worker.cpu_temp_ema, single(cpu_temp));
    assert_eq!(worker.gpu_temp_ema, single(gpu_temp));
    assert_eq!(worker.prev_cpu_times, vec![times(50, 80, 20), times(75, 90, 10)]);
    assert_eq!(worker.prev_traffic, Traffic { received: 30_720, transmitted: 3072 });
}

#[test]
fn counters_are_shown_as_they_are() {
    let mut worker = TelemetryWorker::new(Vec::new());
    let mut r = readings(Vec::new());
    r.counters = counters(12.5);
    let s = worker.advance(r).unwrap();
    assert_eq!(s.disk_read_kbps, single(12.5));
    assert_eq!(s.disk_write_kbps, single(12.5));
    assert_eq!(s.gpu_usage_pct, single(12.5));
    assert_eq!(s.net_rx_kbps, single(12.5));
    assert_eq!(s.net_tx_kbps, single(12.5));
}

#[test]
fn sensors_go_before_estimated_temperatures() {
    let mut worker = TelemetryWorker::new(Vec::new());
    let mut r = readings(Vec::new());
    r.sensors = vec![
        sensor("CPU Package", 0.0),
        sensor("Core 0", 71.5),
        sensor("Core 1", 80.0),
        sensor("NVIDIA GeForce", 66.0),
    ];
    let s = worker.advance(r).unwrap();
    assert_eq!(s.cpu_temp_c, single(40.0f32 * 0.88 + 71.5 * 0.12));
    assert_eq!(s.gpu_temp_c, single(45.0f32 * 0.88 + 66.0 * 0.12));
}

#[test]
fn each_sample_is_compared_with_the_one_before() {
    let mut worker = TelemetryWorker::new(vec![times(0, 0, 0)]);
    let first = worker.advance(readings(vec![times(50, 80, 20)])).unwrap();
    assert_eq!(first.cpu_cores_pct, vec![single(50.0)]);
    let mut r = readings(vec![times(60, 100, 100)]);
    r.interfaces = vec![InterfaceBytes { received: 30_720 + 5120, transmitted: 5 }];
    let second = worker.advance(r).unwrap();
    assert_eq!(second.cpu_cores_pct, vec![single(90.0)]);
    assert_eq!(second.net_rx_kbps, single(10.0));
    assert_eq!(second.net_tx_kbps, single(0.0));
    assert_eq!(worker.prev_traffic, Traffic { received: 35_840, transmitted: 5 });
}

#[test]
fn a_still_machine_shows_nothing() {
    let mut worker = TelemetryWorker::new(vec![times(5, 6, 7)]);
    worker.advance(readings(vec![times(5, 6, 7)])).unwrap();
    let s = worker.advance(readings(vec![times(5, 6, 7)])).unwrap();
    assert_eq!(s.cpu_cores_pct, vec![single(0.0)]);
    assert_eq!(s.cpu_usage_pct, single(0.0));
    assert_eq!(s.net_rx_kbps, single(0.0));
    assert_eq!(s.net_tx_kbps, single(0.0));
}

#[test]
fn a_change_of_processors_costs_one_comparison() {
    let mut worker = TelemetryWorker::new(Vec::new());
    let s = worker.advance(readings(vec![times(1, 1, 1)])).unwrap();
    assert!(s.cpu_cores_pct.is_empty());
    assert_eq!(s.cpu_usage_pct, single(0.0));
    let s = worker.advance(readings(vec![times(2, 3, 3)])).unwrap();
    assert_eq!(s.cpu_cores_pct, vec![single(75.0)]);
    assert!(worker.advance(readings(Vec::new())).unwrap().cpu_cores_pct.is_empty());
    assert!(worker.prev_cpu_times.is_empty());
}

#[test]
fn an_overflow_leaves_the_worker_as_it_was() {
    let mut worker = TelemetryWorker::new(vec![times(i64::MIN, 0, 0)]);
    assert!(worker.advance(readings(vec![times(1, 0, 0)])).is_none());
    let mut flood = readings(vec![times(i64::MIN, 0, 0)]);
    flood.interfaces = vec![
        InterfaceBytes { received: u64::MAX, transmitted: 0 },
        InterfaceBytes { received: 1, transmitted: 0 },
    ];
    assert!(worker.advance(flood).is_none());
    assert_eq!(worker.prev_cpu_times, vec![times(i64::MIN, 0, 0)]);
    assert_eq!(worker.prev_traffic, Traffic { received: 0, transmitted: 0 });
    assert_eq!(worker.cpu_temp_ema, single(40.0));
    assert_eq!(worker.gpu_temp_ema, single(45.0));
}

#[test]
fn samples_keep_to_their_bounds() {
    let mut worker = TelemetryWorker::new(vec![times(0, 0, 0)]);
    let mut r = readings(vec![times(-1000, 10, 10)]);
    r.counters = counters(f32::NAN);
    r.used_memory = u64::MAX;
    r.total_memory = 0;
    r.disks[0].available_bytes = u64::MAX;
    r.interval_sec = single(0.0);
    let s = worker.advance(r).unwrap();
    assert_eq!(s.cpu_usage_pct, single(100.0));
    assert_eq!(s.gpu_usage_pct, single(100.0 * 0.35 + 3.0));
    assert_eq!(s.gpu_vram_used_gb, single(16.0));
    assert_eq!(s.ram_pct, single(0.0));
    assert_eq!(s.disks[0].usage_pct, single(0.0));
    assert_eq!(s.disk_read_kbps, single(4512.0));
    assert_eq!(s.disk_write_kbps, single(3008.0));
    assert_eq!(s.net_rx_kbps, single((30_720.0f32 / 1024.0) / 0.1));
}

#[test]
fn temperatures_stay_warm() {
    let mut worker = TelemetryWorker::new(Vec::new());
    for temperature in [f32::NAN, -40.0, 0.0, 0.25, f32::NEG_INFINITY] {
        for _ in 0..200 {
            let mut r = readings(Vec::new());
            r.sensors = vec![sensor("cpu", temperature), sensor("gpu", temperature)];
            let s = worker.advance(r).unwrap();
            assert!(s.cpu_temp_c.has_reached_whole(0));
            assert!(s.gpu_temp_c.has_reached_whole(0));
        }
    }
}

#[test]
fn a_sample_that_nobody_gets_is_the_last() {
    assert_eq!(after_send(true, 500), NextStep::Wait { ms: 500 });
    assert_eq!(after_send(false, 500), NextStep::Stop);
}

#[test]
fn temperatures_keep_their_bands_without_sensors() {
    let mut worker = TelemetryWorker::new(vec![times(0, 0, 0)]);
    let mut spent = 0;
    for busy in [false, true] {
        for _ in 0..300 {
            spent += 100;
            let idle = if busy { worker.prev_cpu_times[0].idle_time } else { spent };
            let mut r = readings(vec![times(idle, spent, 0)]);
            r.counters.gpu_util_pct = single(if busy { 100.0 } else { 0.0001 });
            r.sensors = vec![sensor("cpu", 0.0), sensor("gpu", f32::NAN)];
            let s = worker.advance(r).unwrap();
            assert!(s.cpu_temp_c.has_reached_whole(38) && !s.cpu_temp_c.is_above_whole(82));
            assert!(s.gpu_temp_c.has_reached_whole(42) && !s.gpu_temp_c.is_above_whole(78));
        }
    }
    assert!(worker.cpu_temp_ema.is_above_whole(81));
    assert!(worker.gpu_temp_ema.is_above_whole(77));
}

#[test]
fn the_use_of_the_memory_is_finite() {
    let mut worker = TelemetryWorker::new(Vec::new());
    let mut r = readings(Vec::new());
    r.used_memory = u64::MAX;
    r.total_memory = 1;
    let s = worker.advance(r).unwrap();
    assert!(f32::from_bits(s.ram_pct.bits).is_finite());
    assert_eq!(s.ram_pct, single(18_446_744_073_709_551_616.0 * 100.0));
}

#[test]
fn a_worker_runs_until_nobody_listens() {
    let mut worker = TelemetryWorker::new(Vec::new());
    let mut seconds: Vec<f64> = Vec::new();
    let mut slept: u64 = 0;
    for cycle in 0..10 {
        let mut r = readings(Vec::new());
        r.elapsed_sec = Double { bits: (0.5 * cycle as f64).to_bits() };
        let s = worker.advance(r).unwrap();
        seconds.push(f64::from_bits(s.timestamp_sec.bits));
        match after_send(cycle < 3, 500) {
            NextStep::Stop => break,
            NextStep::Wait { ms } => slept += ms,
        }
    }
    assert_eq!(seconds, vec![0.0, 0.5, 1.0, 1.5]);
    assert_eq!(slept, 1500);
}

#[test]
fn an_infinite_temperature_is_its_own_bound() {
    let mut worker = TelemetryWorker::new(Vec::new());
    let mut r = readings(Vec::new());
    r.sensors = vec![sensor("cpu", f32::INFINITY)];
    assert_eq!(worker.advance(r).unwrap().cpu_temp_c, single(f32::INFINITY));
}
