use perfmon_dash::number::{Double, Single};
use perfmon_dash::pdh::{
    PdhCounter, PdhRequest, PdhSample, PdhValues, Win32PdhEngine, PDH_FORMAT_DOUBLE,
};

fn single(x: f32) -> Single {
    Single { bits: x.to_bits() }
}

fn double(x: f64) -> Double {
    Double { bits: x.to_bits() }
}

fn reading() -> PdhValues {
    let mut values = PdhValues::new();
    values.counter_read(PdhCounter::NetSent, double(1.0e9 / 3.0));
    values.counter_read(PdhCounter::DiskRead, double(2048.0));
    values.counter_read(PdhCounter::DiskWrite, double(512.0));
    values.counter_read(PdhCounter::NetReceived, double(-1024.0));
    values.counter_read(PdhCounter::GpuUtilization, double(33.3));
    values
}

const COUNTERS: [PdhCounter; 5] = [
    PdhCounter::DiskRead,
    PdhCounter::DiskWrite,
    PdhCounter::GpuUtilization,
    PdhCounter::NetReceived,
    PdhCounter::NetSent,
];

#[test]
fn counters_have_english_paths() {
    let paths = [
        "\\PhysicalDisk(_Total)\\Disk Read Bytes/sec",
        "\\PhysicalDisk(_Total)\\Disk Write Bytes/sec",
        "\\GPU Engine(*)\\Utilization Percentage",
        "\\Network Interface(*)\\Bytes Received/sec",
        "\\Network Interface(*)\\Bytes Sent/sec",
    ];
    for (counter, path) in COUNTERS.iter().zip(paths) {
        let wide = counter.wide_path();
        let (last, units) = wide.split_last().unwrap();
        assert_eq!(*last, 0);
        assert_eq!(String::from_utf16(units).unwrap(), path);
    }
}

#[test]
fn setting_up_adds_every_counter_and_collects() {
    let engine = Win32PdhEngine::new(0, 77);
    assert!(engine.is_valid);
    let mut expected: Vec<PdhRequest> = COUNTERS
        .iter()
        .map(|&counter| PdhRequest::AddCounter { query: 77, counter })
        .collect();
    expected.push(PdhRequest::Collect { query: 77 });
    assert_eq!(engine.setup(), expected);
}

#[test]
fn each_counter_is_read_by_its_own_handle() {
    let mut forward = Win32PdhEngine::new(0, 77);
    for (i, &counter) in COUNTERS.iter().enumerate() {
        forward.counter_added(counter, 100 + i);
    }
    let mut backward = Win32PdhEngine::new(0, 77);
    for (i, &counter) in COUNTERS.iter().enumerate().rev() {
        backward.counter_added(counter, 100 + i);
    }
    assert_eq!(forward, backward);
    let mut expected = vec![PdhRequest::Collect { query: 77 }];
    for (i, &counter) in COUNTERS.iter().enumerate() {
        expected.push(PdhRequest::Read { counter, handle: 100 + i, format: PDH_FORMAT_DOUBLE });
    }
    assert_eq!(forward.poll(), expected);
    assert_eq!(PDH_FORMAT_DOUBLE, 0x200);
}

#[test]
fn counters_start_without_a_handle() {
    let engine = Win32PdhEngine::new(0, 77);
    assert_eq!(engine.counter_disk_read, 0);
    assert_eq!(engine.counter_disk_write, 0);
    assert_eq!(engine.counter_gpu_util, 0);
    assert_eq!(engine.counter_net_rx, 0);
    assert_eq!(engine.counter_net_tx, 0);
}

#[test]
fn an_engine_without_a_query_does_nothing() {
    let engine = Win32PdhEngine::new(0xC000_0BB8, 0);
    assert!(!engine.is_valid);
    assert!(engine.setup().is_empty());
    assert!(engine.poll().is_empty());
    let zeros = engine.sample(reading());
    assert_eq!(zeros.disk_read_kbps, single(0.0));
    assert_eq!(zeros.disk_write_kbps, single(0.0));
    assert_eq!(zeros.gpu_util_pct, single(0.0));
    assert_eq!(zeros.net_rx_kbps, single(0.0));
    assert_eq!(zeros.net_tx_kbps, single(0.0));
    assert_eq!(engine.query_to_close(), None);
}

#[test]
fn a_sample_is_what_the_counters_gave_in_kilobytes() {
    let expected = PdhSample {
        disk_read_kbps: single(2.0),
        disk_write_kbps: single(0.5),
        gpu_util_pct: single(33.3f64 as f32),
        net_rx_kbps: single(-1.0),
        net_tx_kbps: single((1.0e9f64 / 3.0 / 1024.0) as f32),
    };
    assert_eq!(Win32PdhEngine::new(0, 77).sample(reading()), expected);
}

#[test]
fn counters_that_were_not_read_count_as_zero() {
    let sample = Win32PdhEngine::new(0, 77).sample(PdhValues::new());
    assert_eq!(sample, Win32PdhEngine::new(1, 0).sample(reading()));
    assert_eq!(sample.gpu_util_pct, single(0.0));
}

#[test]
fn the_last_value_of_a_counter_counts() {
    let mut values = reading();
    values.counter_read(PdhCounter::DiskRead, double(1024.0));
    let sample = Win32PdhEngine::new(0, 77).sample(values);
    assert_eq!(sample.disk_read_kbps, single(1.0));
    assert_eq!(sample.disk_write_kbps, single(0.5));
}

#[test]
fn only_an_open_query_is_closed() {
    assert_eq!(Win32PdhEngine::new(0, 77).query_to_close(), Some(77));
    assert_eq!(Win32PdhEngine::new(0, 0).query_to_close(), None);
    assert_eq!(Win32PdhEngine::new(1, 77).query_to_close(), None);
}

#[test]
fn a_query_is_closed_once_at_the_end() {
    let mut engine = Win32PdhEngine::new(0, 77);
    let mut calls = engine.setup();
    for (i, &counter) in COUNTERS.iter().enumerate() {
        engine.counter_added(counter, 100 + i);
    }
    for _ in 0..3 {
        calls.extend(engine.poll());
    }
    assert_eq!(calls.len(), 4 * 6);
    assert_eq!(engine.query_to_close(), Some(77));
}
