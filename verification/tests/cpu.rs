use perfmon_dash::cpu::{
    core_deltas, core_load, core_loads, fetch_win32_processor_times, logical_core_count,
    overall_load, processor_buffer_bytes, CoreDelta, SystemProcessorPerformanceInformation,
    PROCESSOR_RECORD_BYTES, PROCESSOR_SLOTS, PROCESSOR_TIMES_CLASS,
};
use perfmon_dash::number::Single;

fn single(x: f32) -> Single {
    Single { bits: x.to_bits() }
}

fn record(idle: i64, kernel: i64, user: i64) -> SystemProcessorPerformanceInformation {
    SystemProcessorPerformanceInformation {
        idle_time: idle,
        kernel_time: kernel,
        user_time: user,
        dpc_time: 7,
        interrupt_time: 8,
        interrupt_count: 9,
    }
}

fn buffer() -> Vec<SystemProcessorPerformanceInformation> {
    (0..PROCESSOR_SLOTS as i64).map(|i| record(i, 10 * i, 100 * i)).collect()
}

#[test]
fn the_query_asks_for_64_records_of_48_bytes() {
    assert_eq!(PROCESSOR_TIMES_CLASS, 8);
    assert_eq!(PROCESSOR_RECORD_BYTES, 48);
    assert_eq!(processor_buffer_bytes(), 3072);
}

#[test]
fn the_default_record_is_all_zeros() {
    let r = SystemProcessorPerformanceInformation::default();
    assert_eq!((r.idle_time, r.kernel_time, r.user_time), (0, 0, 0));
    assert_eq!((r.dpc_time, r.interrupt_time, r.interrupt_count), (0, 0, 0));
}

#[test]
fn a_failed_query_gives_no_records() {
    assert!(fetch_win32_processor_times(-1, 480, buffer()).is_empty());
    assert!(fetch_win32_processor_times(1, 480, buffer()).is_empty());
    assert!(fetch_win32_processor_times(0, 0, buffer()).is_empty());
}

#[test]
fn a_query_gives_the_records_that_were_written() {
    assert_eq!(fetch_win32_processor_times(0, 8 * 48, buffer()), buffer()[..8].to_vec());
    assert_eq!(fetch_win32_processor_times(0, 8 * 48 + 47, buffer()), buffer()[..8].to_vec());
    assert!(fetch_win32_processor_times(0, 47, buffer()).is_empty());
}

#[test]
fn a_full_buffer_is_read_whole() {
    assert_eq!(fetch_win32_processor_times(0, processor_buffer_bytes(), buffer()), buffer());
    assert_eq!(fetch_win32_processor_times(0, u32::MAX, buffer()), buffer());
}

#[test]
fn processors_are_counted_by_the_kernel_first() {
    assert_eq!(logical_core_count(&buffer(), 4), 64);
    assert_eq!(logical_core_count(&Vec::new(), 4), 4);
    assert_eq!(logical_core_count(&Vec::new(), 0), 0);
}

#[test]
fn deltas_are_taken_processor_by_processor() {
    let prev = vec![record(100, 200, 50), record(10, 20, 5)];
    let curr = vec![record(150, 280, 70), record(10, 21, 5)];
    assert_eq!(
        core_deltas(&prev, &curr),
        Some(vec![
            CoreDelta { idle: 50, kernel: 80, user: 20 },
            CoreDelta { idle: 0, kernel: 1, user: 0 },
        ])
    );
}

#[test]
fn deltas_add_up_over_two_periods() {
    let first = vec![record(1, 2, 3)];
    let second = vec![record(11, 32, 53)];
    let third = vec![record(12, 40, 60)];
    let a = core_deltas(&first, &second).unwrap()[0];
    let b = core_deltas(&second, &third).unwrap()[0];
    let c = core_deltas(&first, &third).unwrap()[0];
    assert_eq!((a.idle + b.idle, a.kernel + b.kernel, a.user + b.user), (c.idle, c.kernel, c.user));
    assert_eq!(c, CoreDelta { idle: 11, kernel: 38, user: 57 });
}

#[test]
fn other_processors_are_not_compared() {
    let one = vec![record(1, 2, 3)];
    let two = vec![record(1, 2, 3), record(4, 5, 6)];
    assert_eq!(core_deltas(&one, &two), Some(Vec::new()));
    assert_eq!(core_deltas(&two, &one), Some(Vec::new()));
    assert_eq!(core_deltas(&Vec::new(), &Vec::new()), Some(Vec::new()));
    assert_eq!(core_deltas(&Vec::new(), &one), Some(Vec::new()));
}

#[test]
fn an_overflowing_difference_is_reported() {
    let low = vec![record(0, 0, 0), record(i64::MIN, 0, 0)];
    let high = vec![record(0, 0, 0), record(i64::MAX, 0, 0)];
    assert_eq!(core_deltas(&low, &high), None);
    assert_eq!(
        core_deltas(&vec![record(0, i64::MIN, 0)], &vec![record(0, 1, 0)]),
        None
    );
    assert_eq!(
        core_deltas(&vec![record(0, 0, 1)], &vec![record(0, 0, i64::MIN)]),
        None
    );
    assert_eq!(core_deltas(&vec![record(0, 0, i64::MIN)], &low), Some(Vec::new()));
}

fn delta(idle: i64, kernel: i64, user: i64) -> CoreDelta {
    CoreDelta { idle, kernel, user }
}

/// The load of a processor, computed with native numbers.
fn native_load(d: CoreDelta) -> f32 {
    let total = d.kernel as f32 + d.user as f32;
    let busy = (total - d.idle as f32).max(0.0);
    if total > 0.0 {
        ((busy / total) * 100.0).clamp(0.0, 100.0)
    } else {
        0.0
    }
}

#[test]
fn a_load_is_the_share_of_busy_time() {
    assert_eq!(core_load(delta(50, 80, 20)), single(50.0));
    assert_eq!(core_load(delta(0, 80, 20)), single(100.0));
    assert_eq!(core_load(delta(100, 80, 20)), single(0.0));
    assert_eq!(core_load(delta(5, 8, 1)), single(44.444447));
}

#[test]
fn a_load_lies_between_0_and_100() {
    assert_eq!(core_load(delta(-30, 80, 20)), single(100.0));
    assert_eq!(core_load(delta(500, 80, 20)), single(0.0));
}

#[test]
fn no_time_is_no_load() {
    assert_eq!(core_load(delta(0, 0, 0)), single(0.0));
    assert_eq!(core_load(delta(10, -5, 0)), single(0.0));
    assert_eq!(core_load(delta(-10, -5, 5)), single(0.0));
}

#[test]
fn loads_are_those_of_native_numbers() {
    let mut state = 3u64;
    let mut next = || {
        state = state.wrapping_mul(6364136223846793005).wrapping_add(1442695040888963407);
        (state >> 33) as i64 - 400_000_000
    };
    for _ in 0..2000 {
        let d = delta(next(), next(), next());
        assert_eq!(core_load(d), single(native_load(d)), "{:?}", d);
    }
    let wide = delta(i64::MAX, i64::MAX, i64::MAX);
    assert_eq!(core_load(wide), single(native_load(wide)));
}

#[test]
fn each_processor_has_its_load() {
    let deltas = vec![delta(50, 80, 20), delta(0, 1, 0), delta(0, 0, 0)];
    assert_eq!(core_loads(&deltas), vec![single(50.0), single(100.0), single(0.0)]);
    assert!(core_loads(&Vec::new()).is_empty());
}

#[test]
fn the_overall_load_is_the_mean() {
    assert_eq!(overall_load(&vec![single(50.0), single(100.0), single(0.0)]), single(50.0));
    let loads = [12.5f32, 33.3, 99.9];
    let sum = 0.0 + loads[0] + loads[1] + loads[2];
    let shown: Vec<Single> = loads.iter().map(|&x| single(x)).collect();
    assert_eq!(overall_load(&shown), single((sum / 3.0).clamp(0.0, 100.0)));
    assert_eq!(overall_load(&Vec::new()), single(0.0));
}

#[test]
fn the_overall_load_lies_between_those_of_the_processors() {
    let mut state = 11u64;
    for count in [1usize, 2, 7, 64, 1000] {
        let loads: Vec<f32> = (0..count)
            .map(|_| {
                state = state.wrapping_mul(6364136223846793005).wrapping_add(1442695040888963407);
                (state >> 40) as f32 / 16_777_216.0 * 100.0
            })
            .collect();
        let shown: Vec<Single> = loads.iter().map(|&x| single(x)).collect();
        let mean = f64::from(f32::from_bits(overall_load(&shown).bits));
        let least = loads.iter().fold(f32::MAX, |a, &b| a.min(b));
        let most = loads.iter().fold(0.0f32, |a, &b| a.max(b));
        let slack = (4 * count + 8) as f64 / 8_388_608.0;
        assert!(mean <= f64::from(most) * (1.0 + slack));
        assert!(mean >= f64::from(least) * (1.0 - slack));
    }
}
