use perfmon_dash::formulas::{
    disk_list, disk_metrics, estimate_cpu_temperature, estimate_gpu_temperature,
    estimate_video_memory, resolve_rates, share_percent, smooth, to_gigabytes, DiskSpace, Rates,
};
use perfmon_dash::network::Traffic;
use perfmon_dash::number::Single;
use perfmon_dash::pdh::PdhSample;

const GB: u64 = 1024 * 1024 * 1024;

fn single(x: f32) -> Single {
    Single { bits: x.to_bits() }
}

fn counters(disk: f32, gpu: f32, net: f32) -> PdhSample {
    PdhSample {
        disk_read_kbps: single(disk),
        disk_write_kbps: single(disk),
        gpu_util_pct: single(gpu),
        net_rx_kbps: single(net),
        net_tx_kbps: single(net),
    }
}

fn rates(counters: PdhSample, cpu: f32) -> Rates {
    let gained = Traffic { received: 51_200, transmitted: 10_240 };
    resolve_rates(counters, single(cpu), gained, single(0.5))
}

fn disk(total: u64, available: u64) -> DiskSpace {
    DiskSpace {
        name: "Samsung".to_string(),
        mount_point: "C:\\".to_string(),
        total_bytes: total,
        available_bytes: available,
    }
}

#[test]
fn bytes_are_shown_in_gigabytes() {
    assert_eq!(to_gigabytes(0), single(0.0));
    assert_eq!(to_gigabytes(8 * GB), single(8.0));
    assert_eq!(to_gigabytes(GB / 4), single(0.25));
    for bytes in [1u64, 34_359_738_367, 1_099_511_627_775, u64::MAX] {
        assert_eq!(to_gigabytes(bytes), single(bytes as f32 / (1024.0 * 1024.0 * 1024.0)));
    }
}

#[test]
fn sizes_keep_the_order_of_the_bytes() {
    assert!(to_gigabytes(GB + 1).has_reached(to_gigabytes(GB)));
    assert!(to_gigabytes(2 * GB).is_above(to_gigabytes(GB)));
}

#[test]
fn a_share_of_nothing_is_nothing() {
    assert_eq!(share_percent(single(10.0), single(16.0)), single(62.5));
    assert_eq!(share_percent(single(16.0), single(16.0)), single(100.0));
    assert_eq!(share_percent(single(24.0), single(16.0)), single(150.0));
    assert_eq!(share_percent(single(5.3), single(31.9)), single(5.3f32 / 31.9 * 100.0));
    assert_eq!(share_percent(single(1.0), single(0.0)), single(0.0));
    assert_eq!(share_percent(single(1.0), single(-1.0)), single(0.0));
    assert_eq!(share_percent(single(1.0), single(f32::NAN)), single(0.0));
}

#[test]
fn a_disk_is_in_use_where_it_is_not_available() {
    let state = disk_metrics(&disk(200 * GB, 150 * GB));
    assert_eq!(state.name, "Samsung");
    assert_eq!(state.mount_point, "C:\\");
    assert_eq!(state.total_gb, single(200.0));
    assert_eq!(state.used_gb, single(50.0));
    assert_eq!(state.usage_pct, single(25.0));
}

#[test]
fn the_space_in_use_is_never_negative() {
    let state = disk_metrics(&disk(100 * GB, 150 * GB));
    assert_eq!(state.used_gb, single(0.0));
    assert_eq!(state.usage_pct, single(0.0));
}

#[test]
fn a_disk_without_space_is_not_in_use() {
    let state = disk_metrics(&disk(0, 0));
    assert_eq!(state.total_gb, single(0.0));
    assert_eq!(state.usage_pct, single(0.0));
}

#[test]
fn disks_stay_in_their_order() {
    let mut second = disk(GB, 0);
    second.mount_point = "D:\\".to_string();
    let list = disk_list(&vec![disk(2 * GB, GB), second]);
    assert_eq!(list.len(), 2);
    assert_eq!(list[0].mount_point, "C:\\");
    assert_eq!(list[0].usage_pct, single(50.0));
    assert_eq!(list[1].mount_point, "D:\\");
    assert_eq!(list[1].usage_pct, single(100.0));
}

#[test]
fn counters_go_before_estimates() {
    let expected = Rates {
        disk_read_kbps: single(1.0),
        disk_write_kbps: single(1.0),
        gpu_usage_pct: single(50.0),
        net_rx_kbps: single(2.0),
        net_tx_kbps: single(2.0),
    };
    assert_eq!(rates(counters(1.0, 50.0, 2.0), 20.0), expected);
}

#[test]
fn a_quiet_disk_is_no_reason_for_an_estimate_but_a_quiet_network_is() {
    let r = rates(counters(0.0, 0.0, 0.0), 20.0);
    assert_eq!(r.disk_read_kbps, single(0.0));
    assert_eq!(r.disk_write_kbps, single(0.0));
    assert_eq!(r.net_rx_kbps, single(100.0));
    assert_eq!(r.net_tx_kbps, single(20.0));
    assert_eq!(r.gpu_usage_pct, single(20.0 * 0.35 + 3.0));
}

#[test]
fn unusable_counters_are_estimated() {
    for bad in [-1.0, f32::NAN, f32::NEG_INFINITY] {
        let r = rates(counters(bad, bad, bad), 20.0);
        assert_eq!(r.disk_read_kbps, single(912.0));
        assert_eq!(r.disk_write_kbps, single(608.0));
        assert_eq!(r.gpu_usage_pct, single(10.0));
        assert_eq!(r.net_rx_kbps, single(100.0));
        assert_eq!(r.net_tx_kbps, single(20.0));
    }
}

#[test]
fn the_load_of_the_graphics_card_is_a_percentage() {
    assert_eq!(rates(counters(0.0, 250.0, 0.0), 20.0).gpu_usage_pct, single(100.0));
    assert_eq!(rates(counters(0.0, 0.25, 0.0), 20.0).gpu_usage_pct, single(0.25));
    assert_eq!(rates(counters(0.0, 0.0, 0.0), -50.0).gpu_usage_pct, single(1.0));
    assert_eq!(rates(counters(0.0, 0.0, 0.0), 1000.0).gpu_usage_pct, single(100.0));
}

#[test]
fn video_memory_is_estimated_between_1_and_16_gigabytes() {
    assert_eq!(estimate_video_memory(single(8.0)), single(1.8 + (8.0 * 0.15)));
    assert_eq!(estimate_video_memory(single(0.0)), single(1.8));
    assert_eq!(estimate_video_memory(single(500.0)), single(16.0));
    assert_eq!(estimate_video_memory(single(-100.0)), single(1.0));
}

#[test]
fn temperatures_are_estimated_from_the_load() {
    for load in [0.0f32, 12.3, 50.0, 100.0] {
        assert_eq!(estimate_cpu_temperature(single(load)), single(38.0 + (load * 0.44)));
        assert_eq!(estimate_gpu_temperature(single(load)), single(42.0 + (load * 0.36)));
    }
    assert_eq!(estimate_cpu_temperature(single(50.0)), single(60.0));
    assert_eq!(estimate_gpu_temperature(single(50.0)), single(60.0));
}

#[test]
fn temperatures_move_slowly() {
    let mut native = 40.0f32;
    let mut ours = single(40.0);
    for target in [80.0f32, 81.5, 20.0, 0.5, 99.9] {
        native = native * 0.88 + target * 0.12;
        ours = smooth(ours, single(target));
        assert_eq!(ours, single(native));
    }
    assert_eq!(smooth(single(40.0), single(80.0)), single(44.8));
}

#[test]
fn the_ends_of_the_bands_are_settled() {
    for degrees in [38.0, 42.0, 78.0, 82.0] {
        assert_eq!(smooth(single(degrees), single(degrees)), single(degrees));
    }
}

#[test]
fn a_smoothed_temperature_lies_between_its_old_value_and_its_target() {
    for (before, target) in [(40.0f32, 80.0f32), (80.0, 40.0), (0.1, 1.0e30), (55.5, 55.5)] {
        let s = f32::from_bits(smooth(single(before), single(target)).bits);
        assert!(s >= before.min(target) * (1.0 - 4.0 / 8_388_608.0));
        assert!(s <= before.max(target) * (1.0 + 4.0 / 8_388_608.0));
    }
}
