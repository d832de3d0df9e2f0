use perfmon_dash::number::{Double, Single};
use perfmon_dash::sample::{DiskMetrics, MetricSample};

fn single(x: f32) -> Single {
    Single { bits: x.to_bits() }
}

#[test]
fn a_clone_says_the_same() {
    let sample = MetricSample {
        timestamp_sec: Double { bits: 1.5f64.to_bits() },
        cpu_usage_pct: single(1.0),
        cpu_cores_pct: vec![single(2.0), single(3.0)],
        ram_used_gb: single(4.0),
        ram_total_gb: single(5.0),
        ram_pct: single(6.0),
        swap_used_gb: single(7.0),
        swap_total_gb: single(8.0),
        disk_read_kbps: single(9.0),
        disk_write_kbps: single(10.0),
        disks: vec![DiskMetrics {
            name: "n".to_string(),
            mount_point: "m".to_string(),
            total_gb: single(11.0),
            used_gb: single(12.0),
            usage_pct: single(13.0),
        }],
        net_rx_kbps: single(14.0),
        net_tx_kbps: single(15.0),
        gpu_usage_pct: single(16.0),
        gpu_vram_used_gb: single(17.0),
        gpu_vram_total_gb: single(18.0),
        cpu_temp_c: single(19.0),
        gpu_temp_c: single(20.0),
    };
    assert_eq!(format!("{:?}", sample.clone()), format!("{:?}", sample));
}
