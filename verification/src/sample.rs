//! Telemetry samples.
use crate::number::{Double, Single};
use vstd::prelude::*;

verus! {

/// The state of one disk.
#[derive(Debug)]
pub struct DiskMetrics {
    pub name: String,
    pub mount_point: String,
    pub total_gb: Single,
    pub used_gb: Single,
    pub usage_pct: Single,
}

impl Clone for DiskMetrics {
    fn clone(&self) -> (r: Self)
        ensures
            r == *self,
    {
        DiskMetrics {
            name: self.name.clone(),
            mount_point: self.mount_point.clone(),
            total_gb: self.total_gb,
            used_gb: self.used_gb,
            usage_pct: self.usage_pct,
        }
    }
}

/// One sample of everything that the dashboard shows.
#[derive(Debug)]
pub struct MetricSample {
    pub timestamp_sec: Double,
    pub cpu_usage_pct: Single,
    pub cpu_cores_pct: Vec<Single>,
    pub ram_used_gb: Single,
    pub ram_total_gb: Single,
    pub ram_pct: Single,
    pub swap_used_gb: Single,
    pub swap_total_gb: Single,
    pub disk_read_kbps: Single,
    pub disk_write_kbps: Single,
    pub disks: Vec<DiskMetrics>,
    pub net_rx_kbps: Single,
    pub net_tx_kbps: Single,
    pub gpu_usage_pct: Single,
    pub gpu_vram_used_gb: Single,
    pub gpu_vram_total_gb: Single,
    pub cpu_temp_c: Single,
    pub gpu_temp_c: Single,
}

/// What a sample says.
pub struct SampleModel {
    pub timestamp_sec: Double,
    pub cpu_usage_pct: Single,
    pub cpu_cores_pct: Seq<Single>,
    pub ram_used_gb: Single,
    pub ram_total_gb: Single,
    pub ram_pct: Single,
    pub swap_used_gb: Single,
    pub swap_total_gb: Single,
    pub disk_read_kbps: Single,
    pub disk_write_kbps: Single,
    pub disks: Seq<DiskMetrics>,
    pub net_rx_kbps: Single,
    pub net_tx_kbps: Single,
    pub gpu_usage_pct: Single,
    pub gpu_vram_used_gb: Single,
    pub gpu_vram_total_gb: Single,
    pub cpu_temp_c: Single,
    pub gpu_temp_c: Single,
}

impl View for MetricSample {
    type V = SampleModel;

    open spec fn view(&self) -> SampleModel {
        SampleModel {
            timestamp_sec: self.timestamp_sec,
            cpu_usage_pct: self.cpu_usage_pct,
            cpu_cores_pct: self.cpu_cores_pct@,
            ram_used_gb: self.ram_used_gb,
            ram_total_gb: self.ram_total_gb,
            ram_pct: self.ram_pct,
            swap_used_gb: self.swap_used_gb,
            swap_total_gb: self.swap_total_gb,
            disk_read_kbps: self.disk_read_kbps,
            disk_write_kbps: self.disk_write_kbps,
            disks: self.disks@,
            net_rx_kbps: self.net_rx_kbps,
            net_tx_kbps: self.net_tx_kbps,
            gpu_usage_pct: self.gpu_usage_pct,
            gpu_vram_used_gb: self.gpu_vram_used_gb,
            gpu_vram_total_gb: self.gpu_vram_total_gb,
            cpu_temp_c: self.cpu_temp_c,
            gpu_temp_c: self.gpu_temp_c,
        }
    }
}

impl Clone for MetricSample {
    fn clone(&self) -> (r: Self)
        ensures
            r@ == self@,
    {
        let r = MetricSample {
            timestamp_sec: self.timestamp_sec,
            cpu_usage_pct: self.cpu_usage_pct,
            cpu_cores_pct: self.cpu_cores_pct.clone(),
            ram_used_gb: self.ram_used_gb,
            ram_total_gb: self.ram_total_gb,
            ram_pct: self.ram_pct,
            swap_used_gb: self.swap_used_gb,
            swap_total_gb: self.swap_total_gb,
            disk_read_kbps: self.disk_read_kbps,
            disk_write_kbps: self.disk_write_kbps,
            disks: self.disks.clone(),
            net_rx_kbps: self.net_rx_kbps,
            net_tx_kbps: self.net_tx_kbps,
            gpu_usage_pct: self.gpu_usage_pct,
            gpu_vram_used_gb: self.gpu_vram_used_gb,
            gpu_vram_total_gb: self.gpu_vram_total_gb,
            cpu_temp_c: self.cpu_temp_c,
            gpu_temp_c: self.gpu_temp_c,
        };
        assert(r.cpu_cores_pct@ == self.cpu_cores_pct@);
        assert(r.disks@ == self.disks@);
        r
    }
}

} // verus!
