//! The grid: one row for each component of the machine.
use crate::caption::{caption, Caption, Piece, PieceModel};
use crate::formulas::{share, share_percent};
use crate::number::{single_one, Double, Single};
use crate::perfmon::{PerfmonApp, SystemStaticInfo};
use crate::sample::{DiskMetrics, MetricSample, SampleModel};
use crate::theme::{Ink, Role, ThemeMode};
use crate::tiles::{Badge, CpuCard};
use vstd::prelude::*;

verus! {

/// A row of the grid.
#[derive(Debug)]
pub struct GridRow<'a> {
    pub component: Caption<'a>,
    pub device: Caption<'a>,
    pub load: Caption<'a>,
    pub capacity: Caption<'a>,
    pub temperature: Caption<'a>,
    pub status: Badge,
}

/// How a row reads.
pub struct RowModel {
    pub component: Seq<PieceModel>,
    pub device: Seq<PieceModel>,
    pub load: Seq<PieceModel>,
    pub capacity: Seq<PieceModel>,
    pub temperature: Seq<PieceModel>,
    pub status: Seq<char>,
    pub status_ink: Ink,
}

impl<'a> View for GridRow<'a> {
    type V = RowModel;

    open spec fn view(&self) -> RowModel {
        RowModel {
            component: self.component@,
            device: self.device@,
            load: self.load@,
            capacity: self.capacity@,
            temperature: self.temperature@,
            status: self.status.text@,
            status_ink: self.status.ink,
        }
    }
}

/// The titles of the columns, from left to right.
pub fn column_titles() -> (r: Vec<&'static str>)
    ensures
        r@.len() == 6,
        r@[0]@ == "Component"@,
        r@[1]@ == "Device Specification"@,
        r@[2]@ == "Load / Usage %"@,
        r@[3]@ == "Active Bandwidth / Capacity"@,
        r@[4]@ == "Temperature"@,
        r@[5]@ == "Status"@,
{
    vec![
        "Component",
        "Device Specification",
        "Load / Usage %",
        "Active Bandwidth / Capacity",
        "Temperature",
        "Status",
    ]
}

/// A line of plain text.
pub open spec fn plain(text: Seq<char>) -> Seq<PieceModel> {
    seq![PieceModel::Text(text)]
}

/// A number between two texts.
pub open spec fn framed(before: Seq<char>, n: Single, places: nat, after: Seq<char>) -> Seq<
    PieceModel,
> {
    seq![PieceModel::Text(before), PieceModel::Fixed(n, places), PieceModel::Text(after)]
}

/// Two numbers with texts around them.
pub open spec fn paired(
    before: Seq<char>,
    first: Single,
    between: Seq<char>,
    second: Single,
    after: Seq<char>,
    places: nat,
) -> Seq<PieceModel> {
    seq![
        PieceModel::Text(before),
        PieceModel::Fixed(first, places),
        PieceModel::Text(between),
        PieceModel::Fixed(second, places),
        PieceModel::Text(after),
    ]
}

fn plain_caption<'a>(text: &'a str) -> (r: Caption<'a>)
    ensures
        r@ == plain(text@),
{
    caption(vec![Piece::Text(text)])
}

fn framed_caption<'a>(before: &'a str, n: Single, places: usize, after: &'a str) -> (r: Caption<
    'a,
>)
    ensures
        r@ == framed(before@, n, places as nat, after@),
{
    caption(vec![Piece::Text(before), Piece::Fixed(n, places), Piece::Text(after)])
}

fn paired_caption<'a>(
    before: &'a str,
    first: Single,
    between: &'a str,
    second: Single,
    after: &'a str,
    places: usize,
) -> (r: Caption<'a>)
    ensures
        r@ == paired(before@, first, between@, second, after@, places as nat),
{
    caption(
        vec![
            Piece::Text(before),
            Piece::Fixed(first, places),
            Piece::Text(between),
            Piece::Fixed(second, places),
            Piece::Text(after),
        ],
    )
}

/// The row of the processor: a load above 85 percent is high.
pub open spec fn cpu_row(s: SampleModel, info: SystemStaticInfo, theme: ThemeMode) -> RowModel {
    let high = s.cpu_usage_pct.above_whole(85);
    RowModel {
        component: plain("🔲 CPU (Overall)"@),
        device: plain(info.cpu_brand@),
        load: framed(""@, s.cpu_usage_pct, 1, "%"@),
        capacity: seq![
            PieceModel::Count(info.cpu_logical_cores as nat, 0),
            PieceModel::Text(" threads"@),
        ],
        temperature: framed(""@, s.cpu_temp_c, 1, "°C"@),
        status: if high {
            "⚠️ HIGH LOAD"@
        } else {
            "🟢 OK"@
        },
        status_ink: if high {
            Ink::Red
        } else {
            theme.shade(Role::GridOk)
        },
    }
}

/// The row of the memory: a use above 90 percent is critical.
pub open spec fn memory_row(s: SampleModel, theme: ThemeMode) -> RowModel {
    let critical = s.ram_pct.above_whole(90);
    RowModel {
        component: plain("🧠 System Memory"@),
        device: framed(""@, s.ram_total_gb, 1, " GB Physical RAM"@),
        load: framed(""@, s.ram_pct, 1, "%"@),
        capacity: paired(""@, s.ram_used_gb, " GB / "@, s.ram_total_gb, " GB Used"@, 2),
        temperature: plain("-"@),
        status: if critical {
            "⚠️ RAM CRITICAL"@
        } else {
            "🟢 OK"@
        },
        status_ink: if critical {
            Ink::Red
        } else {
            theme.shade(Role::GridOk)
        },
    }
}

/// The row of the page file.
pub open spec fn swap_row(s: SampleModel, theme: ThemeMode) -> RowModel {
    RowModel {
        component: plain("💾 Virtual Memory"@),
        device: plain("Windows Pagefile / Swap"@),
        load: framed(""@, share(s.swap_used_gb, s.swap_total_gb), 1, "%"@),
        capacity: paired(""@, s.swap_used_gb, " GB / "@, s.swap_total_gb, " GB Used"@, 2),
        temperature: plain("-"@),
        status: "🟢 OK"@,
        status_ink: theme.shade(Role::GridOk),
    }
}

/// The row of a disk. The transfer rates are those of all disks together.
pub open spec fn disk_row(disk: DiskMetrics, s: SampleModel, theme: ThemeMode) -> RowModel {
    RowModel {
        component: seq![
            PieceModel::Text("💾 Storage ("@),
            PieceModel::Text(disk.mount_point@),
            PieceModel::Text(")"@),
        ],
        device: plain(disk.name@),
        load: framed(""@, disk.usage_pct, 1, "%"@),
        capacity: paired(
            "Read: "@,
            s.disk_read_kbps,
            " KB/s | Write: "@,
            s.disk_write_kbps,
            " KB/s"@,
            1,
        ),
        temperature: plain("-"@),
        status: "🟢 HEALTHY"@,
        status_ink: theme.shade(Role::GridOk),
    }
}

/// The row of the network.
pub open spec fn network_row(s: SampleModel, theme: ThemeMode) -> RowModel {
    RowModel {
        component: plain("🌐 Network Bandwidth"@),
        device: plain("Active Network Adapter"@),
        load: plain("-"@),
        capacity: paired("⬇ "@, s.net_rx_kbps, " KB/s | ⬆ "@, s.net_tx_kbps, " KB/s"@, 1),
        temperature: plain("-"@),
        status: "🟢 ONLINE"@,
        status_ink: theme.shade(Role::GridOk),
    }
}

/// The row of the graphics card.
pub open spec fn gpu_row(s: SampleModel, theme: ThemeMode) -> RowModel {
    RowModel {
        component: plain("🎮 GPU Telemetry"@),
        device: plain("Direct3D Hardware Accelerator"@),
        load: framed(""@, s.gpu_usage_pct, 1, "%"@),
        capacity: paired("VRAM: "@, s.gpu_vram_used_gb, " / "@, s.gpu_vram_total_gb, " GB"@, 1),
        temperature: framed(""@, s.gpu_temp_c, 1, "°C"@),
        status: "🟢 ACTIVE"@,
        status_ink: theme.shade(Role::GridOk),
    }
}

/// The rows of the grid, from top to bottom.
pub open spec fn grid_rows(s: SampleModel, info: SystemStaticInfo, theme: ThemeMode) -> Seq<
    RowModel,
> {
    seq![cpu_row(s, info, theme), memory_row(s, theme), swap_row(s, theme)] + s.disks.map_values(
        |disk: DiskMetrics| disk_row(disk, s, theme),
    ) + seq![network_row(s, theme), gpu_row(s, theme)]
}

impl PerfmonApp {
    fn cpu_grid_row<'a>(&'a self, s: &MetricSample) -> (r: GridRow<'a>)
        ensures
            r@ == cpu_row(s@, self.static_info, self.theme),
    {
        let status = if s.cpu_usage_pct.is_above_whole(85) {
            Badge { text: "⚠️ HIGH LOAD", ink: Ink::Red }
        } else {
            Badge { text: "🟢 OK", ink: self.theme.ink(Role::GridOk) }
        };
        let threads = vec![
            Piece::Count(self.static_info.cpu_logical_cores as u64, 0),
            Piece::Text(" threads"),
        ];
        let r = GridRow {
            component: plain_caption("🔲 CPU (Overall)"),
            device: plain_caption(self.static_info.cpu_brand.as_str()),
            load: framed_caption("", s.cpu_usage_pct, 1, "%"),
            capacity: caption(threads),
            temperature: framed_caption("", s.cpu_temp_c, 1, "°C"),
            status,
        };
        assert(r@.capacity =~= cpu_row(s@, self.static_info, self.theme).capacity);
        r
    }

    fn memory_grid_row(&self, s: &MetricSample) -> (r: GridRow<'static>)
        ensures
            r@ == memory_row(s@, self.theme),
    {
        let status = if s.ram_pct.is_above_whole(90) {
            Badge { text: "⚠️ RAM CRITICAL", ink: Ink::Red }
        } else {
            Badge { text: "🟢 OK", ink: self.theme.ink(Role::GridOk) }
        };
        GridRow {
            component: plain_caption("🧠 System Memory"),
            device: framed_caption("", s.ram_total_gb, 1, " GB Physical RAM"),
            load: framed_caption("", s.ram_pct, 1, "%"),
            capacity: paired_caption("", s.ram_used_gb, " GB / ", s.ram_total_gb, " GB Used", 2),
            temperature: plain_caption("-"),
            status,
        }
    }

    fn swap_grid_row(&self, s: &MetricSample) -> (r: GridRow<'static>)
        ensures
            r@ == swap_row(s@, self.theme),
    {
        let usage = share_percent(s.swap_used_gb, s.swap_total_gb);
        GridRow {
            component: plain_caption("💾 Virtual Memory"),
            device: plain_caption("Windows Pagefile / Swap"),
            load: framed_caption("", usage, 1, "%"),
            capacity: paired_caption("", s.swap_used_gb, " GB / ", s.swap_total_gb, " GB Used", 2),
            temperature: plain_caption("-"),
            status: Badge { text: "🟢 OK", ink: self.theme.ink(Role::GridOk) },
        }
    }

    fn disk_grid_row<'a>(&self, disk: &'a DiskMetrics, s: &MetricSample) -> (r: GridRow<'a>)
        ensures
            r@ == disk_row(*disk, s@, self.theme),
    {
        let component = vec![
            Piece::Text("💾 Storage ("),
            Piece::Text(disk.mount_point.as_str()),
            Piece::Text(")"),
        ];
        let r = GridRow {
            component: caption(component),
            device: plain_caption(disk.name.as_str()),
            load: framed_caption("", disk.usage_pct, 1, "%"),
            capacity: paired_caption(
                "Read: ",
                s.disk_read_kbps,
                " KB/s | Write: ",
                s.disk_write_kbps,
                " KB/s",
                1,
            ),
            temperature: plain_caption("-"),
            status: Badge { text: "🟢 HEALTHY", ink: self.theme.ink(Role::GridOk) },
        };
        assert(r@.component =~= disk_row(*disk, s@, self.theme).component);
        r
    }

    fn network_grid_row(&self, s: &MetricSample) -> (r: GridRow<'static>)
        ensures
            r@ == network_row(s@, self.theme),
    {
        GridRow {
            component: plain_caption("🌐 Network Bandwidth"),
            device: plain_caption("Active Network Adapter"),
            load: plain_caption("-"),
            capacity: paired_caption("⬇ ", s.net_rx_kbps, " KB/s | ⬆ ", s.net_tx_kbps, " KB/s", 1),
            temperature: plain_caption("-"),
            status: Badge { text: "🟢 ONLINE", ink: self.theme.ink(Role::GridOk) },
        }
    }

    fn gpu_grid_row(&self, s: &MetricSample) -> (r: GridRow<'static>)
        ensures
            r@ == gpu_row(s@, self.theme),
    {
        GridRow {
            component: plain_caption("🎮 GPU Telemetry"),
            device: plain_caption("Direct3D Hardware Accelerator"),
            load: framed_caption("", s.gpu_usage_pct, 1, "%"),
            capacity: paired_caption(
                "VRAM: ",
                s.gpu_vram_used_gb,
                " / ",
                s.gpu_vram_total_gb,
                " GB",
                1,
            ),
            temperature: framed_caption("", s.gpu_temp_c, 1, "°C"),
            status: Badge { text: "🟢 ACTIVE", ink: self.theme.ink(Role::GridOk) },
        }
    }

    /// The rows of the grid, from top to bottom; nothing before the first sample.
    #[verifier::spinoff_prover]
    #[verifier::rlimit(60)]
    pub fn grid<'a>(&'a self) -> (r: Option<Vec<GridRow<'a>>>)
        ensures
            r is Some <==> self.latest_sample is Some,
            r matches Some(rows) ==> rows@.map_values(|row: GridRow| row@) == grid_rows(
                self.latest_sample->0@,
                self.static_info,
                self.theme,
            ),
            r matches Some(rows) ==> self.latest_sample matches Some(s) && {
                let n = s.disks@.len() as int;
                let ok = self.theme.shade(Role::GridOk);
                let high = !s.cpu_usage_pct.nan() && s.cpu_usage_pct.value() > 85 * single_one();
                let critical = !s.ram_pct.nan() && s.ram_pct.value() > 90 * single_one();
                &&& rows@.len() == n + 5
                &&& rows@[0].component@ == seq![PieceModel::Text("🔲 CPU (Overall)"@)]
                &&& rows@[0].device@ == seq![PieceModel::Text(self.static_info.cpu_brand@)]
                &&& rows@[0].load@ == seq![
                    PieceModel::Text(""@),
                    PieceModel::Fixed(s.cpu_usage_pct, 1),
                    PieceModel::Text("%"@),
                ]
                &&& rows@[0].capacity@ == seq![
                    PieceModel::Count(self.static_info.cpu_logical_cores as nat, 0),
                    PieceModel::Text(" threads"@),
                ]
                &&& rows@[0].temperature@ == seq![
                    PieceModel::Text(""@),
                    PieceModel::Fixed(s.cpu_temp_c, 1),
                    PieceModel::Text("°C"@),
                ]
                &&& high ==> rows@[0].status.text@ == "⚠️ HIGH LOAD"@ && rows@[0].status.ink
                    == Ink::Red
                &&& !high ==> rows@[0].status.text@ == "🟢 OK"@ && rows@[0].status.ink == ok
                &&& rows@[1].component@ == seq![PieceModel::Text("🧠 System Memory"@)]
                &&& rows@[1].device@ == seq![
                    PieceModel::Text(""@),
                    PieceModel::Fixed(s.ram_total_gb, 1),
                    PieceModel::Text(" GB Physical RAM"@),
                ]
                &&& rows@[1].load@ == seq![
                    PieceModel::Text(""@),
                    PieceModel::Fixed(s.ram_pct, 1),
                    PieceModel::Text("%"@),
                ]
                &&& rows@[1].capacity@ == seq![
                    PieceModel::Text(""@),
                    PieceModel::Fixed(s.ram_used_gb, 2),
                    PieceModel::Text(" GB / "@),
                    PieceModel::Fixed(s.ram_total_gb, 2),
                    PieceModel::Text(" GB Used"@),
                ]
                &&& rows@[1].temperature@ == seq![PieceModel::Text("-"@)]
                &&& critical ==> rows@[1].status.text@ == "⚠️ RAM CRITICAL"@ && rows@[1].status.ink
                    == Ink::Red
                &&& !critical ==> rows@[1].status.text@ == "🟢 OK"@ && rows@[1].status.ink == ok
            },
            r matches Some(rows) ==> self.latest_sample matches Some(s) && {
                let ok = self.theme.shade(Role::GridOk);
                &&& rows@[2].component@ == seq![PieceModel::Text("💾 Virtual Memory"@)]
                &&& rows@[2].device@ == seq![PieceModel::Text("Windows Pagefile / Swap"@)]
                &&& rows@[2].load@ == seq![
                    PieceModel::Text(""@),
                    PieceModel::Fixed(share(s.swap_used_gb, s.swap_total_gb), 1),
                    PieceModel::Text("%"@),
                ]
                &&& rows@[2].capacity@ == seq![
                    PieceModel::Text(""@),
                    PieceModel::Fixed(s.swap_used_gb, 2),
                    PieceModel::Text(" GB / "@),
                    PieceModel::Fixed(s.swap_total_gb, 2),
                    PieceModel::Text(" GB Used"@),
                ]
                &&& rows@[2].temperature@ == seq![PieceModel::Text("-"@)]
                &&& rows@[2].status.text@ == "🟢 OK"@
                &&& rows@[2].status.ink == ok
                &&& forall|i: int|
                    0 <= i < s.disks@.len() ==> {
                        let row = #[trigger] rows@[3 + i];
                        let disk = s.disks@[i];
                        &&& row.component@ == seq![
                            PieceModel::Text("💾 Storage ("@),
                            PieceModel::Text(disk.mount_point@),
                            PieceModel::Text(")"@),
                        ]
                        &&& row.device@ == seq![PieceModel::Text(disk.name@)]
                        &&& row.load@ == seq![
                            PieceModel::Text(""@),
                            PieceModel::Fixed(disk.usage_pct, 1),
                            PieceModel::Text("%"@),
                        ]
                        &&& row.capacity@ == seq![
                            PieceModel::Text("Read: "@),
                            PieceModel::Fixed(s.disk_read_kbps, 1),
                            PieceModel::Text(" KB/s | Write: "@),
                            PieceModel::Fixed(s.disk_write_kbps, 1),
                            PieceModel::Text(" KB/s"@),
                        ]
                        &&& row.temperature@ == seq![PieceModel::Text("-"@)]
                        &&& row.status.text@ == "🟢 HEALTHY"@
                        &&& row.status.ink == ok
                    }
            },
            r matches Some(rows) ==> self.latest_sample matches Some(s) && {
                let n = s.disks@.len() as int;
                let ok = self.theme.shade(Role::GridOk);
                &&& rows@[n + 3].component@ == seq![PieceModel::Text("🌐 Network Bandwidth"@)]
                &&& rows@[n + 3].device@ == seq![PieceModel::Text("Active Network Adapter"@)]
                &&& rows@[n + 3].load@ == seq![PieceModel::Text("-"@)]
                &&& rows@[n + 3].capacity@ == seq![
                    PieceModel::Text("⬇ "@),
                    PieceModel::Fixed(s.net_rx_kbps, 1),
                    PieceModel::Text(" KB/s | ⬆ "@),
                    PieceModel::Fixed(s.net_tx_kbps, 1),
                    PieceModel::Text(" KB/s"@),
                ]
                &&& rows@[n + 3].temperature@ == seq![PieceModel::Text("-"@)]
                &&& rows@[n + 3].status.text@ == "🟢 ONLINE"@
                &&& rows@[n + 3].status.ink == ok
                &&& rows@[n + 4].component@ == seq![PieceModel::Text("🎮 GPU Telemetry"@)]
                &&& rows@[n + 4].device@ == seq![
                    PieceModel::Text("Direct3D Hardware Accelerator"@),
                ]
                &&& rows@[n + 4].load@ == seq![
                    PieceModel::Text(""@),
                    PieceModel::Fixed(s.gpu_usage_pct, 1),
                    PieceModel::Text("%"@),
                ]
                &&& rows@[n + 4].capacity@ == seq![
                    PieceModel::Text("VRAM: "@),
                    PieceModel::Fixed(s.gpu_vram_used_gb, 1),
                    PieceModel::Text(" / "@),
                    PieceModel::Fixed(s.gpu_vram_total_gb, 1),
                    PieceModel::Text(" GB"@),
                ]
                &&& rows@[n + 4].temperature@ == seq![
                    PieceModel::Text(""@),
                    PieceModel::Fixed(s.gpu_temp_c, 1),
                    PieceModel::Text("°C"@),
                ]
                &&& rows@[n + 4].status.text@ == "🟢 ACTIVE"@
                &&& rows@[n + 4].status.ink == ok
            },
    {
        let sample = match &self.latest_sample {
            Some(s) => s,
            None => {
                return None;
            },
        };
        let ghost all = grid_rows(sample@, self.static_info, self.theme);
        let mut rows: Vec<GridRow<'a>> = Vec::new();
        rows.push(self.cpu_grid_row(sample));
        rows.push(self.memory_grid_row(sample));
        rows.push(self.swap_grid_row(sample));
        let mut i: usize = 0;
        while i < sample.disks.len()
            invariant
                i <= sample.disks@.len(),
                rows@.len() == 3 + i,
                all == grid_rows(sample@, self.static_info, self.theme),
                forall|j: int| 0 <= j < 3 + i ==> (#[trigger] rows@[j])@ == all[j],
            decreases sample.disks@.len() - i,
        {
            rows.push(self.disk_grid_row(&sample.disks[i], sample));
            i = i + 1;
        }
        rows.push(self.network_grid_row(sample));
        rows.push(self.gpu_grid_row(sample));
        assert(rows@.map_values(|row: GridRow| row@) =~= all);
        proof {
            let n = sample.disks@.len() as int;
            assert(rows@[0]@ == all[0] && rows@[1]@ == all[1] && rows@[2]@ == all[2]);
            assert forall|i: int| 0 <= i < n implies (#[trigger] rows@[3 + i])@ == disk_row(
                sample.disks@[i],
                sample@,
                self.theme,
            ) by {
                assert(rows@[3 + i]@ == all[3 + i]);
            }
        }
        Some(rows)
    }
}

/// The grid has a row for each disk, in their order, between those of the memory
/// and those of the network and the graphics card.
pub proof fn every_disk_has_a_row(
    s: SampleModel,
    info: SystemStaticInfo,
    theme: ThemeMode,
)
    ensures
        grid_rows(s, info, theme).len() == s.disks.len() + 5,
        forall|i: int|
            0 <= i < s.disks.len() ==> #[trigger] grid_rows(s, info, theme)[3 + i]
                == disk_row(s.disks[i], s, theme),
{
}

/// Only the processor and the memory raise an alarm.
pub proof fn only_processor_and_memory_alarm(
    s: SampleModel,
    info: SystemStaticInfo,
    theme: ThemeMode,
    row: int,
)
    requires
        0 <= row < s.disks.len() + 5,
        grid_rows(s, info, theme)[row].status_ink == Ink::Red,
    ensures
        (row == 0 && s.cpu_usage_pct.above_whole(85)) || (row == 1 && s.ram_pct.above_whole(90)),
{
}

/// The tiles and the grid agree on when the processor's load is high.
pub proof fn tiles_and_grid_agree(app: PerfmonApp, card: CpuCard, s: SampleModel, start: Double)
    requires
        app.shows_cpu(card, s, start),
    ensures
        card.headline.ink == Ink::Red <==> cpu_row(s, app.static_info, app.theme).status
            == "⚠️ HIGH LOAD"@,
{
    reveal_strlit("⚠️ HIGH LOAD");
    reveal_strlit("🟢 OK");
    assert("⚠️ HIGH LOAD"@.len() != "🟢 OK"@.len());
}

} // verus!
