//! The tiles: six cards with the latest figures and their curves.
use crate::accuracy::{apart, filling_is_the_share};
use crate::arithmetic::small_integers_are_exact;
use crate::bounds::{filling_lies_between_none_and_all, integers_are_finite};
use crate::caption::{caption, Caption, Piece, PieceModel};
use crate::number::{single_one, Double, Single};
use crate::perfmon::PerfmonApp;
use crate::sample::{DiskMetrics, MetricSample, SampleModel};
use crate::series::{curve, plot_points, plot_start, window_start, Metric, Point};
use crate::theme::{Ink, Role, ThemeMode};
use vstd::arithmetic::power2::lemma_pow2_pos;
use vstd::prelude::*;

verus! {

/// A line in a colour.
#[derive(Debug)]
pub struct Label<'a> {
    pub caption: Caption<'a>,
    pub ink: Ink,
}

/// A curve in a colour.
#[derive(Debug)]
pub struct Curve {
    pub points: Vec<Point>,
    pub ink: Ink,
}

/// A short text in a colour.
#[derive(Clone, Copy, Debug)]
pub struct Badge {
    pub text: &'static str,
    pub ink: Ink,
}

/// The load of the processor.
#[derive(Debug)]
pub struct CpuCard {
    pub headline: Label<'static>,
    pub usage_pct: Single,
    /// The part of the bar to fill.
    pub filled: Single,
    pub threads: Caption<'static>,
    /// One label for each logical processor.
    pub cores: Vec<Label<'static>>,
    pub curve: Curve,
}

/// The use of the memory.
#[derive(Debug)]
pub struct MemoryCard {
    pub headline: Label<'static>,
    pub usage_pct: Single,
    /// The part of the bar to fill.
    pub filled: Single,
    pub swap: Caption<'static>,
    pub curve: Curve,
}

/// A disk on its card.
#[derive(Debug)]
pub struct Drive<'a> {
    pub caption: Caption<'a>,
    pub usage_pct: Single,
    /// The part of the bar to fill.
    pub filled: Single,
}

/// The disks.
#[derive(Debug)]
pub struct StorageCard<'a> {
    pub rates: Caption<'static>,
    pub drives: Vec<Drive<'a>>,
    pub curve: Curve,
}

/// The network.
#[derive(Debug)]
pub struct NetworkCard {
    pub rates: Caption<'static>,
    pub received: Curve,
    pub sent: Curve,
}

/// The graphics card.
#[derive(Debug)]
pub struct GpuCard {
    pub headline: Label<'static>,
    pub usage_pct: Single,
    /// The part of the bar to fill.
    pub filled: Single,
    pub temperature: Label<'static>,
    pub vram: Caption<'static>,
    pub curve: Curve,
}

/// The temperatures.
#[derive(Debug)]
pub struct ThermalCard {
    pub headline: Caption<'static>,
    pub cpu_state: Badge,
    pub gpu_state: Badge,
    pub cpu_curve: Curve,
    pub gpu_curve: Curve,
}

/// All six cards.
#[derive(Debug)]
pub struct Tiles<'a> {
    pub card_fill: Ink,
    pub card_border: Ink,
    /// The time that is plotted.
    pub window_start: Double,
    pub window_end: Double,
    pub cpu: CpuCard,
    pub memory: MemoryCard,
    pub storage: StorageCard<'a>,
    pub network: NetworkCard,
    pub gpu: GpuCard,
    pub thermal: ThermalCard,
}

/// The part of a bar to fill at so many percent.
pub open spec fn bar_part(percent: Single) -> Single {
    percent.quotient(Single::of_int(100)).clamped(0, 1)
}

/// The part of a bar to fill at so many percent.
pub fn bar_fraction(percent: Single) -> (r: Single)
    ensures
        r == bar_part(percent),
{
    percent.over(Single::whole(100)).clamp(0, 1)
}

/// A bar is filled between not at all and whole, and whole from 100 percent on.
pub proof fn bars_stay_in_their_frame(percent: Single)
    requires
        !percent.nan(),
    ensures
        bar_part(percent).within(0, 1),
        percent.reaches_whole(100) ==> bar_part(percent).value() == single_one(),
{
    lemma_pow2_pos(149);
    small_integers_are_exact(100);
    integers_are_finite(100);
    filling_lies_between_none_and_all(percent, Single::of_int(100));
}

/// A hundred times the filled part of a bar is the percentage, but for rounding; a bar
/// is empty below nothing, and full above 100.
pub proof fn bars_show_their_percentage(percent: Single)
    requires
        percent.finite(),
    ensures
        ({
            let filled = bar_part(percent).value();
            let p = percent.value();
            &&& 0 <= p <= 100 * single_one() ==> 0x80_0000 * apart(100 * filled, p) <= p + 100
                * 0x80_0000
            &&& p <= 0 ==> filled == 0
            &&& p >= 100 * single_one() ==> filled == single_one()
        }),
{
    let one = single_one();
    let filled = bar_part(percent).value();
    let p = percent.value();
    lemma_pow2_pos(149);
    small_integers_are_exact(100);
    integers_are_finite(100);
    filling_is_the_share(percent, Single::of_int(100));
    if 0 <= p <= 100 * one {
        assert(0x80_0000 * (100 * filled) <= 0x80_0001 * p + 100 * 0x80_0000 && 0x7f_ffff * p
            <= 0x80_0000 * (100 * filled) + 100 * 0x80_0000) by (nonlinear_arith)
            requires
                0x80_0000 * (filled * (100 * one)) <= 0x80_0001 * (p * one) + 0x80_0000 * (100
                    * one),
                0x7f_ffff * (p * one) <= 0x80_0000 * (filled * (100 * one)) + 0x80_0000 * (100
                    * one),
                one > 0,
        ;
    }
}

/// The label of the logical processor of the given number.
pub open spec fn core_text(index: nat, load: Single) -> Seq<PieceModel> {
    seq![
        PieceModel::Text("T"@),
        PieceModel::Count(index, 2),
        PieceModel::Text(": "@),
        PieceModel::Fixed(load, 0),
        PieceModel::Text("%"@),
    ]
}

/// The colour of a logical processor: red above 80 percent.
pub open spec fn core_ink(theme: ThemeMode, load: Single) -> Ink {
    if load.above_whole(80) {
        Ink::Rgb(220, 50, 50)
    } else {
        theme.shade(Role::CoreNormal)
    }
}

/// The label of a disk.
pub open spec fn drive_text(disk: DiskMetrics) -> Seq<PieceModel> {
    seq![
        PieceModel::Text("Drive "@),
        PieceModel::Text(disk.mount_point@),
        PieceModel::Text(": "@),
        PieceModel::Fixed(disk.used_gb, 1),
        PieceModel::Text(" GB / "@),
        PieceModel::Fixed(disk.total_gb, 1),
        PieceModel::Text(" GB ("@),
        PieceModel::Fixed(disk.usage_pct, 0),
        PieceModel::Text("%)"@),
    ]
}

/// The thermal state at a temperature: high above 85 degrees.
pub open spec fn thermal_text(temperature: Single) -> Seq<char> {
    if temperature.above_whole(85) {
        "⚠️ HIGH"@
    } else {
        "🟢 NORMAL"@
    }
}

/// The colour of the thermal state at a temperature.
pub open spec fn thermal_ink(theme: ThemeMode, temperature: Single) -> Ink {
    if temperature.above_whole(85) {
        Ink::Red
    } else {
        theme.shade(Role::ThermalNormal)
    }
}

/// The thermal state at a temperature.
pub fn thermal_state(theme: ThemeMode, temperature: Single) -> (r: Badge)
    ensures
        r.text@ == thermal_text(temperature),
        r.ink == thermal_ink(theme, temperature),
        !temperature.nan() && temperature.value() > 85 * single_one() ==> r.text@ == "⚠️ HIGH"@
            && r.ink == Ink::Red,
        temperature.nan() || temperature.value() <= 85 * single_one() ==> r.text@ == "🟢 NORMAL"@
            && r.ink == theme.shade(Role::ThermalNormal),
{
    if temperature.is_above_whole(85) {
        Badge { text: "⚠️ HIGH", ink: Ink::Red }
    } else {
        Badge { text: "🟢 NORMAL", ink: theme.ink(Role::ThermalNormal) }
    }
}

fn core_labels(theme: ThemeMode, loads: &Vec<Single>) -> (r: Vec<Label<'static>>)
    ensures
        r@.len() == loads@.len(),
        forall|i: int|
            0 <= i < loads@.len() ==> (#[trigger] r@[i]).caption@ == core_text(i as nat, loads@[i]),
        forall|i: int|
            0 <= i < loads@.len() ==> (#[trigger] r@[i]).ink == core_ink(theme, loads@[i]),
{
    let mut labels: Vec<Label<'static>> = Vec::new();
    let mut i: usize = 0;
    while i < loads.len()
        invariant
            i <= loads@.len(),
            labels@.len() == i,
            forall|j: int|
                0 <= j < i ==> (#[trigger] labels@[j]).caption@ == core_text(j as nat, loads@[j]),
            forall|j: int|
                0 <= j < i ==> (#[trigger] labels@[j]).ink == core_ink(theme, loads@[j]),
        decreases loads@.len() - i,
    {
        let load = loads[i];
        let text = caption(
            vec![
                Piece::Text("T"),
                Piece::Count(i as u64, 2),
                Piece::Text(": "),
                Piece::Fixed(load, 0),
                Piece::Text("%"),
            ],
        );
        assert(text@ =~= core_text(i as nat, load));
        let ink = if load.is_above_whole(80) {
            Ink::Rgb(220, 50, 50)
        } else {
            theme.ink(Role::CoreNormal)
        };
        labels.push(Label { caption: text, ink });
        i = i + 1;
    }
    labels
}

fn drives<'a>(disks: &'a Vec<DiskMetrics>) -> (r: Vec<Drive<'a>>)
    ensures
        r@.len() == disks@.len(),
        forall|i: int|
            0 <= i < disks@.len() ==> (#[trigger] r@[i]).caption@ == drive_text(disks@[i]),
        forall|i: int|
            0 <= i < disks@.len() ==> (#[trigger] r@[i]).usage_pct == disks@[i].usage_pct,
        forall|i: int|
            0 <= i < disks@.len() ==> (#[trigger] r@[i]).filled == bar_part(disks@[i].usage_pct),
{
    let mut drives: Vec<Drive<'a>> = Vec::new();
    let mut i: usize = 0;
    while i < disks.len()
        invariant
            i <= disks@.len(),
            drives@.len() == i,
            forall|j: int|
                0 <= j < i ==> (#[trigger] drives@[j]).caption@ == drive_text(disks@[j]),
            forall|j: int|
                0 <= j < i ==> (#[trigger] drives@[j]).usage_pct == disks@[j].usage_pct,
            forall|j: int|
                0 <= j < i ==> (#[trigger] drives@[j]).filled == bar_part(disks@[j].usage_pct),
        decreases disks@.len() - i,
    {
        let disk = &disks[i];
        let text = caption(
            vec![
                Piece::Text("Drive "),
                Piece::Text(disk.mount_point.as_str()),
                Piece::Text(": "),
                Piece::Fixed(disk.used_gb, 1),
                Piece::Text(" GB / "),
                Piece::Fixed(disk.total_gb, 1),
                Piece::Text(" GB ("),
                Piece::Fixed(disk.usage_pct, 0),
                Piece::Text("%)"),
            ],
        );
        assert(text@ =~= drive_text(*disk));
        drives.push(
            Drive {
                caption: text,
                usage_pct: disk.usage_pct,
                filled: bar_fraction(disk.usage_pct),
            },
        );
        i = i + 1;
    }
    drives
}

impl PerfmonApp {
    /// The curve of a figure from `start` on, as it is drawn.
    pub open spec fn draws(self, r: Curve, metric: Metric, start: Double, role: Role) -> bool {
        &&& r.points@ == curve(self.telemetry().history, metric, start)
        &&& r.ink == self.theme.shade(role)
    }

    fn curve(&self, metric: Metric, start: Double, role: Role) -> (r: Curve)
        ensures
            self.draws(r, metric, start, role),
    {
        Curve { points: plot_points(&self.history, metric, start), ink: self.theme.ink(role) }
    }

    /// Whether the card shows the processor's part of a sample: the load, in red
    /// above 85 percent, that of each logical processor, and the curve.
    pub open spec fn shows_cpu(self, r: CpuCard, s: SampleModel, start: Double) -> bool {
        &&& r.headline.caption@ =~= seq![
            PieceModel::Fixed(s.cpu_usage_pct, 1),
            PieceModel::Text("%"@),
        ]
        &&& r.headline.ink == (if s.cpu_usage_pct.above_whole(85) {
            Ink::Red
        } else {
            self.theme.shade(Role::PlotPrimary)
        })
        &&& r.usage_pct == s.cpu_usage_pct
        &&& r.filled == bar_part(s.cpu_usage_pct)
        &&& r.threads@ =~= seq![
            PieceModel::Text("Logical Threads ("@),
            PieceModel::Count(s.cpu_cores_pct.len(), 0),
            PieceModel::Text(") Load:"@),
        ]
        &&& r.cores@.len() == s.cpu_cores_pct.len()
        &&& forall|i: int|
            0 <= i < s.cpu_cores_pct.len() ==> (#[trigger] r.cores@[i]).caption@ == core_text(
                i as nat,
                s.cpu_cores_pct[i],
            )
        &&& forall|i: int|
            0 <= i < s.cpu_cores_pct.len() ==> (#[trigger] r.cores@[i]).ink == core_ink(
                self.theme,
                s.cpu_cores_pct[i],
            )
        &&& self.draws(r.curve, Metric::CpuUsage, start, Role::PlotPrimary)
    }

    fn cpu_card(&self, sample: &MetricSample, start: Double) -> (r: CpuCard)
        ensures
            self.shows_cpu(r, sample@, start),
    {
        let ink = if sample.cpu_usage_pct.is_above_whole(85) {
            Ink::Red
        } else {
            self.theme.ink(Role::PlotPrimary)
        };
        CpuCard {
            headline: Label {
                caption: caption(vec![Piece::Fixed(sample.cpu_usage_pct, 1), Piece::Text("%")]),
                ink,
            },
            usage_pct: sample.cpu_usage_pct,
            filled: bar_fraction(sample.cpu_usage_pct),
            threads: caption(
                vec![
                    Piece::Text("Logical Threads ("),
                    Piece::Count(sample.cpu_cores_pct.len() as u64, 0),
                    Piece::Text(") Load:"),
                ],
            ),
            cores: core_labels(self.theme, &sample.cpu_cores_pct),
            curve: self.curve(Metric::CpuUsage, start, Role::PlotPrimary),
        }
    }

    /// Whether the card shows the memory's part of a sample.
    pub open spec fn shows_memory(self, r: MemoryCard, s: SampleModel, start: Double) -> bool {
        &&& r.headline.caption@ =~= seq![
            PieceModel::Fixed(s.ram_used_gb, 1),
            PieceModel::Text(" / "@),
            PieceModel::Fixed(s.ram_total_gb, 1),
            PieceModel::Text(" GB ("@),
            PieceModel::Fixed(s.ram_pct, 0),
            PieceModel::Text("%)"@),
        ]
        &&& r.headline.ink == self.theme.shade(Role::PlotSecondary)
        &&& r.usage_pct == s.ram_pct
        &&& r.filled == bar_part(s.ram_pct)
        &&& r.swap@ =~= seq![
            PieceModel::Text("Swap Pagefile: "@),
            PieceModel::Fixed(s.swap_used_gb, 2),
            PieceModel::Text(" GB used of "@),
            PieceModel::Fixed(s.swap_total_gb, 2),
            PieceModel::Text(" GB total"@),
        ]
        &&& self.draws(r.curve, Metric::RamUsage, start, Role::PlotSecondary)
    }

    fn memory_card(&self, sample: &MetricSample, start: Double) -> (r: MemoryCard)
        ensures
            self.shows_memory(r, sample@, start),
    {
        MemoryCard {
            headline: Label {
                caption: caption(
                    vec![
                        Piece::Fixed(sample.ram_used_gb, 1),
                        Piece::Text(" / "),
                        Piece::Fixed(sample.ram_total_gb, 1),
                        Piece::Text(" GB ("),
                        Piece::Fixed(sample.ram_pct, 0),
                        Piece::Text("%)"),
                    ],
                ),
                ink: self.theme.ink(Role::PlotSecondary),
            },
            usage_pct: sample.ram_pct,
            filled: bar_fraction(sample.ram_pct),
            swap: caption(
                vec![
                    Piece::Text("Swap Pagefile: "),
                    Piece::Fixed(sample.swap_used_gb, 2),
                    Piece::Text(" GB used of "),
                    Piece::Fixed(sample.swap_total_gb, 2),
                    Piece::Text(" GB total"),
                ],
            ),
            curve: self.curve(Metric::RamUsage, start, Role::PlotSecondary),
        }
    }

    /// Whether the card shows the disks' part of a sample: one line for each of
    /// them, in their order.
    pub open spec fn shows_storage(self, r: StorageCard, s: SampleModel, start: Double) -> bool {
        &&& r.rates@ =~= seq![
            PieceModel::Text("R: "@),
            PieceModel::Fixed(s.disk_read_kbps, 0),
            PieceModel::Text(" KB/s | W: "@),
            PieceModel::Fixed(s.disk_write_kbps, 0),
            PieceModel::Text(" KB/s"@),
        ]
        &&& r.drives@.len() == s.disks.len()
        &&& forall|i: int|
            0 <= i < s.disks.len() ==> (#[trigger] r.drives@[i]).caption@ == drive_text(s.disks[i])
        &&& forall|i: int|
            0 <= i < s.disks.len() ==> (#[trigger] r.drives@[i]).usage_pct == s.disks[i].usage_pct
        &&& forall|i: int|
            0 <= i < s.disks.len() ==> (#[trigger] r.drives@[i]).filled == bar_part(
                s.disks[i].usage_pct,
            )
        &&& self.draws(r.curve, Metric::DiskRead, start, Role::DiskLine)
    }

    fn storage_card<'a>(&self, sample: &'a MetricSample, start: Double) -> (r: StorageCard<'a>)
        ensures
            self.shows_storage(r, sample@, start),
    {
        StorageCard {
            rates: caption(
                vec![
                    Piece::Text("R: "),
                    Piece::Fixed(sample.disk_read_kbps, 0),
                    Piece::Text(" KB/s | W: "),
                    Piece::Fixed(sample.disk_write_kbps, 0),
                    Piece::Text(" KB/s"),
                ],
            ),
            drives: drives(&sample.disks),
            curve: self.curve(Metric::DiskRead, start, Role::DiskLine),
        }
    }

    /// Whether the card shows the network's part of a sample.
    pub open spec fn shows_network(self, r: NetworkCard, s: SampleModel, start: Double) -> bool {
        &&& r.rates@ =~= seq![
            PieceModel::Text("⬇ "@),
            PieceModel::Fixed(s.net_rx_kbps, 1),
            PieceModel::Text(" KB/s  |  ⬆ "@),
            PieceModel::Fixed(s.net_tx_kbps, 1),
            PieceModel::Text(" KB/s"@),
        ]
        &&& self.draws(r.received, Metric::NetReceived, start, Role::NetRxLine)
        &&& self.draws(r.sent, Metric::NetSent, start, Role::NetTxLine)
    }

    fn network_card(&self, sample: &MetricSample, start: Double) -> (r: NetworkCard)
        ensures
            self.shows_network(r, sample@, start),
    {
        NetworkCard {
            rates: caption(
                vec![
                    Piece::Text("⬇ "),
                    Piece::Fixed(sample.net_rx_kbps, 1),
                    Piece::Text(" KB/s  |  ⬆ "),
                    Piece::Fixed(sample.net_tx_kbps, 1),
                    Piece::Text(" KB/s"),
                ],
            ),
            received: self.curve(Metric::NetReceived, start, Role::NetRxLine),
            sent: self.curve(Metric::NetSent, start, Role::NetTxLine),
        }
    }

    /// Whether the card shows the graphics card's part of a sample: its
    /// temperature stands in red above 80 degrees.
    pub open spec fn shows_gpu(self, r: GpuCard, s: SampleModel, start: Double) -> bool {
        &&& r.headline.caption@ =~= seq![
            PieceModel::Fixed(s.gpu_usage_pct, 1),
            PieceModel::Text("%"@),
        ]
        &&& r.headline.ink == self.theme.shade(Role::GpuAccent)
        &&& r.usage_pct == s.gpu_usage_pct
        &&& r.filled == bar_part(s.gpu_usage_pct)
        &&& r.temperature.caption@ =~= seq![
            PieceModel::Text("🌡️ GPU Temp: "@),
            PieceModel::Fixed(s.gpu_temp_c, 1),
            PieceModel::Text("°C"@),
        ]
        &&& r.temperature.ink == (if s.gpu_temp_c.above_whole(80) {
            Ink::Red
        } else {
            self.theme.shade(Role::GpuTempNormal)
        })
        &&& r.vram@ =~= seq![
            PieceModel::Text("VRAM: "@),
            PieceModel::Fixed(s.gpu_vram_used_gb, 1),
            PieceModel::Text(" / "@),
            PieceModel::Fixed(s.gpu_vram_total_gb, 1),
            PieceModel::Text(" GB"@),
        ]
        &&& self.draws(r.curve, Metric::GpuUsage, start, Role::GpuAccent)
    }

    fn gpu_card(&self, sample: &MetricSample, start: Double) -> (r: GpuCard)
        ensures
            self.shows_gpu(r, sample@, start),
    {
        let temperature_ink = if sample.gpu_temp_c.is_above_whole(80) {
            Ink::Red
        } else {
            self.theme.ink(Role::GpuTempNormal)
        };
        GpuCard {
            headline: Label {
                caption: caption(vec![Piece::Fixed(sample.gpu_usage_pct, 1), Piece::Text("%")]),
                ink: self.theme.ink(Role::GpuAccent),
            },
            usage_pct: sample.gpu_usage_pct,
            filled: bar_fraction(sample.gpu_usage_pct),
            temperature: Label {
                caption: caption(
                    vec![
                        Piece::Text("🌡️ GPU Temp: "),
                        Piece::Fixed(sample.gpu_temp_c, 1),
                        Piece::Text("°C"),
                    ],
                ),
                ink: temperature_ink,
            },
            vram: caption(
                vec![
                    Piece::Text("VRAM: "),
                    Piece::Fixed(sample.gpu_vram_used_gb, 1),
                    Piece::Text(" / "),
                    Piece::Fixed(sample.gpu_vram_total_gb, 1),
                    Piece::Text(" GB"),
                ],
            ),
            curve: self.curve(Metric::GpuUsage, start, Role::GpuAccent),
        }
    }

    /// Whether the card shows the temperatures of a sample.
    pub open spec fn shows_thermal(self, r: ThermalCard, s: SampleModel, start: Double) -> bool {
        &&& r.headline@ =~= seq![
            PieceModel::Text("CPU: "@),
            PieceModel::Fixed(s.cpu_temp_c, 1),
            PieceModel::Text("°C | GPU: "@),
            PieceModel::Fixed(s.gpu_temp_c, 1),
            PieceModel::Text("°C"@),
        ]
        &&& r.cpu_state.text@ == thermal_text(s.cpu_temp_c)
        &&& r.cpu_state.ink == thermal_ink(self.theme, s.cpu_temp_c)
        &&& r.gpu_state.text@ == thermal_text(s.gpu_temp_c)
        &&& r.gpu_state.ink == thermal_ink(self.theme, s.gpu_temp_c)
        &&& self.draws(r.cpu_curve, Metric::CpuTemperature, start, Role::CpuTempLine)
        &&& self.draws(r.gpu_curve, Metric::GpuTemperature, start, Role::GpuAccent)
    }

    fn thermal_card(&self, sample: &MetricSample, start: Double) -> (r: ThermalCard)
        ensures
            self.shows_thermal(r, sample@, start),
    {
        ThermalCard {
            headline: caption(
                vec![
                    Piece::Text("CPU: "),
                    Piece::Fixed(sample.cpu_temp_c, 1),
                    Piece::Text("°C | GPU: "),
                    Piece::Fixed(sample.gpu_temp_c, 1),
                    Piece::Text("°C"),
                ],
            ),
            cpu_state: thermal_state(self.theme, sample.cpu_temp_c),
            gpu_state: thermal_state(self.theme, sample.gpu_temp_c),
            cpu_curve: self.curve(Metric::CpuTemperature, start, Role::CpuTempLine),
            gpu_curve: self.curve(Metric::GpuTemperature, start, Role::GpuAccent),
        }
    }

    /// The tiles; nothing before the first sample. The curves end with the latest
    /// sample.
    #[verifier::spinoff_prover]
    #[verifier::rlimit(60)]
    pub fn tiles<'a>(&'a self) -> (r: Option<Tiles<'a>>)
        ensures
            r is Some <==> self.latest_sample is Some,
            r matches Some(t) ==> {
                let s = self.latest_sample->0@;
                let start = plot_start(s.timestamp_sec, self.history_duration_sec);
                &&& t.card_fill == self.theme.shade(Role::CardFill)
                &&& t.card_border == self.theme.shade(Role::CardBorder)
                &&& t.window_start == start
                &&& t.window_end == s.timestamp_sec
                &&& self.shows_cpu(t.cpu, s, start)
                &&& self.shows_memory(t.memory, s, start)
                &&& self.shows_storage(t.storage, s, start)
                &&& self.shows_network(t.network, s, start)
                &&& self.shows_gpu(t.gpu, s, start)
                &&& self.shows_thermal(t.thermal, s, start)
            },
            r matches Some(t) ==> self.latest_sample matches Some(s) && {
                let history = self.history@.map_values(|m: MetricSample| m@);
                let start = t.window_start;
                &&& t.window_end == s.timestamp_sec
                &&& t.cpu.usage_pct == s.cpu_usage_pct
                &&& t.cpu.filled == bar_part(s.cpu_usage_pct)
                &&& t.cpu.headline.caption@ == seq![
                    PieceModel::Fixed(s.cpu_usage_pct, 1),
                    PieceModel::Text("%"@),
                ]
                &&& t.cpu.headline.ink == (if !s.cpu_usage_pct.nan() && s.cpu_usage_pct.value()
                    > 85 * single_one() {
                    Ink::Red
                } else {
                    self.theme.shade(Role::PlotPrimary)
                })
                &&& t.cpu.threads@ == seq![
                    PieceModel::Text("Logical Threads ("@),
                    PieceModel::Count(s.cpu_cores_pct@.len(), 0),
                    PieceModel::Text(") Load:"@),
                ]
                &&& t.cpu.cores@.len() == s.cpu_cores_pct@.len()
                &&& forall|i: int|
                    0 <= i < s.cpu_cores_pct@.len() ==> (#[trigger] t.cpu.cores@[i]).caption@
                        == seq![
                        PieceModel::Text("T"@),
                        PieceModel::Count(i as nat, 2),
                        PieceModel::Text(": "@),
                        PieceModel::Fixed(s.cpu_cores_pct@[i], 0),
                        PieceModel::Text("%"@),
                    ]
                &&& forall|i: int|
                    0 <= i < s.cpu_cores_pct@.len() ==> (#[trigger] t.cpu.cores@[i]).ink == (if
                        !s.cpu_cores_pct@[i].nan() && s.cpu_cores_pct@[i].value() > 80
                        * single_one() {
                        Ink::Rgb(220, 50, 50)
                    } else {
                        self.theme.shade(Role::CoreNormal)
                    })
                &&& t.cpu.curve.points@ == curve(history, Metric::CpuUsage, start)
                &&& t.cpu.curve.ink == self.theme.shade(Role::PlotPrimary)
            },
            r matches Some(t) ==> self.latest_sample matches Some(s) && {
                let history = self.history@.map_values(|m: MetricSample| m@);
                let start = t.window_start;
                &&& t.memory.usage_pct == s.ram_pct
                &&& t.memory.filled == bar_part(s.ram_pct)
                &&& t.memory.headline.caption@ == seq![
                    PieceModel::Fixed(s.ram_used_gb, 1),
                    PieceModel::Text(" / "@),
                    PieceModel::Fixed(s.ram_total_gb, 1),
                    PieceModel::Text(" GB ("@),
                    PieceModel::Fixed(s.ram_pct, 0),
                    PieceModel::Text("%)"@),
                ]
                &&& t.memory.headline.ink == self.theme.shade(Role::PlotSecondary)
                &&& t.memory.swap@ == seq![
                    PieceModel::Text("Swap Pagefile: "@),
                    PieceModel::Fixed(s.swap_used_gb, 2),
                    PieceModel::Text(" GB used of "@),
                    PieceModel::Fixed(s.swap_total_gb, 2),
                    PieceModel::Text(" GB total"@),
                ]
                &&& t.memory.curve.points@ == curve(history, Metric::RamUsage, start)
                &&& t.memory.curve.ink == self.theme.shade(Role::PlotSecondary)
                &&& t.network.rates@ == seq![
                    PieceModel::Text("⬇ "@),
                    PieceModel::Fixed(s.net_rx_kbps, 1),
                    PieceModel::Text(" KB/s  |  ⬆ "@),
                    PieceModel::Fixed(s.net_tx_kbps, 1),
                    PieceModel::Text(" KB/s"@),
                ]
                &&& t.network.received.points@ == curve(history, Metric::NetReceived, start)
                &&& t.network.received.ink == self.theme.shade(Role::NetRxLine)
                &&& t.network.sent.points@ == curve(history, Metric::NetSent, start)
                &&& t.network.sent.ink == self.theme.shade(Role::NetTxLine)
            },
            r matches Some(t) ==> self.latest_sample matches Some(s) && {
                let history = self.history@.map_values(|m: MetricSample| m@);
                let start = t.window_start;
                &&& t.storage.rates@ == seq![
                    PieceModel::Text("R: "@),
                    PieceModel::Fixed(s.disk_read_kbps, 0),
                    PieceModel::Text(" KB/s | W: "@),
                    PieceModel::Fixed(s.disk_write_kbps, 0),
                    PieceModel::Text(" KB/s"@),
                ]
                &&& t.storage.drives@.len() == s.disks@.len()
                &&& forall|i: int|
                    0 <= i < s.disks@.len() ==> (#[trigger] t.storage.drives@[i]).caption@ == seq![
                        PieceModel::Text("Drive "@),
                        PieceModel::Text(s.disks@[i].mount_point@),
                        PieceModel::Text(": "@),
                        PieceModel::Fixed(s.disks@[i].used_gb, 1),
                        PieceModel::Text(" GB / "@),
                        PieceModel::Fixed(s.disks@[i].total_gb, 1),
                        PieceModel::Text(" GB ("@),
                        PieceModel::Fixed(s.disks@[i].usage_pct, 0),
                        PieceModel::Text("%)"@),
                    ]
                &&& forall|i: int|
                    0 <= i < s.disks@.len() ==> (#[trigger] t.storage.drives@[i]).usage_pct
                        == s.disks@[i].usage_pct
                &&& forall|i: int|
                    0 <= i < s.disks@.len() ==> (#[trigger] t.storage.drives@[i]).filled
                        == bar_part(s.disks@[i].usage_pct)
                &&& t.storage.curve.points@ == curve(history, Metric::DiskRead, start)
                &&& t.storage.curve.ink == self.theme.shade(Role::DiskLine)
            },
            r matches Some(t) ==> self.latest_sample matches Some(s) && {
                let history = self.history@.map_values(|m: MetricSample| m@);
                let start = t.window_start;
                &&& t.gpu.usage_pct == s.gpu_usage_pct
                &&& t.gpu.filled == bar_part(s.gpu_usage_pct)
                &&& t.gpu.headline.caption@ == seq![
                    PieceModel::Fixed(s.gpu_usage_pct, 1),
                    PieceModel::Text("%"@),
                ]
                &&& t.gpu.headline.ink == self.theme.shade(Role::GpuAccent)
                &&& t.gpu.temperature.caption@ == seq![
                    PieceModel::Text("🌡️ GPU Temp: "@),
                    PieceModel::Fixed(s.gpu_temp_c, 1),
                    PieceModel::Text("°C"@),
                ]
                &&& t.gpu.temperature.ink == (if !s.gpu_temp_c.nan() && s.gpu_temp_c.value() > 80
                    * single_one() {
                    Ink::Red
                } else {
                    self.theme.shade(Role::GpuTempNormal)
                })
                &&& t.gpu.vram@ == seq![
                    PieceModel::Text("VRAM: "@),
                    PieceModel::Fixed(s.gpu_vram_used_gb, 1),
                    PieceModel::Text(" / "@),
                    PieceModel::Fixed(s.gpu_vram_total_gb, 1),
                    PieceModel::Text(" GB"@),
                ]
                &&& t.gpu.curve.points@ == curve(history, Metric::GpuUsage, start)
                &&& t.gpu.curve.ink == self.theme.shade(Role::GpuAccent)
            },
            r matches Some(t) ==> self.latest_sample matches Some(s) && {
                let history = self.history@.map_values(|m: MetricSample| m@);
                let start = t.window_start;
                let hot = !s.cpu_temp_c.nan() && s.cpu_temp_c.value() > 85 * single_one();
                let gpu_hot = !s.gpu_temp_c.nan() && s.gpu_temp_c.value() > 85 * single_one();
                &&& t.thermal.headline@ == seq![
                    PieceModel::Text("CPU: "@),
                    PieceModel::Fixed(s.cpu_temp_c, 1),
                    PieceModel::Text("°C | GPU: "@),
                    PieceModel::Fixed(s.gpu_temp_c, 1),
                    PieceModel::Text("°C"@),
                ]
                &&& hot ==> t.thermal.cpu_state.text@ == "⚠️ HIGH"@ && t.thermal.cpu_state.ink
                    == Ink::Red
                &&& !hot ==> t.thermal.cpu_state.text@ == "🟢 NORMAL"@ && t.thermal.cpu_state.ink
                    == self.theme.shade(Role::ThermalNormal)
                &&& gpu_hot ==> t.thermal.gpu_state.text@ == "⚠️ HIGH"@ && t.thermal.gpu_state.ink
                    == Ink::Red
                &&& !gpu_hot ==> t.thermal.gpu_state.text@ == "🟢 NORMAL"@
                    && t.thermal.gpu_state.ink == self.theme.shade(Role::ThermalNormal)
                &&& t.thermal.cpu_curve.points@ == curve(history, Metric::CpuTemperature, start)
                &&& t.thermal.cpu_curve.ink == self.theme.shade(Role::CpuTempLine)
                &&& t.thermal.gpu_curve.points@ == curve(history, Metric::GpuTemperature, start)
                &&& t.thermal.gpu_curve.ink == self.theme.shade(Role::GpuAccent)
            },
    {
        match &self.latest_sample {
            Some(sample) => {
                let start = window_start(sample.timestamp_sec, self.history_duration_sec);
                Some(Tiles {
                    card_fill: self.theme.ink(Role::CardFill),
                    card_border: self.theme.ink(Role::CardBorder),
                    window_start: start,
                    window_end: sample.timestamp_sec,
                    cpu: self.cpu_card(sample, start),
                    memory: self.memory_card(sample, start),
                    storage: self.storage_card(sample, start),
                    network: self.network_card(sample, start),
                    gpu: self.gpu_card(sample, start),
                    thermal: self.thermal_card(sample, start),
                })
            },
            None => None,
        }
    }
}

} // verus!
