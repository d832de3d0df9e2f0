//! The lines of text around the two tabs: splash screen, header and status bar.
use crate::caption::{caption, Caption, Piece, PieceModel};
use crate::number::Single;
use crate::perfmon::{PerfmonApp, SystemStaticInfo};
use crate::telemetry::Telemetry;
use crate::theme::{Ink, Role};
use vstd::prelude::*;

verus! {

/// A fact on the splash screen: what it is, and how it reads.
#[derive(Debug)]
pub struct Fact<'a> {
    pub label: &'static str,
    pub text: Caption<'a>,
}

/// A line and its colour; `None` where the toolkit's own is used.
#[derive(Debug)]
pub struct Line<'a> {
    pub caption: Caption<'a>,
    pub ink: Option<Ink>,
}

/// How the description of the machine reads.
pub open spec fn machine_line(info: SystemStaticInfo) -> Seq<PieceModel> {
    seq![
        PieceModel::Text("💻 "@),
        PieceModel::Text(info.hostname@),
        PieceModel::Text(" | "@),
        PieceModel::Text(info.os_name@),
        PieceModel::Text(" | "@),
        PieceModel::Text(info.cpu_brand@),
        PieceModel::Text(" ("@),
        PieceModel::Count(info.cpu_logical_cores as nat, 0),
        PieceModel::Text(" threads) | "@),
        PieceModel::Fixed(info.total_ram_gb, 1),
        PieceModel::Text(" GB RAM"@),
    ]
}

/// How the status line reads: before the first sample, and from then on.
pub open spec fn status_text(telemetry: Telemetry) -> Seq<PieceModel> {
    match telemetry.latest {
        None => seq![PieceModel::Text("Connecting to Win32 PDH telemetry worker..."@)],
        Some(s) => seq![
            PieceModel::Text("🟢 Live Win32 NT Kernel & PDH Telemetry | Samples: "@),
            PieceModel::Count(telemetry.history.len(), 0),
            PieceModel::Text(" | Uptime: "@),
            PieceModel::FixedDouble(s.timestamp_sec, 1),
            PieceModel::Text("s | CPU Temp: "@),
            PieceModel::Fixed(s.cpu_temp_c, 1),
            PieceModel::Text("°C | GPU Temp: "@),
            PieceModel::Fixed(s.gpu_temp_c, 1),
            PieceModel::Text("°C"@),
        ],
    }
}

/// The text on the progress bar, of which the part `progress` is filled.
pub fn progress_caption(progress: Single) -> (r: Caption<'static>)
    ensures
        r@ == seq![
            PieceModel::Text("Initializing Telemetry... "@),
            PieceModel::Fixed(progress.product(Single::of_int(100)), 0),
            PieceModel::Text("%"@),
        ],
{
    caption(
        vec![
            Piece::Text("Initializing Telemetry... "),
            Piece::Fixed(progress.times(Single::whole(100)), 0),
            Piece::Text("%"),
        ],
    )
}

impl PerfmonApp {
    /// The facts on the splash screen, in their order.
    pub fn splash_facts<'a>(&'a self) -> (r: Vec<Fact<'a>>)
        ensures
            r@.len() == 5,
            r@[0].label@ == "Author:"@,
            r@[0].text@ == seq![PieceModel::Text("Kenny / Antigravity Team"@)],
            r@[1].label@ == "Version:"@,
            r@[1].text@ == seq![PieceModel::Text("v1.0.0 (Native Release)"@)],
            r@[2].label@ == "Target OS:"@,
            r@[2].text@ == seq![
                PieceModel::Text("Windows x86_64 ("@),
                PieceModel::Text(self.static_info.os_name@),
                PieceModel::Text(")"@),
            ],
            r@[3].label@ == "Graphics Engine:"@,
            r@[3].text@ == seq![PieceModel::Text("Direct3D 12 / WGPU (eframe 0.29)"@)],
            r@[4].label@ == "Release Date:"@,
            r@[4].text@ == seq![PieceModel::Text("August 16, 2026"@)],
    {
        let target = vec![
            Piece::Text("Windows x86_64 ("),
            Piece::Text(self.static_info.os_name.as_str()),
            Piece::Text(")"),
        ];
        let mut facts: Vec<Fact<'a>> = Vec::new();
        facts.push(
            Fact { label: "Author:", text: caption(vec![Piece::Text("Kenny / Antigravity Team")]) },
        );
        facts.push(
            Fact { label: "Version:", text: caption(vec![Piece::Text("v1.0.0 (Native Release)")]) },
        );
        facts.push(Fact { label: "Target OS:", text: caption(target) });
        facts.push(
            Fact {
                label: "Graphics Engine:",
                text: caption(vec![Piece::Text("Direct3D 12 / WGPU (eframe 0.29)")]),
            },
        );
        facts.push(
            Fact { label: "Release Date:", text: caption(vec![Piece::Text("August 16, 2026")]) },
        );
        facts
    }

    /// The description of the machine in the header.
    pub fn header_line<'a>(&'a self) -> (r: Line<'a>)
        ensures
            r.caption@ == machine_line(self.static_info),
            r.caption@ == seq![
                PieceModel::Text("💻 "@),
                PieceModel::Text(self.static_info.hostname@),
                PieceModel::Text(" | "@),
                PieceModel::Text(self.static_info.os_name@),
                PieceModel::Text(" | "@),
                PieceModel::Text(self.static_info.cpu_brand@),
                PieceModel::Text(" ("@),
                PieceModel::Count(self.static_info.cpu_logical_cores as nat, 0),
                PieceModel::Text(" threads) | "@),
                PieceModel::Fixed(self.static_info.total_ram_gb, 1),
                PieceModel::Text(" GB RAM"@),
            ],
            r.ink == Some(self.theme.shade(Role::HeaderMachine)),
    {
        let info = &self.static_info;
        let pieces = vec![
            Piece::Text("💻 "),
            Piece::Text(info.hostname.as_str()),
            Piece::Text(" | "),
            Piece::Text(info.os_name.as_str()),
            Piece::Text(" | "),
            Piece::Text(info.cpu_brand.as_str()),
            Piece::Text(" ("),
            Piece::Count(info.cpu_logical_cores as u64, 0),
            Piece::Text(" threads) | "),
            Piece::Fixed(info.total_ram_gb, 1),
            Piece::Text(" GB RAM"),
        ];
        Line { caption: caption(pieces), ink: Some(self.theme.ink(Role::HeaderMachine)) }
    }

    /// The status line: what was last measured, once there is a sample.
    pub fn status_line<'a>(&'a self) -> (r: Line<'a>)
        ensures
            r.caption@ == status_text(self.telemetry()),
            self.latest_sample is None ==> r.caption@ == seq![
                PieceModel::Text("Connecting to Win32 PDH telemetry worker..."@),
            ],
            self.latest_sample matches Some(s) ==> r.caption@ == seq![
                PieceModel::Text("🟢 Live Win32 NT Kernel & PDH Telemetry | Samples: "@),
                PieceModel::Count(self.history@.len(), 0),
                PieceModel::Text(" | Uptime: "@),
                PieceModel::FixedDouble(s.timestamp_sec, 1),
                PieceModel::Text("s | CPU Temp: "@),
                PieceModel::Fixed(s.cpu_temp_c, 1),
                PieceModel::Text("°C | GPU Temp: "@),
                PieceModel::Fixed(s.gpu_temp_c, 1),
                PieceModel::Text("°C"@),
            ],
            r.ink == (if self.latest_sample is Some {
                Some(self.theme.shade(Role::StatusLine))
            } else {
                None
            }),
    {
        match &self.latest_sample {
            Some(s) => {
                let pieces = vec![
                    Piece::Text("🟢 Live Win32 NT Kernel & PDH Telemetry | Samples: "),
                    Piece::Count(self.history.len() as u64, 0),
                    Piece::Text(" | Uptime: "),
                    Piece::FixedDouble(s.timestamp_sec, 1),
                    Piece::Text("s | CPU Temp: "),
                    Piece::Fixed(s.cpu_temp_c, 1),
                    Piece::Text("°C | GPU Temp: "),
                    Piece::Fixed(s.gpu_temp_c, 1),
                    Piece::Text("°C"),
                ];
                Line { caption: caption(pieces), ink: Some(self.theme.ink(Role::StatusLine)) }
            },
            None => Line {
                caption: caption(vec![Piece::Text("Connecting to Win32 PDH telemetry worker...")]),
                ink: None,
            },
        }
    }

    /// How often the dashboard is drawn.
    pub fn refresh_caption(&self) -> (r: Caption<'static>)
        ensures
            r@ == seq![
                PieceModel::Text("Refresh: "@),
                PieceModel::Count(self.refresh_rate_ms as nat, 0),
                PieceModel::Text("ms"@),
            ],
    {
        caption(
            vec![
                Piece::Text("Refresh: "),
                Piece::Count(self.refresh_rate_ms, 0),
                Piece::Text("ms"),
            ],
        )
    }
}

} // verus!
