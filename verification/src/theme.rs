//! Themes and the colours that they give to what is drawn.
use vstd::prelude::*;

verus! {

/// The theme of the dashboard.
#[derive(Clone, Copy, PartialEq, Eq, Structural, Debug)]
pub enum ThemeMode {
    CleanLight,
    DarkCyber,
    MidnightBlue,
}

/// A colour: one given by its parts, or one that the toolkit names.
#[derive(Clone, Copy, PartialEq, Eq, Structural, Debug)]
pub enum Ink {
    Rgb(u8, u8, u8),
    BlackAlpha(u8),
    WhiteAlpha(u8),
    Red,
    LightRed,
    Green,
    LightGreen,
    LightBlue,
    Gold,
    Gray,
}

/// Something that is drawn in one colour by the light theme and in another by
/// the dark ones.
#[derive(Clone, Copy, PartialEq, Eq, Structural, Debug)]
pub enum Role {
    /// The emblem's outer ring and the title of the splash screen.
    SplashPrimary,
    /// The emblem's inner ring.
    SplashSecondary,
    /// The emblem's pulse.
    SplashPulse,
    /// The line below the title of the splash screen.
    SplashSubtitle,
    /// The frame around the facts on the splash screen.
    SplashFrameFill,
    /// The border of that frame.
    SplashFrameBorder,
    /// The title in the header.
    HeaderTitle,
    /// The description of the machine in the header.
    HeaderMachine,
    /// The status line.
    StatusLine,
    /// A card.
    CardFill,
    /// The border of a card.
    CardBorder,
    /// The processor's load and its curve.
    PlotPrimary,
    /// The memory's use and its curve.
    PlotSecondary,
    /// A logical processor that is not busy.
    CoreNormal,
    /// The curve of the disks.
    DiskLine,
    /// The curve of what is received.
    NetRxLine,
    /// The curve of what is sent.
    NetTxLine,
    /// The load of the graphics card, its curve and that of its temperature.
    GpuAccent,
    /// The temperature of a graphics card that is not hot.
    GpuTempNormal,
    /// A thermal state that is normal.
    ThermalNormal,
    /// The curve of the processor's temperature.
    CpuTempLine,
    /// A status in the grid that is in order.
    GridOk,
}

impl Role {
    /// The colours of the role: on a light ground, and on a dark one.
    pub open spec fn shades(self) -> (Ink, Ink) {
        match self {
            Role::SplashPrimary => (Ink::Rgb(0, 110, 220), Ink::Rgb(0, 210, 255)),
            Role::SplashSecondary => (Ink::Rgb(100, 70, 220), Ink::Rgb(120, 100, 255)),
            Role::SplashPulse => (Ink::Rgb(0, 160, 130), Ink::Rgb(0, 255, 180)),
            Role::SplashSubtitle => (Ink::Rgb(60, 75, 95), Ink::Rgb(180, 200, 220)),
            Role::SplashFrameFill => (Ink::Rgb(255, 255, 255), Ink::BlackAlpha(80)),
            Role::SplashFrameBorder => (Ink::Rgb(215, 225, 235), Ink::WhiteAlpha(30)),
            Role::HeaderTitle => (Ink::Rgb(0, 100, 210), Ink::Rgb(0, 220, 255)),
            Role::HeaderMachine => (Ink::Rgb(50, 65, 85), Ink::Rgb(180, 200, 220)),
            Role::StatusLine => (Ink::Rgb(0, 140, 80), Ink::Rgb(140, 220, 160)),
            Role::CardFill => (Ink::Rgb(255, 255, 255), Ink::Rgb(22, 28, 38)),
            Role::CardBorder => (Ink::Rgb(220, 228, 238), Ink::Rgb(40, 50, 65)),
            Role::PlotPrimary => (Ink::Rgb(0, 120, 215), Ink::Rgb(0, 230, 200)),
            Role::PlotSecondary => (Ink::Rgb(100, 60, 210), Ink::Rgb(120, 180, 255)),
            Role::CoreNormal => (Ink::Rgb(70, 85, 105), Ink::Gray),
            Role::DiskLine => (Ink::Rgb(210, 130, 0), Ink::Gold),
            Role::NetRxLine => (Ink::Rgb(0, 160, 60), Ink::LightGreen),
            Role::NetTxLine => (Ink::Rgb(0, 110, 210), Ink::LightBlue),
            Role::GpuAccent => (Ink::Rgb(180, 0, 140), Ink::Rgb(255, 100, 200)),
            Role::GpuTempNormal => (Ink::Rgb(160, 40, 0), Ink::Rgb(255, 140, 80)),
            Role::ThermalNormal => (Ink::Rgb(0, 150, 70), Ink::Green),
            Role::CpuTempLine => (Ink::Rgb(220, 80, 0), Ink::LightRed),
            Role::GridOk => (Ink::Rgb(0, 140, 60), Ink::Green),
        }
    }
}

/// Changes to the toolkit's own visuals. What is `None` stays as the toolkit
/// has it.
#[derive(Clone, Copy, PartialEq, Eq, Structural, Debug)]
pub struct ThemeVisuals {
    /// Whether to start from the toolkit's dark visuals or from its light ones.
    pub dark: bool,
    pub panel_fill: Ink,
    pub window_fill: Ink,
    /// The radius of a window's corners.
    pub window_rounding: Option<u8>,
    /// The ground of what cannot be interacted with.
    pub still_fill: Option<Ink>,
    /// The lines, one point wide, of what cannot be interacted with.
    pub still_stroke: Option<Ink>,
    pub hyperlink: Option<Ink>,
}

/// The visuals set once, before the first frame.
pub open spec fn first_visuals() -> ThemeVisuals {
    ThemeVisuals {
        dark: false,
        panel_fill: Ink::Rgb(240, 244, 248),
        window_fill: Ink::Rgb(255, 255, 255),
        window_rounding: Some(10),
        still_fill: None,
        still_stroke: None,
        hyperlink: None,
    }
}

/// The visuals set once, before the first frame.
pub fn initial_visuals() -> (r: ThemeVisuals)
    ensures
        r == first_visuals(),
        r == (ThemeVisuals {
            dark: false,
            panel_fill: Ink::Rgb(240, 244, 248),
            window_fill: Ink::Rgb(255, 255, 255),
            window_rounding: Some(10),
            still_fill: None,
            still_stroke: None,
            hyperlink: None,
        }),
{
    ThemeVisuals {
        dark: false,
        panel_fill: Ink::Rgb(240, 244, 248),
        window_fill: Ink::Rgb(255, 255, 255),
        window_rounding: Some(10),
        still_fill: None,
        still_stroke: None,
        hyperlink: None,
    }
}

impl ThemeMode {
    /// Whether the theme has a light ground.
    pub open spec fn light(self) -> bool {
        self == ThemeMode::CleanLight
    }

    /// The colour that the theme gives to a role.
    pub open spec fn shade(self, role: Role) -> Ink {
        if self.light() {
            role.shades().0
        } else {
            role.shades().1
        }
    }

    /// The visuals of the theme.
    pub open spec fn theme_visuals(self) -> ThemeVisuals {
        match self {
            ThemeMode::CleanLight => ThemeVisuals {
                dark: false,
                panel_fill: Ink::Rgb(242, 245, 250),
                window_fill: Ink::Rgb(255, 255, 255),
                window_rounding: None,
                still_fill: Some(Ink::Rgb(255, 255, 255)),
                still_stroke: Some(Ink::Rgb(30, 40, 60)),
                hyperlink: Some(Ink::Rgb(0, 110, 210)),
            },
            ThemeMode::DarkCyber => ThemeVisuals {
                dark: true,
                panel_fill: Ink::Rgb(15, 20, 28),
                window_fill: Ink::Rgb(22, 28, 38),
                window_rounding: None,
                still_fill: Some(Ink::Rgb(25, 32, 45)),
                still_stroke: None,
                hyperlink: Some(Ink::Rgb(0, 230, 200)),
            },
            ThemeMode::MidnightBlue => ThemeVisuals {
                dark: true,
                panel_fill: Ink::Rgb(10, 14, 26),
                window_fill: Ink::Rgb(16, 22, 40),
                window_rounding: None,
                still_fill: None,
                still_stroke: None,
                hyperlink: None,
            },
        }
    }

    /// Whether the theme has a light ground.
    pub fn is_light(self) -> (r: bool)
        ensures
            r == self.light(),
            r == (self == ThemeMode::CleanLight),
    {
        self == ThemeMode::CleanLight
    }

    /// The colour that the theme gives to a role.
    pub fn ink(self, role: Role) -> (r: Ink)
        ensures
            r == self.shade(role),
            role == Role::SplashPrimary ==> r == (if self == ThemeMode::CleanLight {
                Ink::Rgb(0, 110, 220)
            } else {
                Ink::Rgb(0, 210, 255)
            }),
            role == Role::SplashSecondary ==> r == (if self == ThemeMode::CleanLight {
                Ink::Rgb(100, 70, 220)
            } else {
                Ink::Rgb(120, 100, 255)
            }),
            role == Role::SplashPulse ==> r == (if self == ThemeMode::CleanLight {
                Ink::Rgb(0, 160, 130)
            } else {
                Ink::Rgb(0, 255, 180)
            }),
            role == Role::SplashSubtitle ==> r == (if self == ThemeMode::CleanLight {
                Ink::Rgb(60, 75, 95)
            } else {
                Ink::Rgb(180, 200, 220)
            }),
            role == Role::SplashFrameFill ==> r == (if self == ThemeMode::CleanLight {
                Ink::Rgb(255, 255, 255)
            } else {
                Ink::BlackAlpha(80)
            }),
            role == Role::SplashFrameBorder ==> r == (if self == ThemeMode::CleanLight {
                Ink::Rgb(215, 225, 235)
            } else {
                Ink::WhiteAlpha(30)
            }),
            role == Role::HeaderTitle ==> r == (if self == ThemeMode::CleanLight {
                Ink::Rgb(0, 100, 210)
            } else {
                Ink::Rgb(0, 220, 255)
            }),
            role == Role::HeaderMachine ==> r == (if self == ThemeMode::CleanLight {
                Ink::Rgb(50, 65, 85)
            } else {
                Ink::Rgb(180, 200, 220)
            }),
            role == Role::StatusLine ==> r == (if self == ThemeMode::CleanLight {
                Ink::Rgb(0, 140, 80)
            } else {
                Ink::Rgb(140, 220, 160)
            }),
            role == Role::CardFill ==> r == (if self == ThemeMode::CleanLight {
                Ink::Rgb(255, 255, 255)
            } else {
                Ink::Rgb(22, 28, 38)
            }),
            role == Role::CardBorder ==> r == (if self == ThemeMode::CleanLight {
                Ink::Rgb(220, 228, 238)
            } else {
                Ink::Rgb(40, 50, 65)
            }),
            role == Role::PlotPrimary ==> r == (if self == ThemeMode::CleanLight {
                Ink::Rgb(0, 120, 215)
            } else {
                Ink::Rgb(0, 230, 200)
            }),
            role == Role::PlotSecondary ==> r == (if self == ThemeMode::CleanLight {
                Ink::Rgb(100, 60, 210)
            } else {
                Ink::Rgb(120, 180, 255)
            }),
            role == Role::CoreNormal ==> r == (if self == ThemeMode::CleanLight {
                Ink::Rgb(70, 85, 105)
            } else {
                Ink::Gray
            }),
            role == Role::DiskLine ==> r == (if self == ThemeMode::CleanLight {
                Ink::Rgb(210, 130, 0)
            } else {
                Ink::Gold
            }),
            role == Role::NetRxLine ==> r == (if self == ThemeMode::CleanLight {
                Ink::Rgb(0, 160, 60)
            } else {
                Ink::LightGreen
            }),
            role == Role::NetTxLine ==> r == (if self == ThemeMode::CleanLight {
                Ink::Rgb(0, 110, 210)
            } else {
                Ink::LightBlue
            }),
            role == Role::GpuAccent ==> r == (if self == ThemeMode::CleanLight {
                Ink::Rgb(180, 0, 140)
            } else {
                Ink::Rgb(255, 100, 200)
            }),
            role == Role::GpuTempNormal ==> r == (if self == ThemeMode::CleanLight {
                Ink::Rgb(160, 40, 0)
            } else {
                Ink::Rgb(255, 140, 80)
            }),
            role == Role::ThermalNormal ==> r == (if self == ThemeMode::CleanLight {
                Ink::Rgb(0, 150, 70)
            } else {
                Ink::Green
            }),
            role == Role::CpuTempLine ==> r == (if self == ThemeMode::CleanLight {
                Ink::Rgb(220, 80, 0)
            } else {
                Ink::LightRed
            }),
            role == Role::GridOk ==> r == (if self == ThemeMode::CleanLight {
                Ink::Rgb(0, 140, 60)
            } else {
                Ink::Green
            }),
    {
        let (light, dark) = match role {
            Role::SplashPrimary => (Ink::Rgb(0, 110, 220), Ink::Rgb(0, 210, 255)),
            Role::SplashSecondary => (Ink::Rgb(100, 70, 220), Ink::Rgb(120, 100, 255)),
            Role::SplashPulse => (Ink::Rgb(0, 160, 130), Ink::Rgb(0, 255, 180)),
            Role::SplashSubtitle => (Ink::Rgb(60, 75, 95), Ink::Rgb(180, 200, 220)),
            Role::SplashFrameFill => (Ink::Rgb(255, 255, 255), Ink::BlackAlpha(80)),
            Role::SplashFrameBorder => (Ink::Rgb(215, 225, 235), Ink::WhiteAlpha(30)),
            Role::HeaderTitle => (Ink::Rgb(0, 100, 210), Ink::Rgb(0, 220, 255)),
            Role::HeaderMachine => (Ink::Rgb(50, 65, 85), Ink::Rgb(180, 200, 220)),
            Role::StatusLine => (Ink::Rgb(0, 140, 80), Ink::Rgb(140, 220, 160)),
            Role::CardFill => (Ink::Rgb(255, 255, 255), Ink::Rgb(22, 28, 38)),
            Role::CardBorder => (Ink::Rgb(220, 228, 238), Ink::Rgb(40, 50, 65)),
            Role::PlotPrimary => (Ink::Rgb(0, 120, 215), Ink::Rgb(0, 230, 200)),
            Role::PlotSecondary => (Ink::Rgb(100, 60, 210), Ink::Rgb(120, 180, 255)),
            Role::CoreNormal => (Ink::Rgb(70, 85, 105), Ink::Gray),
            Role::DiskLine => (Ink::Rgb(210, 130, 0), Ink::Gold),
            Role::NetRxLine => (Ink::Rgb(0, 160, 60), Ink::LightGreen),
            Role::NetTxLine => (Ink::Rgb(0, 110, 210), Ink::LightBlue),
            Role::GpuAccent => (Ink::Rgb(180, 0, 140), Ink::Rgb(255, 100, 200)),
            Role::GpuTempNormal => (Ink::Rgb(160, 40, 0), Ink::Rgb(255, 140, 80)),
            Role::ThermalNormal => (Ink::Rgb(0, 150, 70), Ink::Green),
            Role::CpuTempLine => (Ink::Rgb(220, 80, 0), Ink::LightRed),
            Role::GridOk => (Ink::Rgb(0, 140, 60), Ink::Green),
        };
        if self.is_light() {
            light
        } else {
            dark
        }
    }

    /// The visuals of the theme.
    pub fn visuals(self) -> (r: ThemeVisuals)
        ensures
            r == self.theme_visuals(),
            self == ThemeMode::CleanLight ==> r == (ThemeVisuals {
                dark: false,
                panel_fill: Ink::Rgb(242, 245, 250),
                window_fill: Ink::Rgb(255, 255, 255),
                window_rounding: None,
                still_fill: Some(Ink::Rgb(255, 255, 255)),
                still_stroke: Some(Ink::Rgb(30, 40, 60)),
                hyperlink: Some(Ink::Rgb(0, 110, 210)),
            }),
            self == ThemeMode::DarkCyber ==> r == (ThemeVisuals {
                dark: true,
                panel_fill: Ink::Rgb(15, 20, 28),
                window_fill: Ink::Rgb(22, 28, 38),
                window_rounding: None,
                still_fill: Some(Ink::Rgb(25, 32, 45)),
                still_stroke: None,
                hyperlink: Some(Ink::Rgb(0, 230, 200)),
            }),
            self == ThemeMode::MidnightBlue ==> r == (ThemeVisuals {
                dark: true,
                panel_fill: Ink::Rgb(10, 14, 26),
                window_fill: Ink::Rgb(16, 22, 40),
                window_rounding: None,
                still_fill: None,
                still_stroke: None,
                hyperlink: None,
            }),
    {
        match self {
            ThemeMode::CleanLight => ThemeVisuals {
                dark: false,
                panel_fill: Ink::Rgb(242, 245, 250),
                window_fill: Ink::Rgb(255, 255, 255),
                window_rounding: None,
                still_fill: Some(Ink::Rgb(255, 255, 255)),
                still_stroke: Some(Ink::Rgb(30, 40, 60)),
                hyperlink: Some(Ink::Rgb(0, 110, 210)),
            },
            ThemeMode::DarkCyber => ThemeVisuals {
                dark: true,
                panel_fill: Ink::Rgb(15, 20, 28),
                window_fill: Ink::Rgb(22, 28, 38),
                window_rounding: None,
                still_fill: Some(Ink::Rgb(25, 32, 45)),
                still_stroke: None,
                hyperlink: Some(Ink::Rgb(0, 230, 200)),
            },
            ThemeMode::MidnightBlue => ThemeVisuals {
                dark: true,
                panel_fill: Ink::Rgb(10, 14, 26),
                window_fill: Ink::Rgb(16, 22, 40),
                window_rounding: None,
                still_fill: None,
                still_stroke: None,
                hyperlink: None,
            },
        }
    }

    /// The name under which the theme is offered.
    pub open spec fn title_text(self) -> Seq<char> {
        match self {
            ThemeMode::CleanLight => "☀️ Clean Light"@,
            ThemeMode::DarkCyber => "🌙 Cyber Dark"@,
            ThemeMode::MidnightBlue => "🌌 Midnight Blue"@,
        }
    }

    /// The name under which the theme is offered.
    pub fn title(self) -> (r: &'static str)
        ensures
            r@ == self.title_text(),
            self == ThemeMode::CleanLight ==> r@ == "☀️ Clean Light"@,
            self == ThemeMode::DarkCyber ==> r@ == "🌙 Cyber Dark"@,
            self == ThemeMode::MidnightBlue ==> r@ == "🌌 Midnight Blue"@,
    {
        match self {
            ThemeMode::CleanLight => "☀️ Clean Light",
            ThemeMode::DarkCyber => "🌙 Cyber Dark",
            ThemeMode::MidnightBlue => "🌌 Midnight Blue",
        }
    }
}

/// The visuals start from the toolkit's light ones exactly where the colours
/// are those for a light ground.
pub proof fn visuals_match_the_ground(theme: ThemeMode)
    ensures
        theme.theme_visuals().dark == !theme.light(),
{
}

} // verus!
