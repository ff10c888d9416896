//! Theme contract.
//!
//! Interface code paints with semantic tokens and never names a colour;
//! this module is the only place a colour value exists. Contrast ratios are
//! floating-point arithmetic and live with the interface, outside this
//! library.

use vstd::prelude::*;

verus! {

/// What the user chose. Following the system is the default.
#[derive(Debug, Clone, Copy, PartialEq, Eq, Structural, Hash)]
pub enum ThemeMode {
    /// Follow the operating system appearance.
    System,
    /// Always light.
    Light,
    /// Always dark.
    Dark,
}

impl Default for ThemeMode {
    /// Follow the system.
    fn default() -> (r: Self)
        ensures
            r == ThemeMode::System,
    {
        ThemeMode::System
    }
}

/// What the operating system currently reports.
#[derive(Debug, Clone, Copy, PartialEq, Eq, Structural, Hash)]
pub enum SystemAppearance {
    /// The OS is in a light appearance.
    Light,
    /// The OS is in a dark appearance.
    Dark,
}

/// The appearance actually rendered, after resolving a [`ThemeMode`]
/// against the system.
#[derive(Debug, Clone, Copy, PartialEq, Eq, Structural, Hash)]
pub enum ResolvedTheme {
    /// Render the light palette.
    Light,
    /// Render the dark palette.
    Dark,
}

/// A mode resolved against the system: an explicit choice wins, and
/// "system" takes the system's appearance.
pub open spec fn resolve_spec(mode: ThemeMode, system: SystemAppearance) -> ResolvedTheme {
    match mode {
        ThemeMode::Light => ResolvedTheme::Light,
        ThemeMode::Dark => ResolvedTheme::Dark,
        ThemeMode::System => match system {
            SystemAppearance::Light => ResolvedTheme::Light,
            SystemAppearance::Dark => ResolvedTheme::Dark,
        },
    }
}

impl ThemeMode {
    /// Resolve the user's choice against the current system appearance.
    pub fn resolve(self, system: SystemAppearance) -> (r: ResolvedTheme)
        ensures
            r == resolve_spec(self, system),
    {
        match self {
            ThemeMode::Light => ResolvedTheme::Light,
            ThemeMode::Dark => ResolvedTheme::Dark,
            ThemeMode::System => match system {
                SystemAppearance::Light => ResolvedTheme::Light,
                SystemAppearance::Dark => ResolvedTheme::Dark,
            },
        }
    }

    /// Whether a system appearance change should repaint the interface.
    pub fn follows_system(self) -> (r: bool)
        ensures
            r == (self == ThemeMode::System),
    {
        match self {
            ThemeMode::System => true,
            _ => false,
        }
    }

    /// Every mode, for exhaustive tests and the settings page.
    pub fn all() -> (r: Vec<ThemeMode>)
        ensures
            r@ == seq![ThemeMode::System, ThemeMode::Light, ThemeMode::Dark],
    {
        let r = vec![ThemeMode::System, ThemeMode::Light, ThemeMode::Dark];
        proof {
            assert(r@ =~= seq![ThemeMode::System, ThemeMode::Light, ThemeMode::Dark]);
        }
        r
    }

    /// Localization key for the mode's label.
    pub fn label_key(self) -> (r: &'static str)
        ensures
            r@ == mode_label_key(self),
    {
        match self {
            ThemeMode::System => "theme.system",
            ThemeMode::Light => "theme.light",
            ThemeMode::Dark => "theme.dark",
        }
    }
}

/// A mode's label key.
pub open spec fn mode_label_key(mode: ThemeMode) -> Seq<char> {
    match mode {
        ThemeMode::System => "theme.system"@,
        ThemeMode::Light => "theme.light"@,
        ThemeMode::Dark => "theme.dark"@,
    }
}

/// A semantic role an interface element can paint with. Each palette gives
/// every token a value.
#[derive(Debug, Clone, Copy, PartialEq, Eq, Structural, Hash, PartialOrd, Ord)]
pub enum ThemeToken {
    /// Window background.
    SurfaceWindow,
    /// Pane background.
    SurfacePane,
    /// Preview / tool area background.
    SurfacePreview,
    /// Toolbar and list-header background.
    SurfaceHeader,
    /// Every other row, when alternating row colours are on.
    RowAlternate,
    /// Row under the pointer.
    RowHover,
    /// Primary text.
    TextPrimary,
    /// Secondary / dimmed text.
    TextSecondary,
    /// Text drawn on an accent fill, such as a selected row.
    TextOnAccent,
    /// Divider and border lines.
    Border,
    /// Selection in the focused pane.
    SelectionActive,
    /// Selection in an unfocused pane.
    SelectionInactive,
    /// A mark. It must be distinguishable from the selection.
    MarkActive,
    /// Focus ring.
    FocusRing,
    /// Indicator for the active pane.
    PaneActiveIndicator,
    /// Error state.
    StatusError,
    /// Warning state.
    StatusWarning,
    /// Success state.
    StatusSuccess,
}

/// A token's stable name, used in theme files and diagnostics.
pub open spec fn token_name(t: ThemeToken) -> Seq<char> {
    match t {
        ThemeToken::SurfaceWindow => "surface.window"@,
        ThemeToken::SurfacePane => "surface.pane"@,
        ThemeToken::SurfacePreview => "surface.preview"@,
        ThemeToken::SurfaceHeader => "surface.header"@,
        ThemeToken::RowAlternate => "row.alternate"@,
        ThemeToken::RowHover => "row.hover"@,
        ThemeToken::TextPrimary => "text.primary"@,
        ThemeToken::TextSecondary => "text.secondary"@,
        ThemeToken::TextOnAccent => "text.on_accent"@,
        ThemeToken::Border => "border"@,
        ThemeToken::SelectionActive => "selection.active"@,
        ThemeToken::SelectionInactive => "selection.inactive"@,
        ThemeToken::MarkActive => "mark.active"@,
        ThemeToken::FocusRing => "focus.ring"@,
        ThemeToken::PaneActiveIndicator => "pane.active_indicator"@,
        ThemeToken::StatusError => "status.error"@,
        ThemeToken::StatusWarning => "status.warning"@,
        ThemeToken::StatusSuccess => "status.success"@,
    }
}

/// Every token, in declaration order.
pub open spec fn all_tokens() -> Seq<ThemeToken> {
    seq![
        ThemeToken::SurfaceWindow,
        ThemeToken::SurfacePane,
        ThemeToken::SurfacePreview,
        ThemeToken::SurfaceHeader,
        ThemeToken::RowAlternate,
        ThemeToken::RowHover,
        ThemeToken::TextPrimary,
        ThemeToken::TextSecondary,
        ThemeToken::TextOnAccent,
        ThemeToken::Border,
        ThemeToken::SelectionActive,
        ThemeToken::SelectionInactive,
        ThemeToken::MarkActive,
        ThemeToken::FocusRing,
        ThemeToken::PaneActiveIndicator,
        ThemeToken::StatusError,
        ThemeToken::StatusWarning,
        ThemeToken::StatusSuccess,
    ]
}

impl ThemeToken {
    /// Every token, in declaration order.
    pub fn all() -> (r: Vec<ThemeToken>)
        ensures
            r@ == all_tokens(),
    {
        let r = vec![
            ThemeToken::SurfaceWindow,
            ThemeToken::SurfacePane,
            ThemeToken::SurfacePreview,
            ThemeToken::SurfaceHeader,
            ThemeToken::RowAlternate,
            ThemeToken::RowHover,
            ThemeToken::TextPrimary,
            ThemeToken::TextSecondary,
            ThemeToken::TextOnAccent,
            ThemeToken::Border,
            ThemeToken::SelectionActive,
            ThemeToken::SelectionInactive,
            ThemeToken::MarkActive,
            ThemeToken::FocusRing,
            ThemeToken::PaneActiveIndicator,
            ThemeToken::StatusError,
            ThemeToken::StatusWarning,
            ThemeToken::StatusSuccess,
        ];
        proof {
            assert(r@ =~= all_tokens());
        }
        r
    }

    /// Stable name used in theme files and diagnostics.
    pub fn as_str(self) -> (r: &'static str)
        ensures
            r@ == token_name(self),
    {
        match self {
            ThemeToken::SurfaceWindow => "surface.window",
            ThemeToken::SurfacePane => "surface.pane",
            ThemeToken::SurfacePreview => "surface.preview",
            ThemeToken::SurfaceHeader => "surface.header",
            ThemeToken::RowAlternate => "row.alternate",
            ThemeToken::RowHover => "row.hover",
            ThemeToken::TextPrimary => "text.primary",
            ThemeToken::TextSecondary => "text.secondary",
            ThemeToken::TextOnAccent => "text.on_accent",
            ThemeToken::Border => "border",
            ThemeToken::SelectionActive => "selection.active",
            ThemeToken::SelectionInactive => "selection.inactive",
            ThemeToken::MarkActive => "mark.active",
            ThemeToken::FocusRing => "focus.ring",
            ThemeToken::PaneActiveIndicator => "pane.active_indicator",
            ThemeToken::StatusError => "status.error",
            ThemeToken::StatusWarning => "status.warning",
            ThemeToken::StatusSuccess => "status.success",
        }
    }
}

/// Straight (non-premultiplied) 8-bit-per-channel colour.
#[derive(Debug, Clone, Copy, PartialEq, Eq, Structural, Hash)]
pub struct Color {
    /// Red channel.
    pub r: u8,
    /// Green channel.
    pub g: u8,
    /// Blue channel.
    pub b: u8,
    /// Alpha channel, 255 = opaque.
    pub a: u8,
}

impl Color {
    /// An opaque colour.
    pub fn rgb(r: u8, g: u8, b: u8) -> (c: Self)
        ensures
            c == (Color { r, g, b, a: 255 }),
    {
        Color { r, g, b, a: 255 }
    }

    /// A colour with alpha.
    pub fn rgba(r: u8, g: u8, b: u8, a: u8) -> (c: Self)
        ensures
            c == (Color { r, g, b, a }),
    {
        Color { r, g, b, a }
    }
}

/// A token's colour in the light appearance.
pub open spec fn light_color(t: ThemeToken) -> Color {
    match t {
        ThemeToken::SurfaceWindow => Color { r: 0xF2, g: 0xF3, b: 0xF5, a: 255 },
        ThemeToken::SurfacePane => Color { r: 0xFF, g: 0xFF, b: 0xFF, a: 255 },
        ThemeToken::SurfacePreview => Color { r: 0xF7, g: 0xF8, b: 0xFA, a: 255 },
        ThemeToken::SurfaceHeader => Color { r: 0xEC, g: 0xEE, b: 0xF1, a: 255 },
        ThemeToken::RowAlternate => Color { r: 0xF7, g: 0xF8, b: 0xFA, a: 255 },
        ThemeToken::RowHover => Color { r: 0xED, g: 0xF1, b: 0xF7, a: 255 },
        ThemeToken::TextPrimary => Color { r: 0x16, g: 0x18, b: 0x1D, a: 255 },
        ThemeToken::TextSecondary => Color { r: 0x5B, g: 0x62, b: 0x70, a: 255 },
        ThemeToken::TextOnAccent => Color { r: 0xFF, g: 0xFF, b: 0xFF, a: 255 },
        ThemeToken::Border => Color { r: 0xDD, g: 0xE1, b: 0xE7, a: 255 },
        ThemeToken::SelectionActive => Color { r: 0x2C, g: 0x6B, b: 0xD8, a: 255 },
        ThemeToken::SelectionInactive => Color { r: 0xDC, g: 0xE1, b: 0xE8, a: 255 },
        ThemeToken::MarkActive => Color { r: 0x7A, g: 0x2A, b: 0x00, a: 255 },
        ThemeToken::FocusRing => Color { r: 0x2C, g: 0x6B, b: 0xD8, a: 255 },
        ThemeToken::PaneActiveIndicator => Color { r: 0x2C, g: 0x6B, b: 0xD8, a: 255 },
        ThemeToken::StatusError => Color { r: 0xB3, g: 0x26, b: 0x1E, a: 255 },
        ThemeToken::StatusWarning => Color { r: 0x7A, g: 0x4E, b: 0x00, a: 255 },
        ThemeToken::StatusSuccess => Color { r: 0x14, g: 0x6C, b: 0x2E, a: 255 },
    }
}

/// A token's colour in the dark appearance.
pub open spec fn dark_color(t: ThemeToken) -> Color {
    match t {
        ThemeToken::SurfaceWindow => Color { r: 0x1C, g: 0x1D, b: 0x21, a: 255 },
        ThemeToken::SurfacePane => Color { r: 0x23, g: 0x24, b: 0x29, a: 255 },
        ThemeToken::SurfacePreview => Color { r: 0x19, g: 0x1A, b: 0x1E, a: 255 },
        ThemeToken::SurfaceHeader => Color { r: 0x26, g: 0x28, b: 0x2E, a: 255 },
        ThemeToken::RowAlternate => Color { r: 0x26, g: 0x28, b: 0x2E, a: 255 },
        ThemeToken::RowHover => Color { r: 0x2D, g: 0x30, b: 0x38, a: 255 },
        ThemeToken::TextPrimary => Color { r: 0xE9, g: 0xEA, b: 0xEE, a: 255 },
        ThemeToken::TextSecondary => Color { r: 0xA0, g: 0xA6, b: 0xB2, a: 255 },
        ThemeToken::TextOnAccent => Color { r: 0xFF, g: 0xFF, b: 0xFF, a: 255 },
        ThemeToken::Border => Color { r: 0x34, g: 0x36, b: 0x3D, a: 255 },
        ThemeToken::SelectionActive => Color { r: 0x36, g: 0x70, b: 0xD0, a: 255 },
        ThemeToken::SelectionInactive => Color { r: 0x33, g: 0x35, b: 0x3C, a: 255 },
        ThemeToken::MarkActive => Color { r: 0xF0, g: 0xA4, b: 0x5A, a: 255 },
        ThemeToken::FocusRing => Color { r: 0x7F, g: 0xB4, b: 0xFF, a: 255 },
        ThemeToken::PaneActiveIndicator => Color { r: 0x7F, g: 0xB4, b: 0xFF, a: 255 },
        ThemeToken::StatusError => Color { r: 0xFF, g: 0x8A, b: 0x84, a: 255 },
        ThemeToken::StatusWarning => Color { r: 0xF0, g: 0xC0, b: 0x5A, a: 255 },
        ThemeToken::StatusSuccess => Color { r: 0x6E, g: 0xD2, b: 0x8F, a: 255 },
    }
}

/// A token's colour in an appearance.
pub open spec fn token_color(theme: ResolvedTheme, t: ThemeToken) -> Color {
    match theme {
        ResolvedTheme::Light => light_color(t),
        ResolvedTheme::Dark => dark_color(t),
    }
}

/// A complete set of token values for one resolved appearance.
#[derive(Debug, Clone, PartialEq, Eq)]
pub struct Palette {
    theme: ResolvedTheme,
}

impl Palette {
    /// Which appearance this palette paints.
    pub closed spec fn spec_theme(&self) -> ResolvedTheme {
        self.theme
    }

    /// The light palette.
    pub fn light() -> (r: Self)
        ensures
            r.spec_theme() == ResolvedTheme::Light,
    {
        Palette { theme: ResolvedTheme::Light }
    }

    /// The dark palette.
    pub fn dark() -> (r: Self)
        ensures
            r.spec_theme() == ResolvedTheme::Dark,
    {
        Palette { theme: ResolvedTheme::Dark }
    }

    /// The palette for a resolved appearance.
    pub fn for_theme(theme: ResolvedTheme) -> (r: Self)
        ensures
            r.spec_theme() == theme,
    {
        Palette { theme }
    }

    /// Which appearance this palette paints.
    pub fn theme(&self) -> (r: ResolvedTheme)
        ensures
            r == self.spec_theme(),
    {
        self.theme
    }

    /// The colour for a token; every token has one in both appearances.
    pub fn color(&self, token: ThemeToken) -> (r: Color)
        ensures
            r == token_color(self.spec_theme(), token),
    {
        match self.theme {
            ResolvedTheme::Light => light_color_of(token),
            ResolvedTheme::Dark => dark_color_of(token),
        }
    }
}

fn light_color_of(t: ThemeToken) -> (r: Color)
    ensures
        r == light_color(t),
{
    match t {
        ThemeToken::SurfaceWindow => Color::rgb(0xF2, 0xF3, 0xF5),
        ThemeToken::SurfacePane => Color::rgb(0xFF, 0xFF, 0xFF),
        ThemeToken::SurfacePreview => Color::rgb(0xF7, 0xF8, 0xFA),
        ThemeToken::SurfaceHeader => Color::rgb(0xEC, 0xEE, 0xF1),
        ThemeToken::RowAlternate => Color::rgb(0xF7, 0xF8, 0xFA),
        ThemeToken::RowHover => Color::rgb(0xED, 0xF1, 0xF7),
        ThemeToken::TextPrimary => Color::rgb(0x16, 0x18, 0x1D),
        ThemeToken::TextSecondary => Color::rgb(0x5B, 0x62, 0x70),
        ThemeToken::TextOnAccent => Color::rgb(0xFF, 0xFF, 0xFF),
        ThemeToken::Border => Color::rgb(0xDD, 0xE1, 0xE7),
        ThemeToken::SelectionActive => Color::rgb(0x2C, 0x6B, 0xD8),
        ThemeToken::SelectionInactive => Color::rgb(0xDC, 0xE1, 0xE8),
        ThemeToken::MarkActive => Color::rgb(0x7A, 0x2A, 0x00),
        ThemeToken::FocusRing => Color::rgb(0x2C, 0x6B, 0xD8),
        ThemeToken::PaneActiveIndicator => Color::rgb(0x2C, 0x6B, 0xD8),
        ThemeToken::StatusError => Color::rgb(0xB3, 0x26, 0x1E),
        ThemeToken::StatusWarning => Color::rgb(0x7A, 0x4E, 0x00),
        ThemeToken::StatusSuccess => Color::rgb(0x14, 0x6C, 0x2E),
    }
}

fn dark_color_of(t: ThemeToken) -> (r: Color)
    ensures
        r == dark_color(t),
{
    match t {
        ThemeToken::SurfaceWindow => Color::rgb(0x1C, 0x1D, 0x21),
        ThemeToken::SurfacePane => Color::rgb(0x23, 0x24, 0x29),
        ThemeToken::SurfacePreview => Color::rgb(0x19, 0x1A, 0x1E),
        ThemeToken::SurfaceHeader => Color::rgb(0x26, 0x28, 0x2E),
        ThemeToken::RowAlternate => Color::rgb(0x26, 0x28, 0x2E),
        ThemeToken::RowHover => Color::rgb(0x2D, 0x30, 0x38),
        ThemeToken::TextPrimary => Color::rgb(0xE9, 0xEA, 0xEE),
        ThemeToken::TextSecondary => Color::rgb(0xA0, 0xA6, 0xB2),
        ThemeToken::TextOnAccent => Color::rgb(0xFF, 0xFF, 0xFF),
        ThemeToken::Border => Color::rgb(0x34, 0x36, 0x3D),
        ThemeToken::SelectionActive => Color::rgb(0x36, 0x70, 0xD0),
        ThemeToken::SelectionInactive => Color::rgb(0x33, 0x35, 0x3C),
        ThemeToken::MarkActive => Color::rgb(0xF0, 0xA4, 0x5A),
        ThemeToken::FocusRing => Color::rgb(0x7F, 0xB4, 0xFF),
        ThemeToken::PaneActiveIndicator => Color::rgb(0x7F, 0xB4, 0xFF),
        ThemeToken::StatusError => Color::rgb(0xFF, 0x8A, 0x84),
        ThemeToken::StatusWarning => Color::rgb(0xF0, 0xC0, 0x5A),
        ThemeToken::StatusSuccess => Color::rgb(0x6E, 0xD2, 0x8F),
    }
}

/// Every token but the text drawn on an accent fill looks different in the
/// light and the dark appearance.
pub proof fn law_tokens_differ_between_appearances(t: ThemeToken)
    requires
        t != ThemeToken::TextOnAccent,
    ensures
        light_color(t) != dark_color(t),
{
}

/// A mark never looks like the selection, in either appearance.
pub proof fn law_mark_is_not_selection(theme: ResolvedTheme)
    ensures
        token_color(theme, ThemeToken::MarkActive) != token_color(theme, ThemeToken::SelectionActive),
{
}

/// The token a name stands for.
pub open spec fn token_named(s: Seq<char>) -> Option<ThemeToken> {
    if s == "surface.window"@ {
        Some(ThemeToken::SurfaceWindow)
    } else if s == "surface.pane"@ {
        Some(ThemeToken::SurfacePane)
    } else if s == "surface.preview"@ {
        Some(ThemeToken::SurfacePreview)
    } else if s == "surface.header"@ {
        Some(ThemeToken::SurfaceHeader)
    } else if s == "row.alternate"@ {
        Some(ThemeToken::RowAlternate)
    } else if s == "row.hover"@ {
        Some(ThemeToken::RowHover)
    } else if s == "text.primary"@ {
        Some(ThemeToken::TextPrimary)
    } else if s == "text.secondary"@ {
        Some(ThemeToken::TextSecondary)
    } else if s == "text.on_accent"@ {
        Some(ThemeToken::TextOnAccent)
    } else if s == "border"@ {
        Some(ThemeToken::Border)
    } else if s == "selection.active"@ {
        Some(ThemeToken::SelectionActive)
    } else if s == "selection.inactive"@ {
        Some(ThemeToken::SelectionInactive)
    } else if s == "mark.active"@ {
        Some(ThemeToken::MarkActive)
    } else if s == "focus.ring"@ {
        Some(ThemeToken::FocusRing)
    } else if s == "pane.active_indicator"@ {
        Some(ThemeToken::PaneActiveIndicator)
    } else if s == "status.error"@ {
        Some(ThemeToken::StatusError)
    } else if s == "status.warning"@ {
        Some(ThemeToken::StatusWarning)
    } else if s == "status.success"@ {
        Some(ThemeToken::StatusSuccess)
    } else {
        None
    }
}

/// Each token's name reads back as that token.
proof fn lemma_token_named(t: ThemeToken)
    ensures
        token_named(token_name(t)) == Some(t),
{
    reveal_strlit("surface.window");
    reveal_strlit("surface.pane");
    reveal_strlit("surface.preview");
    reveal_strlit("surface.header");
    reveal_strlit("row.alternate");
    reveal_strlit("row.hover");
    reveal_strlit("text.primary");
    reveal_strlit("text.secondary");
    reveal_strlit("text.on_accent");
    reveal_strlit("border");
    reveal_strlit("selection.active");
    reveal_strlit("selection.inactive");
    reveal_strlit("mark.active");
    reveal_strlit("focus.ring");
    reveal_strlit("pane.active_indicator");
    reveal_strlit("status.error");
    reveal_strlit("status.warning");
    reveal_strlit("status.success");
    match t {
        ThemeToken::SurfaceWindow => {
        },
        ThemeToken::SurfacePane => {
            assert("surface.pane"@.len() != "surface.window"@.len());
        },
        ThemeToken::SurfacePreview => {
            assert("surface.preview"@.len() != "surface.window"@.len());
            assert("surface.preview"@.len() != "surface.pane"@.len());
        },
        ThemeToken::SurfaceHeader => {
            assert("surface.header"@[8] != "surface.window"@[8]);
            assert("surface.header"@.len() != "surface.pane"@.len());
            assert("surface.header"@.len() != "surface.preview"@.len());
        },
        ThemeToken::RowAlternate => {
            assert("row.alternate"@.len() != "surface.window"@.len());
            assert("row.alternate"@.len() != "surface.pane"@.len());
            assert("row.alternate"@.len() != "surface.preview"@.len());
            assert("row.alternate"@.len() != "surface.header"@.len());
        },
        ThemeToken::RowHover => {
            assert("row.hover"@.len() != "surface.window"@.len());
            assert("row.hover"@.len() != "surface.pane"@.len());
            assert("row.hover"@.len() != "surface.preview"@.len());
            assert("row.hover"@.len() != "surface.header"@.len());
            assert("row.hover"@.len() != "row.alternate"@.len());
        },
        ThemeToken::TextPrimary => {
            assert("text.primary"@.len() != "surface.window"@.len());
            assert("text.primary"@[0] != "surface.pane"@[0]);
            assert("text.primary"@.len() != "surface.preview"@.len());
            assert("text.primary"@.len() != "surface.header"@.len());
            assert("text.primary"@.len() != "row.alternate"@.len());
            assert("text.primary"@.len() != "row.hover"@.len());
        },
        ThemeToken::TextSecondary => {
            assert("text.secondary"@[0] != "surface.window"@[0]);
            assert("text.secondary"@.len() != "surface.pane"@.len());
            assert("text.secondary"@.len() != "surface.preview"@.len());
            assert("text.secondary"@[0] != "surface.header"@[0]);
            assert("text.secondary"@.len() != "row.alternate"@.len());
            assert("text.secondary"@.len() != "row.hover"@.len());
            assert("text.secondary"@.len() != "text.primary"@.len());
        },
        ThemeToken::TextOnAccent => {
            assert("text.on_accent"@[0] != "surface.window"@[0]);
            assert("text.on_accent"@.len() != "surface.pane"@.len());
            assert("text.on_accent"@.len() != "surface.preview"@.len());
            assert("text.on_accent"@[0] != "surface.header"@[0]);
            assert("text.on_accent"@.len() != "row.alternate"@.len());
            assert("text.on_accent"@.len() != "row.hover"@.len());
            assert("text.on_accent"@.len() != "text.primary"@.len());
            assert("text.on_accent"@[5] != "text.secondary"@[5]);
        },
        ThemeToken::Border => {
            assert("border"@.len() != "surface.window"@.len());
            assert("border"@.len() != "surface.pane"@.len());
            assert("border"@.len() != "surface.preview"@.len());
            assert("border"@.len() != "surface.header"@.len());
            assert("border"@.len() != "row.alternate"@.len());
            assert("border"@.len() != "row.hover"@.len());
            assert("border"@.len() != "text.primary"@.len());
            assert("border"@.len() != "text.secondary"@.len());
            assert("border"@.len() != "text.on_accent"@.len());
        },
        ThemeToken::SelectionActive => {
            assert("selection.active"@.len() != "surface.window"@.len());
            assert("selection.active"@.len() != "surface.pane"@.len());
            assert("selection.active"@.len() != "surface.preview"@.len());
            assert("selection.active"@.len() != "surface.header"@.len());
            assert("selection.active"@.len() != "row.alternate"@.len());
            assert("selection.active"@.len() != "row.hover"@.len());
            assert("selection.active"@.len() != "text.primary"@.len());
            assert("selection.active"@.len() != "text.secondary"@.len());
            assert("selection.active"@.len() != "text.on_accent"@.len());
            assert("selection.active"@.len() != "border"@.len());
        },
        ThemeToken::SelectionInactive => {
            assert("selection.inactive"@.len() != "surface.window"@.len());
            assert("selection.inactive"@.len() != "surface.pane"@.len());
            assert("selection.inactive"@.len() != "surface.preview"@.len());
            assert("selection.inactive"@.len() != "surface.header"@.len());
            assert("selection.inactive"@.len() != "row.alternate"@.len());
            assert("selection.inactive"@.len() != "row.hover"@.len());
            assert("selection.inactive"@.len() != "text.primary"@.len());
            assert("selection.inactive"@.len() != "text.secondary"@.len());
            assert("selection.inactive"@.len() != "text.on_accent"@.len());
            assert("selection.inactive"@.len() != "border"@.len());
            assert("selection.inactive"@.len() != "selection.active"@.len());
        },
        ThemeToken::MarkActive => {
            assert("mark.active"@.len() != "surface.window"@.len());
            assert("mark.active"@.len() != "surface.pane"@.len());
            assert("mark.active"@.len() != "surface.preview"@.len());
            assert("mark.active"@.len() != "surface.header"@.len());
            assert("mark.active"@.len() != "row.alternate"@.len());
            assert("mark.active"@.len() != "row.hover"@.len());
            assert("mark.active"@.len() != "text.primary"@.len());
            assert("mark.active"@.len() != "text.secondary"@.len());
            assert("mark.active"@.len() != "text.on_accent"@.len());
            assert("mark.active"@.len() != "border"@.len());
            assert("mark.active"@.len() != "selection.active"@.len());
            assert("mark.active"@.len() != "selection.inactive"@.len());
        },
        ThemeToken::FocusRing => {
            assert("focus.ring"@.len() != "surface.window"@.len());
            assert("focus.ring"@.len() != "surface.pane"@.len());
            assert("focus.ring"@.len() != "surface.preview"@.len());
            assert("focus.ring"@.len() != "surface.header"@.len());
            assert("focus.ring"@.len() != "row.alternate"@.len());
            assert("focus.ring"@.len() != "row.hover"@.len());
            assert("focus.ring"@.len() != "text.primary"@.len());
            assert("focus.ring"@.len() != "text.secondary"@.len());
            assert("focus.ring"@.len() != "text.on_accent"@.len());
            assert("focus.ring"@.len() != "border"@.len());
            assert("focus.ring"@.len() != "selection.active"@.len());
            assert("focus.ring"@.len() != "selection.inactive"@.len());
            assert("focus.ring"@.len() != "mark.active"@.len());
        },
        ThemeToken::PaneActiveIndicator => {
            assert("pane.active_indicator"@.len() != "surface.window"@.len());
            assert("pane.active_indicator"@.len() != "surface.pane"@.len());
            assert("pane.active_indicator"@.len() != "surface.preview"@.len());
            assert("pane.active_indicator"@.len() != "surface.header"@.len());
            assert("pane.active_indicator"@.len() != "row.alternate"@.len());
            assert("pane.active_indicator"@.len() != "row.hover"@.len());
            assert("pane.active_indicator"@.len() != "text.primary"@.len());
            assert("pane.active_indicator"@.len() != "text.secondary"@.len());
            assert("pane.active_indicator"@.len() != "text.on_accent"@.len());
            assert("pane.active_indicator"@.len() != "border"@.len());
            assert("pane.active_indicator"@.len() != "selection.active"@.len());
            assert("pane.active_indicator"@.len() != "selection.inactive"@.len());
            assert("pane.active_indicator"@.len() != "mark.active"@.len());
            assert("pane.active_indicator"@.len() != "focus.ring"@.len());
        },
        ThemeToken::StatusError => {
            assert("status.error"@.len() != "surface.window"@.len());
            assert("status.error"@[1] != "surface.pane"@[1]);
            assert("status.error"@.len() != "surface.preview"@.len());
            assert("status.error"@.len() != "surface.header"@.len());
            assert("status.error"@.len() != "row.alternate"@.len());
            assert("status.error"@.len() != "row.hover"@.len());
            assert("status.error"@[0] != "text.primary"@[0]);
            assert("status.error"@.len() != "text.secondary"@.len());
            assert("status.error"@.len() != "text.on_accent"@.len());
            assert("status.error"@.len() != "border"@.len());
            assert("status.error"@.len() != "selection.active"@.len());
            assert("status.error"@.len() != "selection.inactive"@.len());
            assert("status.error"@.len() != "mark.active"@.len());
            assert("status.error"@.len() != "focus.ring"@.len());
            assert("status.error"@.len() != "pane.active_indicator"@.len());
        },
        ThemeToken::StatusWarning => {
            assert("status.warning"@[1] != "surface.window"@[1]);
            assert("status.warning"@.len() != "surface.pane"@.len());
            assert("status.warning"@.len() != "surface.preview"@.len());
            assert("status.warning"@[1] != "surface.header"@[1]);
            assert("status.warning"@.len() != "row.alternate"@.len());
            assert("status.warning"@.len() != "row.hover"@.len());
            assert("status.warning"@.len() != "text.primary"@.len());
            assert("status.warning"@[0] != "text.secondary"@[0]);
            assert("status.warning"@[0] != "text.on_accent"@[0]);
            assert("status.warning"@.len() != "border"@.len());
            assert("status.warning"@.len() != "selection.active"@.len());
            assert("status.warning"@.len() != "selection.inactive"@.len());
            assert("status.warning"@.len() != "mark.active"@.len());
            assert("status.warning"@.len() != "focus.ring"@.len());
            assert("status.warning"@.len() != "pane.active_indicator"@.len());
            assert("status.warning"@.len() != "status.error"@.len());
        },
        ThemeToken::StatusSuccess => {
            assert("status.success"@[1] != "surface.window"@[1]);
            assert("status.success"@.len() != "surface.pane"@.len());
            assert("status.success"@.len() != "surface.preview"@.len());
            assert("status.success"@[1] != "surface.header"@[1]);
            assert("status.success"@.len() != "row.alternate"@.len());
            assert("status.success"@.len() != "row.hover"@.len());
            assert("status.success"@.len() != "text.primary"@.len());
            assert("status.success"@[0] != "text.secondary"@[0]);
            assert("status.success"@[0] != "text.on_accent"@[0]);
            assert("status.success"@.len() != "border"@.len());
            assert("status.success"@.len() != "selection.active"@.len());
            assert("status.success"@.len() != "selection.inactive"@.len());
            assert("status.success"@.len() != "mark.active"@.len());
            assert("status.success"@.len() != "focus.ring"@.len());
            assert("status.success"@.len() != "pane.active_indicator"@.len());
            assert("status.success"@.len() != "status.error"@.len());
            assert("status.success"@[7] != "status.warning"@[7]);
        },
    }
}

/// Token names are unique: two tokens never share a name.
pub proof fn law_token_names_unique(a: ThemeToken, b: ThemeToken)
    requires
        a != b,
    ensures
        token_name(a) != token_name(b),
{
    lemma_token_named(a);
    lemma_token_named(b);
}

} // verus!
