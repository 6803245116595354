//! The color settings a user picks: a named theme, and when to color at all.
use vstd::prelude::*;
use crate::render::{Theme, fg_style, plain_theme};
use crate::style::{Color, Style, empty_style};

verus! {

/// A named color theme.
#[derive(Debug, Clone, Copy, PartialEq, Eq, Structural)]
pub enum ThemeName {
    Grey,
    Mono,
    Neon,
    Dim,
    /// No colors.
    Plain,
}

/// When to emit ANSI color.
#[derive(Debug, Clone, Copy, PartialEq, Eq, Structural)]
pub enum ColorMode {
    /// Only when standard output is a terminal.
    Auto,
    Always,
    Never,
}

/// `s` on every kind of cell but labels, which get `label`.
pub open spec fn lines_and_labels(s: Style, label: Style) -> Theme {
    Theme { border: s, label: label, edge: s, arrow: s, crossing: s }
}

/// The theme of each name.
pub open spec fn theme_of(name: ThemeName) -> Theme {
    match name {
        ThemeName::Grey => lines_and_labels(fg_style(Color::Sgr(90)), empty_style()),
        ThemeName::Mono => Theme {
            border: fg_style(Color::Sgr(90)),
            label: empty_style(),
            edge: fg_style(Color::Sgr(90)),
            arrow: fg_style(Color::Sgr(97)),
            crossing: fg_style(Color::Sgr(93)),
        },
        ThemeName::Neon => Theme {
            border: fg_style(Color::Rgb(188, 19, 254)),
            label: fg_style(Color::Rgb(255, 255, 255)),
            edge: fg_style(Color::Rgb(110, 190, 130)),
            arrow: fg_style(Color::Rgb(110, 190, 130)),
            crossing: fg_style(Color::Rgb(255, 20, 147)),
        },
        ThemeName::Dim => lines_and_labels(Style { dim: true, ..empty_style() }, Style { dim: true, ..empty_style() }),
        ThemeName::Plain => lines_and_labels(empty_style(), empty_style()),
    }
}

/// Only the plain theme leaves every kind of cell unstyled; every other
/// named theme colors or dims something.
pub proof fn law_only_plain_is_plain(name: ThemeName)
    ensures
        plain_theme(theme_of(name)) <==> name == ThemeName::Plain,
{
    match name {
        ThemeName::Plain => {},
        _ => {
            assert(theme_of(name).border != empty_style());
        },
    }
}

/// Different names give different themes.
pub proof fn law_themes_distinct(a: ThemeName, b: ThemeName)
    ensures
        theme_of(a) == theme_of(b) ==> a == b,
{
    if theme_of(a) == theme_of(b) && a != b {
        let (ta, tb) = (theme_of(a), theme_of(b));
        assert(ta.border == tb.border && ta.arrow == tb.arrow && ta.label == tb.label);
        assert(false);
    }
}

/// The lines of every named theme but `Plain` and `Dim` carry a foreground
/// color; the dim theme dims every kind of cell instead.
pub proof fn law_colored_lines(name: ThemeName)
    ensures
        name != ThemeName::Plain && name != ThemeName::Dim ==> theme_of(name).border.fg is Some && theme_of(name).edge.fg is Some
            && theme_of(name).arrow.fg is Some && theme_of(name).crossing.fg is Some,
        name == ThemeName::Dim ==> theme_of(name).border.dim && theme_of(name).label.dim && theme_of(name).edge.dim
            && theme_of(name).arrow.dim && theme_of(name).crossing.dim,
{
}

impl ThemeName {
    /// The theme of this name.
    pub fn theme(self) -> (t: Theme)
        ensures
            t == theme_of(self),
    {
        match self {
            ThemeName::Grey => Theme::grey(),
            ThemeName::Mono => Theme::mono(),
            ThemeName::Neon => Theme::neon(),
            ThemeName::Dim => Theme::dim(),
            ThemeName::Plain => Theme::plain(),
        }
    }
}

/// Whether to color: never with `no_color`, else as the mode says, `Auto`
/// following whether standard output is a terminal.
pub open spec fn color_on(no_color: bool, mode: ColorMode, stdout_is_terminal: bool) -> bool {
    !no_color && match mode {
        ColorMode::Always => true,
        ColorMode::Never => false,
        ColorMode::Auto => stdout_is_terminal,
    }
}

pub fn use_color(no_color: bool, mode: ColorMode, stdout_is_terminal: bool) -> (r: bool)
    ensures
        r == color_on(no_color, mode, stdout_is_terminal),
{
    if no_color {
        false
    } else {
        match mode {
            ColorMode::Always => true,
            ColorMode::Never => false,
            ColorMode::Auto => stdout_is_terminal,
        }
    }
}

/// The theme to render with: the named one when coloring, else plain.
pub fn chosen_theme(name: ThemeName, color: bool) -> (t: Theme)
    ensures
        t == (if color {
            theme_of(name)
        } else {
            theme_of(ThemeName::Plain)
        }),
{
    if color {
        name.theme()
    } else {
        Theme::plain()
    }
}

} // verus!
