//! Terminal text styles: colours, modifier bits and the style record applied to spans.
use vstd::prelude::*;

verus! {

/// A terminal colour.
#[derive(Clone, Copy, Debug, PartialEq, Eq)]
pub enum Color {
    Reset,
    Black,
    Red,
    Green,
    Yellow,
    Blue,
    Magenta,
    Cyan,
    Gray,
    DarkGray,
    LightRed,
    LightGreen,
    LightYellow,
    LightBlue,
    LightMagenta,
    LightCyan,
    White,
    Rgb(u8, u8, u8),
    Indexed(u8),
}

/// Bold text.
pub const BOLD: u16 = 1;
/// Dim text.
pub const DIM: u16 = 2;
/// Italic text.
pub const ITALIC: u16 = 4;
/// Underlined text.
pub const UNDERLINED: u16 = 8;
/// Slowly blinking text.
pub const SLOW_BLINK: u16 = 16;
/// Rapidly blinking text.
pub const RAPID_BLINK: u16 = 32;
/// Reversed foreground and background.
pub const REVERSED: u16 = 64;
/// Hidden text.
pub const HIDDEN: u16 = 128;
/// Crossed-out text.
pub const CROSSED_OUT: u16 = 256;

/// A style: optional colours, the modifiers it adds and the modifiers it removes.
#[derive(Clone, Copy, Debug, PartialEq, Eq)]
pub struct Style {
    pub fg: Option<Color>,
    pub bg: Option<Color>,
    pub add_modifier: u16,
    pub sub_modifier: u16,
}

impl Style {
    /// The empty style: no colours, no modifiers.
    pub open spec fn empty() -> Style {
        Style { fg: None, bg: None, add_modifier: 0, sub_modifier: 0 }
    }

    /// This style with its foreground colour replaced.
    pub open spec fn with_fg(self, color: Color) -> Style {
        Style { fg: Some(color), ..self }
    }

    /// This style with the modifier bits `m` added (and no longer removed).
    pub open spec fn with_modifier(self, m: u16) -> Style {
        Style { add_modifier: self.add_modifier | m, sub_modifier: self.sub_modifier & !m, ..self }
    }

    /// The empty style.
    pub fn new() -> (r: Style)
        ensures
            r == Style::empty(),
    {
        Style { fg: None, bg: None, add_modifier: 0, sub_modifier: 0 }
    }

    /// Replaces the foreground colour.
    pub fn fg(self, color: Color) -> (r: Style)
        ensures
            r == self.with_fg(color),
    {
        Style { fg: Some(color), ..self }
    }

    /// Adds the modifier bits `m`, removing them from the removed set.
    pub fn add_modifier(self, m: u16) -> (r: Style)
        ensures
            r == self.with_modifier(m),
    {
        Style { add_modifier: self.add_modifier | m, sub_modifier: self.sub_modifier & !m, ..self }
    }

    /// Adds the italic modifier.
    pub fn italic(self) -> (r: Style)
        ensures
            r == self.with_modifier(ITALIC),
    {
        self.add_modifier(ITALIC)
    }
}

impl Default for Style {
    fn default() -> (r: Style)
        ensures
            r == Style::empty(),
    {
        Style::new()
    }
}

/// The accent colour of headings, bullets and code.
pub open spec fn sky() -> Color {
    Color::Rgb(56, 189, 248)
}

/// The colour of links.
pub open spec fn blue() -> Color {
    Color::Rgb(96, 165, 250)
}

/// The colour of secondary decorations: rules, separators, link targets.
pub open spec fn text_dim() -> Color {
    Color::Rgb(107, 114, 128)
}

/// The colour of quoted text.
pub open spec fn text_muted() -> Color {
    Color::Rgb(156, 163, 175)
}

/// The accent colour of headings, bullets and code.
pub fn deepseek_sky() -> (c: Color)
    ensures
        c == sky(),
{
    Color::Rgb(56, 189, 248)
}

/// The colour of links.
pub fn deepseek_blue() -> (c: Color)
    ensures
        c == blue(),
{
    Color::Rgb(96, 165, 250)
}

/// The colour of secondary decorations.
pub fn dim_color() -> (c: Color)
    ensures
        c == text_dim(),
{
    Color::Rgb(107, 114, 128)
}

/// The colour of quoted text.
pub fn muted_color() -> (c: Color)
    ensures
        c == text_muted(),
{
    Color::Rgb(156, 163, 175)
}

} // verus!
