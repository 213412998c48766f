//! Plain forms of the toolkit's layout and text settings.
use vstd::prelude::*;

verus! {

/// Vertical alignment.
#[derive(Debug, Clone, Copy, PartialEq, Eq, Structural)]
pub enum VerticalDef {
    /// Align top
    Top,
    /// Vertically centered
    Center,
    /// Align bottom
    Bottom,
}

/// Horizontal alignment.
#[derive(Debug, Clone, Copy, PartialEq, Eq, Structural)]
pub enum HorizontalDef {
    /// Align left
    Left,
    /// Horizontally centered
    Center,
    /// Align right
    Right,
}

/// The identifier of a widget.
#[derive(Debug, Clone, PartialEq, Eq)]
pub enum Id {
    /// A fresh identifier, made when the widget is built.
    Unique,
    /// An identifier chosen by name.
    Custom(String),
}

impl Id {
    /// Creates a custom [`Id`].
    pub fn new(id: String) -> (r: Id)
        ensures
            r matches Id::Custom(s) && s@ == id@,
    {
        Id::Custom(id)
    }

    /// Creates a unique [`Id`]: the widget gets a fresh identifier each time
    /// one is built from it.
    pub fn unique() -> (r: Id)
        ensures
            r is Unique,
    {
        Id::Unique
    }
}

/// A font family.
#[derive(Debug, Clone, PartialEq, Eq)]
pub enum Family {
    /// The name of a font family of choice.
    Name(String),
    /// Serif fonts represent the formal text style for a script.
    Serif,
    /// Sans-serif fonts: low contrast, plain stroke endings.
    SansSerif,
    /// Cursive fonts: an informal, handwritten style.
    Cursive,
    /// Fantasy fonts: decorative or expressive.
    Fantasy,
    /// All glyphs have the same fixed width.
    Monospace,
}

/// The weight of some text.
#[derive(Debug, Clone, Copy, PartialEq, Eq, Structural)]
pub enum WeightDef {
    Thin,
    ExtraLight,
    Light,
    Normal,
    Medium,
    Semibold,
    Bold,
    ExtraBold,
    Black,
}

/// The width of some text.
#[derive(Debug, Clone, Copy, PartialEq, Eq, Structural)]
pub enum StretchDef {
    UltraCondensed,
    ExtraCondensed,
    Condensed,
    SemiCondensed,
    Normal,
    SemiExpanded,
    Expanded,
    ExtraExpanded,
    UltraExpanded,
}

/// The style of some text.
#[derive(Debug, Clone, Copy, PartialEq, Eq, Structural)]
pub enum StyleDef {
    Normal,
    Italic,
    Oblique,
}

/// The shaping strategy of some text.
#[derive(Debug, Clone, Copy, PartialEq, Eq, Structural)]
pub enum ShapingDef {
    /// No shaping and no font fallback. The default.
    Basic,
    /// Advanced text shaping and font fallback.
    Advanced,
}

/// The wrapping strategy of some text.
#[derive(Debug, Clone, Copy, PartialEq, Eq, Structural)]
pub enum WrappingDef {
    /// No wrapping.
    NoWrapping,
    /// Wraps at the word level. The default.
    Word,
    /// Wraps at the glyph level.
    Glyph,
    /// Wraps at the word level, or at the glyph level where a word does not
    /// fit on a line by itself.
    WordOrGlyph,
}

/// Alignment on the axis of a container.
#[derive(Debug, Clone, Copy, PartialEq, Eq, Structural)]
pub enum AlignmentDef {
    /// Align at the start of the axis.
    Start,
    /// Align at the center of the axis.
    Center,
    /// Align at the end of the axis.
    End,
}

} // verus!
