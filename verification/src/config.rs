//! Configuration values for typesetting that carry no measurements: the source
//! format, page-break rules, colors, alignments and table borders.

use vstd::prelude::*;

use crate::text::{chars_of, decimal, eq_str, lower_all, lowercase, push_decimal, push_str, string_of};

verus! {

/// Source document format.
#[derive(Debug, Clone, Copy, PartialEq, Eq, Structural)]
pub enum InputFormat {
    /// `CommonMark` / `GitHub`-flavored Markdown.
    Markdown,
    /// Raw text; blank lines separate paragraphs.
    Plaintext,
    /// HTML markup.
    Html,
}

impl Default for InputFormat {
    fn default() -> (r: Self)
        ensures
            r == InputFormat::Markdown,
    {
        InputFormat::Markdown
    }
}

/// The format guessed from a lowercase extension.
pub open spec fn format_for_extension(ext: Seq<char>) -> Option<InputFormat> {
    if ext == "md"@ || ext == "markdown"@ || ext == "mdown"@ || ext == "mkd"@ {
        Some(InputFormat::Markdown)
    } else if ext == "txt"@ || ext == "text"@ {
        Some(InputFormat::Plaintext)
    } else if ext == "html"@ || ext == "htm"@ || ext == "xhtml"@ {
        Some(InputFormat::Html)
    } else {
        None
    }
}

impl InputFormat {
    /// Best-guess format from a file extension (ASCII case-insensitive).
    pub fn from_extension(ext: &str) -> (r: Option<Self>)
        ensures
            r == format_for_extension(lower_all(ext@)),
    {
        let e = lowercase(&chars_of(ext));
        if eq_str(&e, "md") || eq_str(&e, "markdown") || eq_str(&e, "mdown") || eq_str(&e, "mkd") {
            Some(InputFormat::Markdown)
        } else if eq_str(&e, "txt") || eq_str(&e, "text") {
            Some(InputFormat::Plaintext)
        } else if eq_str(&e, "html") || eq_str(&e, "htm") || eq_str(&e, "xhtml") {
            Some(InputFormat::Html)
        } else {
            None
        }
    }
}

/// The text to typeset, plus its format.
#[derive(Debug, Clone)]
pub struct TypesetInput {
    pub text: String,
    pub format: InputFormat,
}

/// Where a page break falls relative to a line matching a [`PageBreakRule`].
#[derive(Debug, Clone, Copy, PartialEq, Eq, Structural)]
pub enum BreakPosition {
    /// Break after the matched line; the line stays on the current page.
    After,
    /// Break before the matched line; the line starts the next page.
    Before,
    /// Drop the matched line and break in its place.
    Replace,
}

impl Default for BreakPosition {
    fn default() -> (r: Self)
        ensures
            r == BreakPosition::After,
    {
        BreakPosition::After
    }
}

/// A user-defined page break: when a line equals `pattern` (both trimmed),
/// insert a page break before or after it, or in place of it.
#[derive(Debug, Clone)]
pub struct PageBreakRule {
    pub pattern: String,
    pub position: BreakPosition,
}

impl PageBreakRule {
    /// A rule for `pattern`.
    pub fn new(pattern: &str, position: BreakPosition) -> (r: Self)
        ensures
            r.pattern@ == pattern@,
            r.position == position,
    {
        PageBreakRule { pattern: string_of(&chars_of(pattern)), position }
    }
}

/// An sRGB color; `Default` is black.
#[derive(Debug, Clone, Copy, PartialEq, Eq, Structural)]
pub struct Color {
    pub r: u8,
    pub g: u8,
    pub b: u8,
}

impl Default for Color {
    fn default() -> (c: Self)
        ensures
            c == (Color { r: 0, g: 0, b: 0 }),
    {
        Color { r: 0, g: 0, b: 0 }
    }
}

/// `rgb(r, g, b)`.
pub open spec fn rgb_literal(c: Color) -> Seq<char> {
    "rgb("@ + decimal(c.r as nat) + ", "@ + decimal(c.g as nat) + ", "@ + decimal(c.b as nat) + ")"@
}

impl Color {
    /// A color from its channels.
    pub fn new(r: u8, g: u8, b: u8) -> (c: Self)
        ensures
            c == (Color { r, g, b }),
    {
        Color { r, g, b }
    }

    /// True when fully black: used to skip redundant `fill:` rules.
    pub fn is_black(self) -> (res: bool)
        ensures
            res == (self.r == 0 && self.g == 0 && self.b == 0),
    {
        self.r == 0 && self.g == 0 && self.b == 0
    }

    /// Render as a Typst `rgb(r, g, b)` color literal.
    pub fn to_typst(self) -> (s: String)
        ensures
            s@ == rgb_literal(self),
    {
        let mut out: Vec<char> = Vec::new();
        push_str(&mut out, "rgb(");
        push_decimal(&mut out, self.r as u64);
        push_str(&mut out, ", ");
        push_decimal(&mut out, self.g as u64);
        push_str(&mut out, ", ");
        push_decimal(&mut out, self.b as u64);
        push_str(&mut out, ")");
        string_of(&out)
    }
}

/// Horizontal alignment for headings.
#[derive(Debug, Clone, Copy, PartialEq, Eq, Structural)]
pub enum HAlign {
    Left,
    Center,
    Right,
}

impl Default for HAlign {
    fn default() -> (r: Self)
        ensures
            r == HAlign::Left,
    {
        HAlign::Left
    }
}

/// The Typst keyword of an alignment.
pub open spec fn halign_keyword(a: HAlign) -> Seq<char> {
    match a {
        HAlign::Left => "left"@,
        HAlign::Center => "center"@,
        HAlign::Right => "right"@,
    }
}

impl HAlign {
    /// Render as a Typst alignment keyword.
    pub fn to_typst(self) -> (s: &'static str)
        ensures
            s@ == halign_keyword(self),
    {
        match self {
            HAlign::Left => "left",
            HAlign::Center => "center",
            HAlign::Right => "right",
        }
    }
}

/// Which borders a table draws.
#[derive(Debug, Clone, Copy, PartialEq, Eq, Structural)]
pub enum TableBorder {
    /// Full grid (rows and columns).
    All,
    /// Horizontal rules only (between rows).
    Horizontal,
    /// No borders.
    NoBorders,
}

impl Default for TableBorder {
    fn default() -> (r: Self)
        ensures
            r == TableBorder::All,
    {
        TableBorder::All
    }
}

} // verus!
