//! Styled text: colors, styles, spans and lines.
use vstd::prelude::*;

verus! {

/// A terminal color.
#[derive(Debug, Clone, Copy, PartialEq, Eq, Structural)]
pub enum Color {
    /// The terminal's own color.
    Reset,
    Black,
    Red,
    Green,
    Yellow,
    Blue,
    Magenta,
    Cyan,
    Gray,
    DarkGray,
    LightRed,
    LightGreen,
    LightYellow,
    LightBlue,
    LightMagenta,
    LightCyan,
    White,
    /// A 24-bit color.
    Rgb(u8, u8, u8),
    /// An entry of the 256-color palette.
    Indexed(u8),
}

/// How a piece of text is drawn. A color that is not set stays as it is.
#[derive(Debug, Clone, Copy, PartialEq, Eq, Structural)]
pub struct Style {
    pub fg: Option<Color>,
    pub bg: Option<Color>,
    pub bold: bool,
    pub italic: bool,
    pub underlined: bool,
}

/// The style that sets nothing.
pub open spec fn no_style() -> Style {
    Style { fg: None, bg: None, bold: false, italic: false, underlined: false }
}

impl Default for Style {
    fn default() -> (r: Self)
        ensures
            r == no_style(),
    {
        Style { fg: None, bg: None, bold: false, italic: false, underlined: false }
    }
}

impl Style {
    /// This style with the foreground color `color`.
    pub fn fg(self, color: Color) -> (r: Style)
        ensures
            r == (Style { fg: Some(color), ..self }),
    {
        Style { fg: Some(color), ..self }
    }

    /// This style with the background color `color`.
    pub fn bg(self, color: Color) -> (r: Style)
        ensures
            r == (Style { bg: Some(color), ..self }),
    {
        Style { bg: Some(color), ..self }
    }

    /// This style in bold.
    pub fn bold(self) -> (r: Style)
        ensures
            r == (Style { bold: true, ..self }),
    {
        Style { bold: true, ..self }
    }
}

/// A piece of text in one style.
#[derive(Debug)]
pub struct Span {
    pub content: String,
    pub style: Style,
}

/// The model of a span: its characters and their style.
pub struct SpanModel {
    pub content: Seq<char>,
    pub style: Style,
}

impl Span {
    pub open spec fn view(&self) -> SpanModel {
        SpanModel { content: self.content@, style: self.style }
    }

    /// Text in the style that sets nothing.
    pub fn raw(content: &str) -> (r: Span)
        ensures
            r@ == raw_span(content@),
    {
        Span { content: content.to_owned(), style: Style::default() }
    }

    /// Text in the given style.
    pub fn styled(content: String, style: Style) -> (r: Span)
        ensures
            r@ == styled_span(content@, style),
    {
        Span { content, style }
    }
}

/// Text in the style that sets nothing.
pub open spec fn raw_span(content: Seq<char>) -> SpanModel {
    SpanModel { content, style: no_style() }
}

/// Text in the given style.
pub open spec fn styled_span(content: Seq<char>, style: Style) -> SpanModel {
    SpanModel { content, style }
}

impl Clone for Span {
    fn clone(&self) -> (r: Self)
        ensures
            r == *self,
    {
        Span { content: self.content.clone(), style: self.style }
    }
}

/// One row of the screen, as spans from left to right.
#[derive(Debug)]
pub struct Line {
    pub spans: Vec<Span>,
}

/// The models of a sequence of spans.
pub open spec fn span_models(spans: Seq<Span>) -> Seq<SpanModel> {
    spans.map_values(|s: Span| s@)
}

impl Line {
    pub open spec fn view(&self) -> Seq<SpanModel> {
        span_models(self.spans@)
    }
}

/// The models of a sequence of lines.
pub open spec fn line_models(lines: Seq<Line>) -> Seq<Seq<SpanModel>> {
    lines.map_values(|l: Line| l@)
}

impl Clone for Line {
    fn clone(&self) -> (r: Self)
        ensures
            r@ == self@,
    {
        let spans = self.spans.clone();
        assert(span_models(spans@) =~= span_models(self.spans@));
        Line { spans }
    }
}

} // verus!
