//! Styled text, as it is to be shown.

use vstd::prelude::*;

verus! {

/// A terminal colour.
#[derive(Clone, Copy, Debug, PartialEq, Eq, Structural)]
pub enum Color {
    Black,
    Cyan,
    DarkGray,
    Gray,
    Red,
    White,
    Yellow,
}

/// How text is shown. What is absent stays as it is.
#[derive(Clone, Copy, Debug, PartialEq, Eq, Structural)]
pub struct Style {
    pub fg: Option<Color>,
    pub bg: Option<Color>,
    pub bold: bool,
    pub dim: bool,
}

/// A piece of text in one style.
#[derive(Debug)]
pub struct Span {
    pub text: String,
    pub style: Style,
}

/// A line of text.
#[derive(Debug)]
pub struct Line {
    pub spans: Vec<Span>,
}

/// Lines of text on a background style.
#[derive(Debug)]
pub struct Paragraph {
    pub lines: Vec<Line>,
    pub style: Style,
}

/// A piece of text in one style, with the text as characters.
#[verifier::ext_equal]
pub struct SpanModel {
    pub text: Seq<char>,
    pub style: Style,
}

/// Lines of text on a background style, with the text as characters.
#[verifier::ext_equal]
pub struct ParagraphModel {
    pub lines: Seq<Seq<SpanModel>>,
    pub style: Style,
}

impl View for Span {
    type V = SpanModel;

    open spec fn view(&self) -> SpanModel {
        SpanModel { text: self.text@, style: self.style }
    }
}

/// The models of a sequence of spans.
pub open spec fn span_models(s: Seq<Span>) -> Seq<SpanModel> {
    s.map_values(|x: Span| x@)
}

impl View for Line {
    type V = Seq<SpanModel>;

    open spec fn view(&self) -> Seq<SpanModel> {
        span_models(self.spans@)
    }
}

/// The models of a sequence of lines.
pub open spec fn line_models(s: Seq<Line>) -> Seq<Seq<SpanModel>> {
    s.map_values(|x: Line| x@)
}

impl View for Paragraph {
    type V = ParagraphModel;

    open spec fn view(&self) -> ParagraphModel {
        ParagraphModel { lines: line_models(self.lines@), style: self.style }
    }
}

/// No style at all.
pub open spec fn plain() -> Style {
    Style { fg: None, bg: None, bold: false, dim: false }
}

/// Text in a colour.
pub open spec fn colored(c: Color) -> Style {
    Style { fg: Some(c), ..plain() }
}

/// Bold text in a colour.
pub open spec fn bold(c: Color) -> Style {
    Style { bold: true, ..colored(c) }
}

/// Dim text in a colour.
pub open spec fn dim(c: Color) -> Style {
    Style { dim: true, ..colored(c) }
}

/// Bold text in a colour on another.
pub open spec fn bold_on(fg: Color, bg: Color) -> Style {
    Style { bg: Some(bg), ..bold(fg) }
}

/// No style at all.
pub fn plain_style() -> (s: Style)
    ensures
        s == plain(),
{
    Style { fg: None, bg: None, bold: false, dim: false }
}

/// Text in a colour.
pub fn colored_style(c: Color) -> (s: Style)
    ensures
        s == colored(c),
{
    Style { fg: Some(c), bg: None, bold: false, dim: false }
}

/// Bold text in a colour.
pub fn bold_style(c: Color) -> (s: Style)
    ensures
        s == bold(c),
{
    Style { fg: Some(c), bg: None, bold: true, dim: false }
}

/// Dim text in a colour.
pub fn dim_style(c: Color) -> (s: Style)
    ensures
        s == dim(c),
{
    Style { fg: Some(c), bg: None, bold: false, dim: true }
}

/// Bold text in a colour on another.
pub fn bold_on_style(fg: Color, bg: Color) -> (s: Style)
    ensures
        s == bold_on(fg, bg),
{
    Style { fg: Some(fg), bg: Some(bg), bold: true, dim: false }
}

/// Adds a piece of text to a line.
pub fn push_span(spans: &mut Vec<Span>, text: String, style: Style)
    ensures
        span_models(final(spans)@) == span_models(old(spans)@).push(SpanModel { text: text@, style }),
{
    let ghost before: Seq<Span> = spans@;
    let span: Span = Span { text, style };
    spans.push(span);
    assert(span_models(spans@) =~= span_models(before).push(span@));
}

/// A paragraph of one line.
pub fn one_line(spans: Vec<Span>, style: Style) -> (p: Paragraph)
    ensures
        p@ == (ParagraphModel { lines: seq![span_models(spans@)], style }),
{
    let ghost line: Seq<SpanModel> = span_models(spans@);
    let mut lines: Vec<Line> = Vec::new();
    lines.push(Line { spans });
    assert(line_models(lines@) =~= seq![line]);
    Paragraph { lines, style }
}

/// What the styles are made of.
pub proof fn lemma_styles(c: Color, on: Color)
    ensures
        plain() == (Style { fg: None, bg: None, bold: false, dim: false }),
        colored(c) == (Style { fg: Some(c), bg: None, bold: false, dim: false }),
        bold(c) == (Style { fg: Some(c), bg: None, bold: true, dim: false }),
        dim(c) == (Style { fg: Some(c), bg: None, bold: false, dim: true }),
        bold_on(c, on) == (Style { fg: Some(c), bg: Some(on), bold: true, dim: false }),
{
}

/// The models of styled text are what it holds: the text and the style of each span, in order.
pub proof fn lemma_text_views(p: Paragraph, i: int, k: int)
    ensures
        p@.style == p.style,
        p@.lines.len() == p.lines@.len(),
        0 <= i < p.lines@.len() ==> p@.lines[i].len() == p.lines@[i].spans@.len(),
        0 <= i < p.lines@.len() && 0 <= k < p.lines@[i].spans@.len() ==> p@.lines[i][k].text
            == p.lines@[i].spans@[k].text@ && p@.lines[i][k].style == p.lines@[i].spans@[k].style,
{
}

} // verus!
