//! Drawable primitives: a styled text run, an image, or a filled rectangle,
//! and the same anchored at an absolute page position.

use vstd::prelude::*;
use crate::resources::Resources;
use crate::style::{Class, Style};
use crate::util::{font_height, spec_font_height, spec_width_of_text, width_of_text};

verus! {

/// One drawable primitive. A text run is measured against the resource
/// cache; images and rectangles carry their size explicitly.
#[derive(Debug)]
pub enum Span {
    Text { text: String, style: Style },
    Image { width: u64, height: u64, path: String },
    Rect { width: u64, height: u64 },
}

/// The mathematical content of a `Span`: what it draws, with strings as
/// character sequences and styles as attribute sets. Contracts compare
/// spans through this projection.
pub enum SpanV {
    Text { text: Seq<char>, style: Set<Class> },
    Image { width: u64, height: u64, path: Seq<char> },
    Rect { width: u64, height: u64 },
}

/// The content of a span.
pub open spec fn sv(s: Span) -> SpanV {
    match s {
        Span::Text { text, style } => SpanV::Text { text: text@, style: style@ },
        Span::Image { width, height, path } => SpanV::Image { width, height, path: path@ },
        Span::Rect { width, height } => SpanV::Rect { width, height },
    }
}

/// The contents of a sequence of spans, in order.
pub open spec fn svs(spans: Seq<Span>) -> Seq<SpanV> {
    spans.map_values(|s: Span| sv(s))
}

pub proof fn lemma_svs_push(spans: Seq<Span>, s: Span)
    ensures
        svs(spans.push(s)) == svs(spans).push(sv(s)),
{
    assert(svs(spans.push(s)) =~= svs(spans).push(sv(s)));
}

impl Span {
    pub fn text(text: String, style: Style) -> (r: Span)
        ensures
            sv(r) == (SpanV::Text { text: text@, style: style@ }),
    {
        Span::Text { text, style }
    }

    pub fn image(width: u64, height: u64, path: String) -> (r: Span)
        ensures
            sv(r) == (SpanV::Image { width, height, path: path@ }),
    {
        Span::Image { width, height, path }
    }

    pub fn rect(width: u64, height: u64) -> (r: Span)
        ensures
            sv(r) == (SpanV::Rect { width, height }),
    {
        Span::Rect { width, height }
    }

    /// The horizontal room the span takes on a line.
    pub open spec fn spec_width(self, res: Resources) -> int {
        match self {
            Span::Text { text, style } => spec_width_of_text(res, style, text@),
            Span::Image { width, .. } => width as int,
            Span::Rect { width, .. } => width as int,
        }
    }

    /// The vertical room the span asks for.
    pub open spec fn spec_height(self, res: Resources) -> int {
        match self {
            Span::Text { style, .. } => spec_font_height(res, style),
            Span::Image { height, .. } => height as int,
            Span::Rect { height, .. } => height as int,
        }
    }

    pub fn width(&self, resources: &Resources) -> (w: u64)
        requires
            resources.fonts_ready(),
        ensures
            w as int == self.spec_width(*resources),
    {
        match self {
            Span::Text { text, style } => width_of_text(resources, style, text.as_str()),
            Span::Image { width, .. } => *width,
            Span::Rect { width, .. } => *width,
        }
    }

    pub fn height(&self, resources: &Resources) -> (h: u64)
        requires
            resources.fonts_ready(),
        ensures
            h as int == self.spec_height(*resources),
    {
        match self {
            Span::Text { style, .. } => font_height(resources, style),
            Span::Image { height, .. } => *height,
            Span::Rect { height, .. } => *height,
        }
    }

    /// A copy with the same content.
    pub fn duplicate(&self) -> (r: Span)
        ensures
            sv(r) == sv(*self),
    {
        match self {
            Span::Text { text, style } => Span::Text { text: text.clone(), style: style.duplicate() },
            Span::Image { width, height, path } => Span::Image {
                width: *width,
                height: *height,
                path: path.clone(),
            },
            Span::Rect { width, height } => Span::Rect { width: *width, height: *height },
        }
    }
}

/// Measurement looks at a style only through its attribute set.
pub proof fn lemma_style_view_measures(s1: Style, s2: Style, text: Seq<char>, res: Resources)
    requires
        s1@ == s2@,
    ensures
        spec_width_of_text(res, s1, text) == spec_width_of_text(res, s2, text),
        spec_font_height(res, s1) == spec_font_height(res, s2),
{
}

/// A span anchored at an absolute position on a page. The position is the
/// `(x, y)` pair of its left edge and baseline, with the origin at the
/// bottom left corner of the page.
#[derive(Debug)]
pub struct PositionedSpan {
    pub span: Span,
    pub pos: (u64, u64),
}

impl PositionedSpan {
    pub fn new(span: Span, x: u64, y: u64) -> (r: PositionedSpan)
        ensures
            sv(r.span) == sv(span),
            r.pos == (x, y),
    {
        let pos = (x, y);
        PositionedSpan { span, pos }
    }
}

} // verus!
