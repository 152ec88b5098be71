//! The styled-text model the reader renders into: colors, styles, spans
//! and lines, with value-level views for contracts.
use vstd::prelude::*;

verus! {

/// A 24-bit terminal color.
#[derive(Clone, Copy, Debug, PartialEq, Eq, Structural)]
pub enum Color {
    Rgb(u8, u8, u8),
}

/// Foreground, background and the text modifiers the reader uses.
#[derive(Clone, Copy, Debug, PartialEq, Eq, Structural)]
pub struct Style {
    pub fg: Option<Color>,
    pub bg: Option<Color>,
    pub bold: bool,
    pub italic: bool,
    pub crossed_out: bool,
}

impl Style {
    /// The style with nothing set.
    pub open spec fn plain() -> Style {
        Style { fg: None, bg: None, bold: false, italic: false, crossed_out: false }
    }

    pub fn new() -> (s: Style)
        ensures
            s == Style::plain(),
    {
        Style { fg: None, bg: None, bold: false, italic: false, crossed_out: false }
    }

    /// The plain style with foreground `c`.
    pub open spec fn spec_fg(c: Color) -> Style {
        Style { fg: Some(c), ..Style::plain() }
    }

    pub fn fg(c: Color) -> (s: Style)
        ensures
            s == Style::spec_fg(c),
    {
        Style { fg: Some(c), bg: None, bold: false, italic: false, crossed_out: false }
    }

    /// The plain style with background `c`.
    pub fn bg(c: Color) -> (s: Style)
        ensures
            s == (Style { bg: Some(c), ..Style::plain() }),
    {
        Style { fg: None, bg: Some(c), bold: false, italic: false, crossed_out: false }
    }

    /// The plain style with foreground `c`, in bold.
    pub open spec fn spec_fg_bold(c: Color) -> Style {
        Style { fg: Some(c), bold: true, ..Style::plain() }
    }

    pub fn fg_bold(c: Color) -> (s: Style)
        ensures
            s == Style::spec_fg_bold(c),
    {
        Style { fg: Some(c), bg: None, bold: true, italic: false, crossed_out: false }
    }
}

/// A piece of text drawn in one style.
pub struct Span {
    pub content: String,
    pub style: Style,
}

/// The value of a span: its characters and its style.
pub struct SpanView {
    pub content: Seq<char>,
    pub style: Style,
}

impl View for Span {
    type V = SpanView;

    open spec fn view(&self) -> SpanView {
        SpanView { content: self.content@, style: self.style }
    }
}

impl Span {
    pub fn styled(content: String, style: Style) -> (s: Span)
        ensures
            s@ == (SpanView { content: content@, style }),
    {
        Span { content, style }
    }

    /// A span in the plain style.
    pub fn raw(content: String) -> (s: Span)
        ensures
            s@ == (SpanView { content: content@, style: Style::plain() }),
    {
        Span { content, style: Style::new() }
    }

    pub fn copy(&self) -> (s: Span)
        ensures
            s@ == self@,
    {
        Span { content: self.content.clone(), style: self.style }
    }
}

pub open spec fn spans_view(v: Seq<Span>) -> Seq<SpanView> {
    v.map_values(|s: Span| s@)
}

/// A line of spans.
pub struct Line {
    pub spans: Vec<Span>,
}

impl View for Line {
    type V = Seq<SpanView>;

    open spec fn view(&self) -> Seq<SpanView> {
        spans_view(self.spans@)
    }
}

impl Line {
    pub fn empty() -> (l: Line)
        ensures
            l@ == Seq::<SpanView>::empty(),
    {
        let l = Line { spans: Vec::new() };
        assert(l@ =~= Seq::<SpanView>::empty());
        l
    }

    pub fn copy(&self) -> (l: Line)
        ensures
            l@ == self@,
    {
        let mut spans: Vec<Span> = Vec::new();
        let mut k: usize = 0;
        while k < self.spans.len()
            invariant
                0 <= k <= self.spans@.len(),
                spans_view(spans@) == spans_view(self.spans@).take(k as int),
            decreases self.spans@.len() - k,
        {
            let s = self.spans[k].copy();
            let ghost old_spans = spans@;
            spans.push(s);
            assert(spans_view(spans@) =~= spans_view(old_spans).push(self.spans@[k as int]@));
            k = k + 1;
            assert(spans_view(spans@) =~= spans_view(self.spans@).take(k as int));
        }
        assert(spans_view(self.spans@).take(self.spans@.len() as int) =~= spans_view(self.spans@));
        Line { spans }
    }
}

/// The displayed width of `s` in terminal columns, as `unicode_width` computes it.
pub uninterp spec fn display_width(s: Seq<char>) -> usize;

/// Printable ASCII: `' '` to `'~'`.
pub open spec fn is_printable_ascii(s: Seq<char>) -> bool {
    forall|i: int| 0 <= i < s.len() ==> ' ' <= #[trigger] s[i] <= '~'
}

/// Calls `UnicodeWidthStr::width`; the result is named `display_width` of the string.
/// A string of printable ASCII characters is one column per character (each character
/// below U+00A1 other than a `'\r'` before `'\n'` counts 1 in `width_in_str`).
#[verifier::external_body]
pub(crate) fn str_width(s: &str) -> (w: usize)
    ensures
        w == display_width(s@),
        is_printable_ascii(s@) ==> w == s@.len(),
{
    unicode_width::UnicodeWidthStr::width(s)
}

} // verus!
