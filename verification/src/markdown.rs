//! Rendering markdown into styled, word-wrapped lines.
//!
//! `pulldown_cmark` parses the source into events; the renderer here folds
//! those events into lines. The fold is stated as `spec_render` and the
//! executable renderer is proved equal to it.
use vstd::prelude::*;
use pulldown_cmark::{Event as Ev, Options as O, Tag as T, TagEnd as E};
use crate::style::{Color, Line, Span, SpanView, Style, display_width, spans_view, str_width};
use crate::theme::Theme;
use crate::text::{byte_len, chars_of, is_char_boundary, lines, string_of, words};

verus! {

/// Column alignment of a table.
#[derive(Clone, Copy, Debug, PartialEq, Eq, Structural)]
pub enum Align {
    Unset,
    Left,
    Center,
    Right,
}

/// The parser events the renderer acts on.
pub enum MdEvent {
    StartHeading(u8),
    StartCodeBlock,
    StartBlockQuote,
    StartList(Option<u64>),
    StartItem,
    StartEmphasis,
    StartStrong,
    StartStrikethrough,
    StartTable(Vec<Align>),
    EndHeading,
    EndParagraph,
    EndCodeBlock,
    EndBlockQuote,
    EndList,
    EndItem,
    EndEmphasis,
    EndStrong,
    EndStrikethrough,
    EndTable,
    EndTableHead,
    EndTableRow,
    Text(String),
    Code(String),
    /// A task marker, checked or not, with the byte offset where it starts.
    TaskListMarker(bool, usize),
    LineBreak,
    Rule,
    Other,
}

#[verifier::external_type_specification]
#[verifier::external_body]
pub struct ExCowStr<'a>(pulldown_cmark::CowStr<'a>);

#[verifier::external_type_specification]
pub struct ExHeadingLevel(pulldown_cmark::HeadingLevel);

#[verifier::external_type_specification]
pub struct ExBlockQuoteKind(pulldown_cmark::BlockQuoteKind);

#[verifier::external_type_specification]
pub struct ExMetadataBlockKind(pulldown_cmark::MetadataBlockKind);

#[verifier::external_type_specification]
pub struct ExLinkType(pulldown_cmark::LinkType);

#[verifier::external_type_specification]
pub struct ExAlignment(pulldown_cmark::Alignment);

#[verifier::external_type_specification]
pub struct ExCodeBlockKind<'a>(pulldown_cmark::CodeBlockKind<'a>);

#[verifier::external_type_specification]
pub struct ExTag<'a>(pulldown_cmark::Tag<'a>);

#[verifier::external_type_specification]
pub struct ExTagEnd(pulldown_cmark::TagEnd);

#[verifier::external_type_specification]
pub struct ExEvent<'a>(pulldown_cmark::Event<'a>);

/// The alignment of a table column, variant for variant.
pub open spec fn spec_align(a: pulldown_cmark::Alignment) -> Align {
    match a {
        pulldown_cmark::Alignment::None => Align::Unset,
        pulldown_cmark::Alignment::Left => Align::Left,
        pulldown_cmark::Alignment::Center => Align::Center,
        pulldown_cmark::Alignment::Right => Align::Right,
    }
}

fn align_of(a: &pulldown_cmark::Alignment) -> (r: Align)
    ensures
        r == spec_align(*a),
{
    match a {
        pulldown_cmark::Alignment::None => Align::Unset,
        pulldown_cmark::Alignment::Left => Align::Left,
        pulldown_cmark::Alignment::Center => Align::Center,
        pulldown_cmark::Alignment::Right => Align::Right,
    }
}

/// The alignments of a table's columns, in order.
fn aligns_of(aligns: &Vec<pulldown_cmark::Alignment>) -> (r: Vec<Align>)
    ensures
        r@ == aligns@.map_values(|a: pulldown_cmark::Alignment| spec_align(a)),
{
    let mut r: Vec<Align> = Vec::new();
    let mut i: usize = 0;
    while i < aligns.len()
        invariant
            0 <= i <= aligns@.len(),
            r@ == aligns@.take(i as int).map_values(|a: pulldown_cmark::Alignment| spec_align(a)),
        decreases aligns@.len() - i,
    {
        r.push(align_of(&aligns[i]));
        assert(aligns@.take(i + 1).drop_last() =~= aligns@.take(i as int));
        i = i + 1;
    }
    assert(aligns@.take(i as int) =~= aligns@);
    r
}

/// The number of a heading level: 1 for `H1` through 6 for `H6`.
pub open spec fn level_number(l: pulldown_cmark::HeadingLevel) -> u8 {
    match l {
        pulldown_cmark::HeadingLevel::H1 => 1,
        pulldown_cmark::HeadingLevel::H2 => 2,
        pulldown_cmark::HeadingLevel::H3 => 3,
        pulldown_cmark::HeadingLevel::H4 => 4,
        pulldown_cmark::HeadingLevel::H5 => 5,
        pulldown_cmark::HeadingLevel::H6 => 6,
    }
}

fn heading_number(l: pulldown_cmark::HeadingLevel) -> (n: u8)
    ensures
        n == level_number(l),
{
    match l {
        pulldown_cmark::HeadingLevel::H1 => 1,
        pulldown_cmark::HeadingLevel::H2 => 2,
        pulldown_cmark::HeadingLevel::H3 => 3,
        pulldown_cmark::HeadingLevel::H4 => 4,
        pulldown_cmark::HeadingLevel::H5 => 5,
        pulldown_cmark::HeadingLevel::H6 => 6,
    }
}

/// `pulldown_cmark::CowStr::into_string`: the same text as an owned `String`.
/// A `CowStr` is opaque here, so what that text is stays unstated.
#[verifier::external_body]
fn cow_string(s: pulldown_cmark::CowStr<'_>) -> String {
    s.into_string()
}

/// The event the renderer sees for a start tag: the tags it acts on, with
/// what it reads of them; any other tag is `Other`.
pub open spec fn start_converted(tag: pulldown_cmark::Tag, r: MdEvent) -> bool {
    match tag {
        T::Heading { level, .. } => r == MdEvent::StartHeading(level_number(level)),
        T::CodeBlock(_) => r == MdEvent::StartCodeBlock,
        T::BlockQuote(_) => r == MdEvent::StartBlockQuote,
        T::List(start) => r == MdEvent::StartList(start),
        T::Item => r == MdEvent::StartItem,
        T::Emphasis => r == MdEvent::StartEmphasis,
        T::Strong => r == MdEvent::StartStrong,
        T::Strikethrough => r == MdEvent::StartStrikethrough,
        T::Table(aligns) => r matches MdEvent::StartTable(v) && v@ == aligns@.map_values(
            |a: pulldown_cmark::Alignment| spec_align(a),
        ),
        _ => r == MdEvent::Other,
    }
}

fn start_event(tag: pulldown_cmark::Tag<'_>) -> (r: MdEvent)
    ensures
        start_converted(tag, r),
{
    match tag {
        T::Heading { level, .. } => MdEvent::StartHeading(heading_number(level)),
        T::CodeBlock(_) => MdEvent::StartCodeBlock,
        T::BlockQuote(_) => MdEvent::StartBlockQuote,
        T::List(start) => MdEvent::StartList(start),
        T::Item => MdEvent::StartItem,
        T::Emphasis => MdEvent::StartEmphasis,
        T::Strong => MdEvent::StartStrong,
        T::Strikethrough => MdEvent::StartStrikethrough,
        T::Table(aligns) => MdEvent::StartTable(aligns_of(&aligns)),
        _ => MdEvent::Other,
    }
}

/// The event the renderer sees for an end tag; any tag it does not act on is `Other`.
pub open spec fn spec_end_event(tag: pulldown_cmark::TagEnd) -> MdEvent {
    match tag {
        E::Heading(_) => MdEvent::EndHeading,
        E::Paragraph => MdEvent::EndParagraph,
        E::CodeBlock => MdEvent::EndCodeBlock,
        E::BlockQuote(_) => MdEvent::EndBlockQuote,
        E::List(_) => MdEvent::EndList,
        E::Item => MdEvent::EndItem,
        E::Emphasis => MdEvent::EndEmphasis,
        E::Strong => MdEvent::EndStrong,
        E::Strikethrough => MdEvent::EndStrikethrough,
        E::Table => MdEvent::EndTable,
        E::TableHead => MdEvent::EndTableHead,
        E::TableRow => MdEvent::EndTableRow,
        _ => MdEvent::Other,
    }
}

fn end_event(tag: pulldown_cmark::TagEnd) -> (r: MdEvent)
    ensures
        r == spec_end_event(tag),
{
    match tag {
        E::Heading(_) => MdEvent::EndHeading,
        E::Paragraph => MdEvent::EndParagraph,
        E::CodeBlock => MdEvent::EndCodeBlock,
        E::BlockQuote(_) => MdEvent::EndBlockQuote,
        E::List(_) => MdEvent::EndList,
        E::Item => MdEvent::EndItem,
        E::Emphasis => MdEvent::EndEmphasis,
        E::Strong => MdEvent::EndStrong,
        E::Strikethrough => MdEvent::EndStrikethrough,
        E::Table => MdEvent::EndTable,
        E::TableHead => MdEvent::EndTableHead,
        E::TableRow => MdEvent::EndTableRow,
        _ => MdEvent::Other,
    }
}

/// The event the renderer sees for a parser event whose source range starts at
/// byte `start`: text and code keep their strings, a task marker keeps where it
/// starts, both kinds of line break are one, and what the renderer does not
/// act on is `Other`.
pub open spec fn event_converted(event: pulldown_cmark::Event, start: usize, r: MdEvent) -> bool {
    match event {
        Ev::Start(tag) => start_converted(tag, r),
        Ev::End(tag) => r == spec_end_event(tag),
        Ev::Text(_) => r is Text,
        Ev::Code(_) => r is Code,
        Ev::TaskListMarker(checked) => r == MdEvent::TaskListMarker(checked, start),
        Ev::SoftBreak => r == MdEvent::LineBreak,
        Ev::HardBreak => r == MdEvent::LineBreak,
        Ev::Rule => r == MdEvent::Rule,
        _ => r == MdEvent::Other,
    }
}

/// Converts one parser event with the start of its source range.
pub fn md_event(event: pulldown_cmark::Event<'_>, start: usize) -> (r: MdEvent)
    ensures
        event_converted(event, start, r),
{
    match event {
        Ev::Start(tag) => start_event(tag),
        Ev::End(tag) => end_event(tag),
        Ev::Text(s) => MdEvent::Text(cow_string(s)),
        Ev::Code(s) => MdEvent::Code(cow_string(s)),
        Ev::TaskListMarker(checked) => MdEvent::TaskListMarker(checked, start),
        Ev::SoftBreak => MdEvent::LineBreak,
        Ev::HardBreak => MdEvent::LineBreak,
        Ev::Rule => MdEvent::Rule,
        _ => MdEvent::Other,
    }
}

/// The events that `pulldown_cmark` yields for a source with these characters,
/// with strikethrough, tables and task lists enabled.
pub uninterp spec fn md_events(source: Seq<char>) -> Seq<MdEvent>;

/// Runs `pulldown_cmark::Parser::new_ext` (strikethrough, tables, task lists) over
/// `source` with `into_offset_iter` and converts each event; the result is named
/// `md_events` of the source.
#[verifier::external_body]
pub(crate) fn markdown_events(source: &str) -> (r: Vec<MdEvent>)
    ensures
        r@ == md_events(source@),
{
    let opts = O::ENABLE_STRIKETHROUGH | O::ENABLE_TABLES | O::ENABLE_TASKLISTS;
    let parser = pulldown_cmark::Parser::new_ext(source, opts);
    parser.into_offset_iter().map(|(event, range)| md_event(event, range.start)).collect()
}

/// A rendered line with what navigation needs to know of it.
pub struct StyledLine {
    pub line: Line,
    pub is_blank: bool,
    pub is_heading: bool,
    pub heading_level: Option<u8>,
    pub heading_text: Option<String>,
    /// Source line number for task list items (used for checkbox toggling)
    pub source_line: Option<usize>,
}

pub struct StyledLineView {
    pub line: Seq<SpanView>,
    pub is_blank: bool,
    pub is_heading: bool,
    pub heading_level: Option<u8>,
    pub heading_text: Option<Seq<char>>,
    pub source_line: Option<usize>,
}

pub open spec fn opt_view(s: Option<String>) -> Option<Seq<char>> {
    match s {
        Some(t) => Some(t@),
        None => None,
    }
}

impl View for StyledLine {
    type V = StyledLineView;

    open spec fn view(&self) -> StyledLineView {
        StyledLineView {
            line: self.line@,
            is_blank: self.is_blank,
            is_heading: self.is_heading,
            heading_level: self.heading_level,
            heading_text: opt_view(self.heading_text),
            source_line: self.source_line,
        }
    }
}

pub open spec fn lines_view(v: Seq<StyledLine>) -> Seq<StyledLineView> {
    v.map_values(|l: StyledLine| l@)
}

impl StyledLine {
    pub fn copy(&self) -> (r: StyledLine)
        ensures
            r@ == self@,
    {
        let heading_text = match &self.heading_text {
            Some(t) => Some(t.clone()),
            None => None,
        };
        StyledLine {
            line: self.line.copy(),
            is_blank: self.is_blank,
            is_heading: self.is_heading,
            heading_level: self.heading_level,
            heading_text,
            source_line: self.source_line,
        }
    }

    pub fn blank() -> (r: StyledLine)
        ensures
            r@ == blank_line(),
    {
        StyledLine {
            line: Line::empty(),
            is_blank: true,
            is_heading: false,
            heading_level: None,
            heading_text: None,
            source_line: None,
        }
    }
}

/// The blank separator line.
pub open spec fn blank_line() -> StyledLineView {
    StyledLineView {
        line: seq![],
        is_blank: true,
        is_heading: false,
        heading_level: None,
        heading_text: None,
        source_line: None,
    }
}

/// The characters of a line, span after span.
pub open spec fn line_text(spans: Seq<SpanView>) -> Seq<char>
    decreases spans.len(),
{
    if spans.len() == 0 {
        seq![]
    } else {
        line_text(spans.drop_last()) + spans.last().content
    }
}

pub fn line_text_of(spans: &Vec<Span>) -> (r: String)
    ensures
        r@ == line_text(spans_view(spans@)),
{
    let mut acc: Vec<char> = Vec::new();
    let mut k: usize = 0;
    while k < spans.len()
        invariant
            0 <= k <= spans@.len(),
            acc@ == line_text(spans_view(spans@).take(k as int)),
        decreases spans@.len() - k,
    {
        let c = chars_of(spans[k].content.as_str());
        crate::text::push_all(&mut acc, &c);
        k = k + 1;
        assert(spans_view(spans@).take(k as int).drop_last() =~= spans_view(spans@).take(k - 1));
    }
    assert(spans_view(spans@).take(k as int) =~= spans_view(spans@));
    string_of(acc.as_slice())
}

/// `a + b`, or `usize::MAX` where that overflows.
pub open spec fn sat_add(a: int, b: int) -> usize {
    if a + b > usize::MAX {
        usize::MAX
    } else {
        (a + b) as usize
    }
}

/// The columns the spans of a line take.
pub open spec fn spans_width(spans: Seq<SpanView>) -> usize
    decreases spans.len(),
{
    if spans.len() == 0 {
        0
    } else {
        sat_add(spans_width(spans.drop_last()) as int, display_width(spans.last().content) as int)
    }
}

pub(crate) fn current_line_len(spans: &Vec<Span>) -> (r: usize)
    ensures
        r == spans_width(spans_view(spans@)),
{
    let mut total: usize = 0;
    let mut k: usize = 0;
    while k < spans.len()
        invariant
            0 <= k <= spans@.len(),
            total == spans_width(spans_view(spans@).take(k as int)),
        decreases spans@.len() - k,
    {
        let w = str_width(spans[k].content.as_str());
        total = total.saturating_add(w);
        k = k + 1;
        assert(spans_view(spans@).take(k as int).drop_last() =~= spans_view(spans@).take(k - 1));
    }
    assert(spans_view(spans@).take(k as int) =~= spans_view(spans@));
    total
}

} // verus!

verus! {

/// What the renderer knows besides the events: the theme, the width of the
/// text area, and the source bytes (task markers report a byte offset).
pub struct RenderCtx {
    pub theme: Theme,
    pub width: u16,
    pub src: Seq<u8>,
}

/// The renderer's state between events.
pub struct RenderView {
    pub lines: Seq<StyledLineView>,
    pub spans: Seq<SpanView>,
    pub bold: bool,
    pub italic: bool,
    pub strike: bool,
    pub heading: Option<u8>,
    pub code_block: bool,
    pub blockquote: bool,
    pub list_item: bool,
    /// One entry per open list: the next number of an ordered list, `None` for a bullet list.
    pub list_stack: Seq<Option<u64>>,
    pub first_para: bool,
    pub list_indent: usize,
    pub table: bool,
    pub row: Seq<Seq<char>>,
    pub aligns: Seq<Align>,
    pub task_line: Option<usize>,
}

pub open spec fn render_init() -> RenderView {
    RenderView {
        lines: seq![],
        spans: seq![],
        bold: false,
        italic: false,
        strike: false,
        heading: None,
        code_block: false,
        blockquote: false,
        list_item: false,
        list_stack: seq![],
        first_para: false,
        list_indent: 0,
        table: false,
        row: seq![],
        aligns: seq![],
        task_line: None,
    }
}

/// Ends the line being built, if it has any span.
pub open spec fn spec_flush(st: RenderView, source_line: Option<usize>) -> RenderView {
    if st.spans.len() == 0 {
        st
    } else {
        RenderView {
            lines: st.lines.push(
                StyledLineView {
                    line: st.spans,
                    is_blank: false,
                    is_heading: false,
                    heading_level: None,
                    heading_text: None,
                    source_line,
                },
            ),
            spans: seq![],
            ..st
        }
    }
}

/// Ends the line being built as a heading line.
pub open spec fn spec_flush_heading(st: RenderView) -> RenderView {
    if st.spans.len() == 0 {
        st
    } else {
        RenderView {
            lines: st.lines.push(
                StyledLineView {
                    line: st.spans,
                    is_blank: false,
                    is_heading: true,
                    heading_level: st.heading,
                    heading_text: Some(line_text(st.spans)),
                    source_line: None,
                },
            ),
            spans: seq![],
            ..st
        }
    }
}

pub open spec fn spec_push_blank(st: RenderView) -> RenderView {
    RenderView { lines: st.lines.push(blank_line()), ..st }
}

pub open spec fn spec_push_line(st: RenderView, content: Seq<char>, style: Style) -> RenderView {
    RenderView {
        lines: st.lines.push(
            StyledLineView {
                line: seq![SpanView { content, style }],
                is_blank: false,
                is_heading: false,
                heading_level: None,
                heading_text: None,
                source_line: None,
            },
        ),
        ..st
    }
}

pub open spec fn spec_push_span(st: RenderView, content: Seq<char>, style: Style) -> RenderView {
    RenderView { spans: st.spans.push(SpanView { content, style }), ..st }
}

pub open spec fn spaces(n: nat) -> Seq<char> {
    Seq::new(n, |i: int| ' ')
}

pub open spec fn repeat_char(c: char, n: nat) -> Seq<char> {
    Seq::new(n, |i: int| c)
}

/// Decimal digits of `n`.
pub open spec fn decimal(n: nat) -> Seq<char>
    decreases n,
{
    if n < 10 {
        seq![(48 + n) as char]
    } else {
        decimal(n / 10).push((48 + n % 10) as char)
    }
}

/// Columns of bullet indentation at list nesting `depth`.
pub open spec fn nest_cols(depth: nat) -> usize {
    if depth > 1 {
        sat_add((depth - 1) * 4, 0)
    } else {
        0
    }
}

/// The continuation indent a list item starts with at nesting `depth`.
pub open spec fn item_indent(depth: nat) -> usize {
    if depth > 1 {
        sat_add((depth - 1) * 4, 2)
    } else {
        2
    }
}

/// The bullet or number of the next list item, and the list stack after it.
pub open spec fn spec_bullet(stack: Seq<Option<u64>>) -> (Seq<char>, Seq<Option<u64>>) {
    let depth = stack.len();
    let ind = spaces(nest_cols(depth) as nat);
    if depth > 0 && stack.last() is Some {
        let n = stack.last()->0;
        (
            "  "@ + ind + decimal(n as nat) + ". "@,
            stack.update(depth - 1, Some(if n == u64::MAX { n } else { (n + 1) as u64 })),
        )
    } else {
        ("  "@ + ind + "• "@, stack)
    }
}

/// Emits the bullet of the list item that the next text starts.
pub open spec fn spec_bullet_step(st: RenderView, theme: Theme) -> RenderView {
    let (b, stack) = spec_bullet(st.list_stack);
    RenderView {
        list_stack: stack,
        list_indent: display_width(b),
        first_para: false,
        ..spec_push_span(st, b, Style::spec_fg(theme.accent))
    }
}

/// The style of running text in the current state.
pub open spec fn text_style(st: RenderView, theme: Theme) -> Style {
    match st.heading {
        Some(l) => Style::spec_fg_bold(
            if l == 1 {
                theme.accent
            } else if l == 2 {
                theme.heading
            } else {
                theme.text_bright
            },
        ),
        None => if st.code_block {
            Style::spec_fg(theme.text_dim)
        } else {
            Style {
                fg: Some(theme.text),
                bg: None,
                bold: st.bold,
                italic: st.italic,
                crossed_out: st.strike,
            }
        },
    }
}

pub open spec fn heading_prefix(level: u8) -> Seq<char> {
    if level == 1 {
        "# "@
    } else if level == 2 {
        "## "@
    } else if level == 3 {
        "### "@
    } else {
        "#### "@
    }
}

/// One line of a code block: an indent, the line, then the line ends.
pub open spec fn code_step(st: RenderView, line: Seq<char>, style: Style, theme: Theme) -> RenderView {
    spec_flush(spec_push_span(spec_push_span(st, "  "@, Style::spec_fg(theme.text_muted)), line, style), None)
}

pub open spec fn code_fold(st: RenderView, ls: Seq<Seq<char>>, style: Style, theme: Theme) -> RenderView
    decreases ls.len(),
{
    if ls.len() == 0 {
        st
    } else {
        code_step(code_fold(st, ls.drop_last(), style, theme), ls.last(), style, theme)
    }
}

/// Places one word, wrapping first when it would pass `max` columns; `ll` is
/// the width of the line so far.
pub open spec fn wrap_step(st: RenderView, ll: usize, word: Seq<char>, style: Style, max: usize) -> (RenderView, usize) {
    let wl = display_width(word);
    let (s1, l1) = if ll > 0 && ll + 1 + wl > max {
        let f = spec_flush(st, st.task_line);
        if f.list_item && f.list_indent > 0 {
            (spec_push_span(f, spaces(f.list_indent as nat), Style::plain()), f.list_indent)
        } else {
            (f, 0usize)
        }
    } else {
        (st, ll)
    };
    let (s2, l2) = if l1 > 0 {
        (spec_push_span(s1, " "@, Style::plain()), sat_add(l1 as int, 1))
    } else {
        (s1, l1)
    };
    (spec_push_span(s2, word, style), sat_add(l2 as int, wl as int))
}

pub open spec fn wrap_fold(st: RenderView, ll: usize, ws: Seq<Seq<char>>, style: Style, max: usize) -> (RenderView, usize)
    decreases ws.len(),
{
    if ws.len() == 0 {
        (st, ll)
    } else {
        let (s, l) = wrap_fold(st, ll, ws.drop_last(), style, max);
        wrap_step(s, l, ws.last(), style, max)
    }
}

/// The columns running text may fill: the width less a margin of 2.
pub open spec fn wrap_width(width: u16) -> usize {
    (if width >= 2 {
        width - 2
    } else {
        0
    }) as usize
}

/// Text outside a table.
pub open spec fn text_event(st: RenderView, t: Seq<char>, ctx: RenderCtx) -> RenderView {
    let style = text_style(st, ctx.theme);
    if st.code_block {
        code_fold(st, lines(t), style, ctx.theme)
    } else if st.blockquote {
        spec_push_span(spec_push_span(st, "  │ "@, Style::spec_fg(ctx.theme.border)), t, style)
    } else {
        let s1 = match st.heading {
            Some(l) => spec_push_span(st, heading_prefix(l), style),
            None => st,
        };
        let s2 = if s1.first_para {
            spec_bullet_step(s1, ctx.theme)
        } else {
            s1
        };
        wrap_fold(s2, spans_width(s2.spans), words(t), style, wrap_width(ctx.width)).0
    }
}

/// Number of newline bytes in `s`.
pub open spec fn count_newlines(s: Seq<u8>) -> nat
    decreases s.len(),
{
    if s.len() == 0 {
        0
    } else {
        count_newlines(s.drop_last()) + if s.last() == 10u8 {
            1nat
        } else {
            0nat
        }
    }
}

/// The source line (counting from 0) of byte offset `start`.
pub open spec fn line_of_offset(src: Seq<u8>, start: int) -> nat {
    count_newlines(src.take(if start <= src.len() {
        start
    } else {
        src.len() as int
    }))
}

pub open spec fn align_at(aligns: Seq<Align>, i: int) -> Align {
    if 0 <= i < aligns.len() {
        aligns[i]
    } else {
        Align::Unset
    }
}

/// The first characters of `s` that take exactly `k` bytes.
pub open spec fn byte_prefix(s: Seq<char>, k: int) -> Seq<char> {
    s.take(choose|j: int| 0 <= j <= s.len() && byte_len(#[trigger] s.take(j)) == k)
}

/// A table cell as shown: cut to 14 bytes and an ellipsis past 15 bytes,
/// otherwise padded to 15 characters as the alignment says.
pub open spec fn cell_text(cell: Seq<char>, align: Align) -> Seq<char> {
    if byte_len(cell) > 15 {
        byte_prefix(cell, 14) + "…"@
    } else {
        let pad: nat = if cell.len() < 15 {
            (15 - cell.len()) as nat
        } else {
            0
        };
        match align {
            Align::Right => spaces(pad) + cell,
            Align::Center => spaces(pad / 2) + cell + spaces((pad - pad / 2) as nat),
            _ => cell + spaces(pad),
        }
    }
}

/// Cells that can be shown without cutting a character.
pub open spec fn cell_fits(cell: Seq<char>) -> bool {
    byte_len(cell) > 15 ==> is_char_boundary(cell, 14)
}

pub open spec fn row_spans(cells: Seq<Seq<char>>, aligns: Seq<Align>, cell_style: Style, border: Color) -> Seq<SpanView>
    decreases cells.len(),
{
    if cells.len() == 0 {
        seq![SpanView { content: "  "@, style: Style::plain() }]
    } else {
        let k = cells.len() - 1;
        let prev = row_spans(cells.drop_last(), aligns, cell_style, border);
        let with_sep = if k > 0 {
            prev.push(SpanView { content: " │ "@, style: Style::spec_fg(border) })
        } else {
            prev
        };
        with_sep.push(SpanView { content: cell_text(cells[k], align_at(aligns, k)), style: cell_style })
    }
}

pub open spec fn emit_row(st: RenderView, header: bool, theme: Theme) -> RenderView {
    let cell_style = if header {
        Style::spec_fg_bold(theme.accent)
    } else {
        Style::spec_fg(theme.text)
    };
    RenderView {
        lines: st.lines.push(
            StyledLineView {
                line: row_spans(st.row, st.aligns, cell_style, theme.border),
                is_blank: false,
                is_heading: false,
                heading_level: None,
                heading_text: None,
                source_line: None,
            },
        ),
        row: seq![],
        ..st
    }
}

/// The rule under a table's head: one segment per column.
pub open spec fn sep_text(n: nat) -> Seq<char>
    decreases n,
{
    if n == 0 {
        seq![]
    } else if n == 1 {
        "───────"@
    } else {
        sep_text((n - 1) as nat) + "─┼─"@ + "───────"@
    }
}

/// The renderer's reaction to one event.
pub open spec fn spec_step(st: RenderView, ev: MdEvent, ctx: RenderCtx) -> RenderView {
    match ev {
        MdEvent::StartHeading(l) => RenderView { heading: Some(l), ..spec_flush(st, st.task_line) },
        MdEvent::StartCodeBlock => RenderView { code_block: true, ..st },
        MdEvent::StartBlockQuote => RenderView { blockquote: true, ..st },
        MdEvent::StartList(start) => RenderView { list_stack: st.list_stack.push(start), ..st },
        MdEvent::StartItem => RenderView {
            list_item: true,
            first_para: true,
            task_line: None,
            list_indent: item_indent(st.list_stack.len()),
            ..spec_flush(st, st.task_line)
        },
        MdEvent::StartEmphasis => RenderView { italic: true, ..st },
        MdEvent::StartStrong => RenderView { bold: true, ..st },
        MdEvent::StartStrikethrough => RenderView { strike: true, ..st },
        MdEvent::StartTable(a) => RenderView { table: true, aligns: a@, ..st },
        MdEvent::EndHeading => RenderView {
            heading: None,
            ..spec_push_blank(spec_flush_heading(st))
        },
        MdEvent::EndParagraph => {
            let f = spec_flush(st, st.task_line);
            if !st.list_item {
                spec_push_blank(f)
            } else {
                f
            }
        },
        MdEvent::EndCodeBlock => spec_push_blank(RenderView { code_block: false, ..st }),
        MdEvent::EndBlockQuote => RenderView { blockquote: false, ..st },
        MdEvent::EndList => {
            let stack = if st.list_stack.len() > 0 {
                st.list_stack.drop_last()
            } else {
                st.list_stack
            };
            let s = RenderView { list_stack: stack, ..st };
            if stack.len() == 0 {
                spec_push_blank(s)
            } else {
                s
            }
        },
        MdEvent::EndItem => RenderView {
            list_item: false,
            task_line: None,
            ..spec_flush(st, st.task_line)
        },
        MdEvent::EndEmphasis => RenderView { italic: false, ..st },
        MdEvent::EndStrong => RenderView { bold: false, ..st },
        MdEvent::EndStrikethrough => RenderView { strike: false, ..st },
        MdEvent::EndTable => spec_push_blank(RenderView { table: false, aligns: seq![], ..st }),
        MdEvent::EndTableHead => spec_push_line(
            emit_row(st, true, ctx.theme),
            "  "@ + sep_text(st.aligns.len()),
            Style::spec_fg(ctx.theme.border),
        ),
        MdEvent::EndTableRow => emit_row(st, false, ctx.theme),
        MdEvent::Text(t) => if st.table {
            RenderView { row: st.row.push(t@), ..st }
        } else {
            text_event(st, t@, ctx)
        },
        MdEvent::Code(t) => {
            let s1 = if st.first_para {
                spec_bullet_step(st, ctx.theme)
            } else {
                st
            };
            spec_push_span(s1, "`"@ + t@ + "`"@, Style::spec_fg(ctx.theme.accent))
        },
        MdEvent::TaskListMarker(checked, start) => {
            let marker = if checked {
                "  [x] "@
            } else {
                "  [ ] "@
            };
            RenderView {
                task_line: Some(line_of_offset(ctx.src, start as int) as usize),
                list_indent: display_width(marker),
                first_para: false,
                ..spec_push_span(st, marker, Style::spec_fg(ctx.theme.accent))
            }
        },
        MdEvent::LineBreak => spec_flush(st, st.task_line),
        MdEvent::Rule => spec_push_blank(
            spec_push_line(
                spec_flush(st, st.task_line),
                repeat_char('─', wrap_width(ctx.width) as nat),
                Style::spec_fg(ctx.theme.border),
            ),
        ),
        MdEvent::Other => st,
    }
}

/// The state after the events `ev`.
pub open spec fn render_fold(ev: Seq<MdEvent>, ctx: RenderCtx) -> RenderView
    decreases ev.len(),
{
    if ev.len() == 0 {
        render_init()
    } else {
        spec_step(render_fold(ev.drop_last(), ctx), ev.last(), ctx)
    }
}

/// `ls` without its trailing blank lines.
pub open spec fn trim_blank(ls: Seq<StyledLineView>) -> Seq<StyledLineView>
    decreases ls.len(),
{
    if ls.len() > 0 && ls.last().is_blank {
        trim_blank(ls.drop_last())
    } else {
        ls
    }
}

/// The lines that the events `ev` render to.
pub open spec fn spec_render(ev: Seq<MdEvent>, ctx: RenderCtx) -> Seq<StyledLineView> {
    let st = render_fold(ev, ctx);
    trim_blank(spec_flush(st, st.task_line).lines)
}

/// Whether the event `ev` can be handled in state `st` without cutting a character.
pub open spec fn step_ok(st: RenderView, ev: MdEvent) -> bool {
    match ev {
        MdEvent::EndTableHead => cells_fit(st.row),
        MdEvent::EndTableRow => cells_fit(st.row),
        _ => true,
    }
}

pub open spec fn cells_fit(row: Seq<Seq<char>>) -> bool {
    forall|i: int| 0 <= i < row.len() ==> cell_fits(#[trigger] row[i])
}

/// The event sequences that render without cutting a table cell inside a character.
pub open spec fn render_ok(ev: Seq<MdEvent>, ctx: RenderCtx) -> bool {
    forall|k: int| 0 <= k < ev.len() ==> step_ok(#[trigger] render_fold(ev.take(k), ctx), ev[k])
}

} // verus!

verus! {

/// The executable renderer state; its view is a `RenderView`.
struct Render {
    lines: Vec<StyledLine>,
    spans: Vec<Span>,
    bold: bool,
    italic: bool,
    strike: bool,
    heading: Option<u8>,
    code_block: bool,
    blockquote: bool,
    list_item: bool,
    list_stack: Vec<Option<u64>>,
    first_para: bool,
    list_indent: usize,
    table: bool,
    row: Vec<String>,
    aligns: Vec<Align>,
    task_line: Option<usize>,
}

pub open spec fn strings_view(v: Seq<String>) -> Seq<Seq<char>> {
    v.map_values(|s: String| s@)
}

impl View for Render {
    type V = RenderView;

    closed spec fn view(&self) -> RenderView {
        RenderView {
            lines: lines_view(self.lines@),
            spans: spans_view(self.spans@),
            bold: self.bold,
            italic: self.italic,
            strike: self.strike,
            heading: self.heading,
            code_block: self.code_block,
            blockquote: self.blockquote,
            list_item: self.list_item,
            list_stack: self.list_stack@,
            first_para: self.first_para,
            list_indent: self.list_indent,
            table: self.table,
            row: strings_view(self.row@),
            aligns: self.aligns@,
            task_line: self.task_line,
        }
    }
}

/// `n` spaces.
pub(crate) fn spaces_string(n: usize) -> (s: String)
    ensures
        s@ == spaces(n as nat),
{
    repeat_string(' ', n)
}

pub(crate) fn repeat_string(c: char, n: usize) -> (s: String)
    ensures
        s@ == repeat_char(c, n as nat),
{
    let mut v: Vec<char> = Vec::new();
    let mut k: usize = 0;
    while k < n
        invariant
            0 <= k <= n,
            v@ == repeat_char(c, k as nat),
        decreases n - k,
    {
        v.push(c);
        k = k + 1;
        assert(v@ =~= repeat_char(c, k as nat));
    }
    string_of(v.as_slice())
}

/// Appends the decimal digits of `n`.
pub(crate) fn push_decimal(out: &mut Vec<char>, n: u64)
    ensures
        final(out)@ == old(out)@ + decimal(n as nat),
    decreases n,
{
    if n >= 10 {
        push_decimal(out, n / 10);
    }
    let d = (n % 10) as u8;
    out.push((48u8 + d) as char);
    proof {
        if n >= 10 {
            assert(decimal(n as nat) == decimal((n / 10) as nat).push((48 + n % 10) as char));
        }
    }
    assert(final(out)@ =~= old(out)@ + decimal(n as nat));
}

fn sat_mul4_add(d: usize, extra: usize) -> (r: usize)
    requires
        extra <= 2,
    ensures
        r == sat_add(d * 4, extra as int),
{
    if d > (usize::MAX - 2) / 4 {
        assert(d * 4 + extra > usize::MAX) by (nonlinear_arith)
            requires
                d > (usize::MAX - 2) / 4,
                extra <= 2,
        ;
        usize::MAX
    } else {
        assert(d * 4 + extra <= usize::MAX) by (nonlinear_arith)
            requires
                d <= (usize::MAX - 2) / 4,
                extra <= 2,
        ;
        d * 4 + extra
    }
}

impl Render {
    fn new() -> (r: Render)
        ensures
            r@ == render_init(),
    {
        let r = Render {
            lines: Vec::new(),
            spans: Vec::new(),
            bold: false,
            italic: false,
            strike: false,
            heading: None,
            code_block: false,
            blockquote: false,
            list_item: false,
            list_stack: Vec::new(),
            first_para: false,
            list_indent: 0,
            table: false,
            row: Vec::new(),
            aligns: Vec::new(),
            task_line: None,
        };
        assert(r@.lines =~= seq![]);
        assert(r@.spans =~= seq![]);
        assert(r@.row =~= seq![]);
        r
    }

    fn push_styled_line(&mut self, l: StyledLine)
        ensures
            final(self)@ == (RenderView { lines: old(self)@.lines.push(l@), ..old(self)@ }),
    {
        self.lines.push(l);
        assert(lines_view(self.lines@) =~= lines_view(old(self).lines@).push(l@));
    }

    fn take_spans(&mut self) -> (r: Line)
        ensures
            r@ == old(self)@.spans,
            final(self)@ == (RenderView { spans: seq![], ..old(self)@ }),
    {
        let mut spans: Vec<Span> = Vec::new();
        std::mem::swap(&mut spans, &mut self.spans);
        assert(spans_view(self.spans@) =~= seq![]);
        Line { spans }
    }

    fn flush(&mut self, source_line: Option<usize>)
        ensures
            final(self)@ == spec_flush(old(self)@, source_line),
    {
        if self.spans.len() == 0 {
            return;
        }
        let line = self.take_spans();
        self.push_styled_line(
            StyledLine {
                line,
                is_blank: false,
                is_heading: false,
                heading_level: None,
                heading_text: None,
                source_line,
            },
        );
    }

    fn flush_heading(&mut self)
        ensures
            final(self)@ == spec_flush_heading(old(self)@),
    {
        if self.spans.len() == 0 {
            return;
        }
        let text = line_text_of(&self.spans);
        let level = self.heading;
        let line = self.take_spans();
        self.push_styled_line(
            StyledLine {
                line,
                is_blank: false,
                is_heading: true,
                heading_level: level,
                heading_text: Some(text),
                source_line: None,
            },
        );
    }

    fn push_blank(&mut self)
        ensures
            final(self)@ == spec_push_blank(old(self)@),
    {
        self.push_styled_line(StyledLine::blank());
    }

    fn push_line(&mut self, content: String, style: Style)
        ensures
            final(self)@ == spec_push_line(old(self)@, content@, style),
    {
        let mut spans: Vec<Span> = Vec::new();
        spans.push(Span::styled(content, style));
        let line = Line { spans };
        assert(line@ =~= seq![SpanView { content: content@, style }]);
        self.push_styled_line(
            StyledLine {
                line,
                is_blank: false,
                is_heading: false,
                heading_level: None,
                heading_text: None,
                source_line: None,
            },
        );
    }

    fn push_span(&mut self, content: String, style: Style)
        ensures
            final(self)@ == spec_push_span(old(self)@, content@, style),
    {
        let s = Span::styled(content, style);
        self.spans.push(s);
        assert(spans_view(self.spans@) =~= spans_view(old(self).spans@).push(s@));
    }

    fn bullet_step(&mut self, theme: Theme)
        ensures
            final(self)@ == spec_bullet_step(old(self)@, theme),
    {
        let bullet = bullet_text(&mut self.list_stack);
        self.list_indent = str_width(bullet.as_str());
        self.push_span(bullet, Style::fg(theme.accent));
        self.first_para = false;
    }
}

/// The next bullet of the innermost list, numbering ordered lists onward.
fn bullet_text(stack: &mut Vec<Option<u64>>) -> (r: String)
    ensures
        (r@, final(stack)@) == spec_bullet(old(stack)@),
{
    let depth = stack.len();
    let cols = if depth > 1 {
        sat_mul4_add(depth - 1, 0)
    } else {
        0
    };
    let mut b: Vec<char> = chars_of("  ");
    let ind = chars_of(spaces_string(cols).as_str());
    crate::text::push_all(&mut b, &ind);
    if depth > 0 {
        if let Some(n) = stack[depth - 1] {
            push_decimal(&mut b, n);
            let dot = chars_of(". ");
            crate::text::push_all(&mut b, &dot);
            let next = if n == u64::MAX {
                n
            } else {
                n + 1
            };
            stack.set(depth - 1, Some(next));
            let r = string_of(b.as_slice());
            assert(r@ =~= spec_bullet(old(stack)@).0);
            assert(stack@ =~= spec_bullet(old(stack)@).1);
            return r;
        }
    }
    let dot = chars_of("• ");
    crate::text::push_all(&mut b, &dot);
    let r = string_of(b.as_slice());
    assert(r@ =~= spec_bullet(old(stack)@).0);
    r
}

} // verus!

verus! {

impl Render {
    fn style_now(&self, theme: Theme) -> (s: Style)
        ensures
            s == text_style(self@, theme),
    {
        match self.heading {
            Some(l) => Style::fg_bold(
                if l == 1 {
                    theme.accent
                } else if l == 2 {
                    theme.heading
                } else {
                    theme.text_bright
                },
            ),
            None => if self.code_block {
                Style::fg(theme.text_dim)
            } else {
                Style {
                    fg: Some(theme.text),
                    bg: None,
                    bold: self.bold,
                    italic: self.italic,
                    crossed_out: self.strike,
                }
            },
        }
    }

    fn code_lines(&mut self, t: &Vec<char>, style: Style, theme: Theme)
        ensures
            final(self)@ == code_fold(old(self)@, lines(t@), style, theme),
    {
        let ls = crate::text::split_lines(t);
        let ghost st0 = self@;
        let ghost all = crate::text::views_of(ls@);
        let mut k: usize = 0;
        assert(all.take(0) =~= Seq::<Seq<char>>::empty());
        while k < ls.len()
            invariant
                0 <= k <= ls@.len(),
                all == crate::text::views_of(ls@),
                all == lines(t@),
                self@ == code_fold(st0, all.take(k as int), style, theme),
            decreases ls@.len() - k,
        {
            self.push_span("  ".to_owned(), Style::fg(theme.text_muted));
            self.push_span(string_of(ls[k].as_slice()), style);
            self.flush(None);
            k = k + 1;
            assert(all.take(k as int).drop_last() =~= all.take(k - 1));
        }
        assert(all.take(k as int) =~= all);
    }

    fn wrap_words(&mut self, t: &Vec<char>, style: Style, max: usize)
        ensures
            final(self)@ == wrap_fold(old(self)@, spans_width(old(self)@.spans), words(t@), style, max).0,
    {
        let ws = crate::text::split_words(t);
        let ghost st0 = self@;
        let ghost all = crate::text::views_of(ws@);
        let mut ll = current_line_len(&self.spans);
        let ghost ll0 = ll;
        let mut k: usize = 0;
        assert(all.take(0) =~= Seq::<Seq<char>>::empty());
        while k < ws.len()
            invariant
                0 <= k <= ws@.len(),
                all == crate::text::views_of(ws@),
                all == words(t@),
                ll0 == spans_width(st0.spans),
                (self@, ll) == wrap_fold(st0, ll0, all.take(k as int), style, max),
            decreases ws@.len() - k,
        {
            let word = string_of(ws[k].as_slice());
            let wl = str_width(word.as_str());
            let ghost pre = self@;
            if ll > 0 && (ll >= max || wl >= max - ll) {
                let tl = self.task_line;
                self.flush(tl);
                if self.list_item && self.list_indent > 0 {
                    let n = self.list_indent;
                    self.push_span(spaces_string(n), Style::new());
                    ll = n;
                } else {
                    ll = 0;
                }
            }
            if ll > 0 {
                self.push_span(" ".to_owned(), Style::new());
                ll = ll.saturating_add(1);
            }
            self.push_span(word, style);
            ll = ll.saturating_add(wl);
            proof {
                assert(all[k as int] == ws@[k as int]@);
                assert(all.take(k + 1).drop_last() =~= all.take(k as int));
                assert(all.take(k + 1).last() == all[k as int]);
            }
            k = k + 1;
        }
        assert(all.take(k as int) =~= all);
    }

    fn text(&mut self, t: &String, theme: Theme, width: u16)
        ensures
            final(self)@ == text_event(old(self)@, t@, RenderCtx { theme, width, src: arbitrary() }),
    {
        let style = self.style_now(theme);
        let tv = chars_of(t.as_str());
        if self.code_block {
            self.code_lines(&tv, style, theme);
        } else if self.blockquote {
            self.push_span("  │ ".to_owned(), Style::fg(theme.border));
            self.push_span(t.clone(), style);
        } else {
            if let Some(l) = self.heading {
                let prefix = if l == 1 {
                    "# "
                } else if l == 2 {
                    "## "
                } else if l == 3 {
                    "### "
                } else {
                    "#### "
                };
                self.push_span(prefix.to_owned(), style);
            }
            if self.first_para {
                self.bullet_step(theme);
            }
            let max = width.saturating_sub(2) as usize;
            self.wrap_words(&tv, style, max);
        }
    }
}

} // verus!

verus! {

proof fn lemma_prefix_unique(s: Seq<char>, j1: int, j2: int)
    requires
        0 <= j1 <= s.len(),
        0 <= j2 <= s.len(),
        byte_len(s.take(j1)) == byte_len(s.take(j2)),
    ensures
        j1 == j2,
{
    if j1 < j2 {
        crate::text::lemma_byte_len_take_mono(s, j1, j2);
    } else if j2 < j1 {
        crate::text::lemma_byte_len_take_mono(s, j2, j1);
    }
}

/// The first characters of `v` that take exactly `k` bytes.
fn byte_prefix_of(v: &Vec<char>, k: usize) -> (r: Vec<char>)
    requires
        is_char_boundary(v@, k as int),
        k <= 64,
    ensures
        r@ == byte_prefix(v@, k as int),
{
    let ghost jw = choose|j: int| 0 <= j <= v@.len() && byte_len(#[trigger] v@.take(j)) == k;
    let mut total: usize = 0;
    let mut i: usize = 0;
    let n = v.len();
    assert(v@.take(0) =~= Seq::<char>::empty());
    proof {
        crate::text::lemma_byte_len_take_mono(v@, 0, jw);
    }
    while total < k
        invariant
            n == v@.len(),
            0 <= i <= jw <= v@.len(),
            byte_len(v@.take(jw)) == k,
            k <= 64,
            total == byte_len(v@.take(i as int)),
            total <= k,
        decreases jw - i,
    {
        proof {
            if i == jw {
                assert(false);
            }
            crate::text::lemma_byte_len_step(v@, i as int);
            crate::text::lemma_byte_len_take_mono(v@, i + 1, jw);
        }
        total = total + crate::text::char_utf8_width(v[i]);
        i = i + 1;
    }
    proof {
        lemma_prefix_unique(v@, i as int, jw);
    }
    crate::text::sub_chars(v, 0, i)
}

proof fn lemma_boundary_within(s: Seq<char>, k: int)
    requires
        s.len() > 15,
        0 <= k <= 14,
    ensures
        is_char_boundary(s, k) == is_char_boundary(s.take(15), k),
{
    let t = s.take(15);
    if is_char_boundary(s, k) {
        let j = choose|j: int| 0 <= j <= s.len() && byte_len(#[trigger] s.take(j)) == k;
        crate::text::lemma_byte_len_take_mono(s, 0, j);
        assert(s.take(0) =~= Seq::<char>::empty());
        assert(t.take(j) =~= s.take(j));
    }
    if is_char_boundary(t, k) {
        let j = choose|j: int| 0 <= j <= t.len() && byte_len(#[trigger] t.take(j)) == k;
        assert(t.take(j) =~= s.take(j));
    }
}

/// Whether a table cell can be shown without cutting a character.
fn cell_fits_exec(cell: &String) -> (r: bool)
    ensures
        r == cell_fits(cell@),
{
    let v = chars_of(cell.as_str());
    if v.len() <= 15 {
        let (n, at14, _) = crate::text::byte_len_and_boundaries(&v, 14, 14);
        n <= 15 || at14
    } else {
        proof {
            crate::theme::lemma_ascii_byte_len(v@);
            lemma_boundary_within(v@, 14);
        }
        let w = crate::text::sub_chars(&v, 0, 15);
        let (_, at14, _) = crate::text::byte_len_and_boundaries(&w, 14, 14);
        at14
    }
}

/// A cell as the table shows it.
fn cell_text_of(cell: &String, align: Align) -> (r: String)
    requires
        cell_fits(cell@),
    ensures
        r@ == cell_text(cell@, align),
{
    let v = chars_of(cell.as_str());
    proof {
        crate::theme::lemma_ascii_byte_len(v@);
    }
    let long = if v.len() > 15 {
        true
    } else {
        let (n, _, _) = crate::text::byte_len_and_boundaries(&v, 14, 14);
        n > 15
    };
    if long {
        let mut p = byte_prefix_of(&v, 14);
        let ell = chars_of("…");
        crate::text::push_all(&mut p, &ell);
        return string_of(p.as_slice());
    }
    let pad: usize = 15 - v.len();
    match align {
        Align::Right => {
            let mut r = chars_of(spaces_string(pad).as_str());
            crate::text::push_all(&mut r, &v);
            string_of(r.as_slice())
        },
        Align::Center => {
            let mut r = chars_of(spaces_string(pad / 2).as_str());
            crate::text::push_all(&mut r, &v);
            let post = chars_of(spaces_string(pad - pad / 2).as_str());
            crate::text::push_all(&mut r, &post);
            string_of(r.as_slice())
        },
        _ => {
            let mut r = v;
            let post = chars_of(spaces_string(pad).as_str());
            crate::text::push_all(&mut r, &post);
            string_of(r.as_slice())
        },
    }
}

fn sep_string(n: usize) -> (r: String)
    ensures
        r@ == sep_text(n as nat),
{
    let mut v: Vec<char> = Vec::new();
    let seg = chars_of("───────");
    let join = chars_of("─┼─");
    let mut k: usize = 0;
    while k < n
        invariant
            0 <= k <= n,
            seg@ == "───────"@,
            join@ == "─┼─"@,
            v@ == sep_text(k as nat),
        decreases n - k,
    {
        if k > 0 {
            crate::text::push_all(&mut v, &join);
        }
        crate::text::push_all(&mut v, &seg);
        k = k + 1;
        assert(v@ =~= sep_text(k as nat));
    }
    string_of(v.as_slice())
}

/// The source line of byte offset `start`.
fn line_of(src: &[u8], start: usize) -> (r: usize)
    ensures
        r == line_of_offset(src@, start as int),
{
    let end = if start <= src.len() {
        start
    } else {
        src.len()
    };
    let mut count: usize = 0;
    let mut k: usize = 0;
    assert(src@.take(0) =~= Seq::<u8>::empty());
    while k < end
        invariant
            end <= src@.len(),
            0 <= k <= end,
            count <= k,
            count == count_newlines(src@.take(k as int)),
        decreases end - k,
    {
        assert(src@.take(k + 1).drop_last() =~= src@.take(k as int));
        if src[k] == 10u8 {
            count = count + 1;
        }
        k = k + 1;
    }
    count
}

impl Render {
    fn emit_row(&mut self, header: bool, theme: Theme)
        requires
            cells_fit(old(self)@.row),
        ensures
            final(self)@ == emit_row(old(self)@, header, theme),
    {
        let cell_style = if header {
            Style::fg_bold(theme.accent)
        } else {
            Style::fg(theme.text)
        };
        let ghost cells = old(self)@.row;
        let mut spans: Vec<Span> = Vec::new();
        spans.push(Span::styled("  ".to_owned(), Style::new()));
        assert(spans_view(spans@) =~= row_spans(cells.take(0), self.aligns@, cell_style, theme.border));
        let mut i: usize = 0;
        while i < self.row.len()
            invariant
                self@ == old(self)@,
                cells == self@.row,
                0 <= i <= cells.len(),
                forall|j: int| 0 <= j < cells.len() ==> cell_fits(#[trigger] cells[j]),
                spans_view(spans@) == row_spans(cells.take(i as int), self.aligns@, cell_style, theme.border),
            decreases cells.len() - i,
        {
            let ghost prev = spans@;
            if i > 0 {
                spans.push(Span::styled(" │ ".to_owned(), Style::fg(theme.border)));
            }
            let align = if i < self.aligns.len() {
                self.aligns[i]
            } else {
                Align::Unset
            };
            assert(cells[i as int] == self.row@[i as int]@);
            let c = cell_text_of(&self.row[i], align);
            spans.push(Span::styled(c, cell_style));
            proof {
                let t = cells.take(i + 1);
                assert(t.drop_last() =~= cells.take(i as int));
                assert(t[i as int] == cells[i as int]);
                if i > 0 {
                    assert(spans_view(spans@) =~= spans_view(prev).push(
                        SpanView { content: " │ "@, style: Style::spec_fg(theme.border) },
                    ).push(SpanView { content: c@, style: cell_style }));
                } else {
                    assert(spans_view(spans@) =~= spans_view(prev).push(
                        SpanView { content: c@, style: cell_style },
                    ));
                }
            }
            i = i + 1;
        }
        assert(cells.take(i as int) =~= cells);
        self.row = Vec::new();
        assert(strings_view(self.row@) =~= seq![]);
        self.push_styled_line(
            StyledLine {
                line: Line { spans },
                is_blank: false,
                is_heading: false,
                heading_level: None,
                heading_text: None,
                source_line: None,
            },
        );
    }
}

} // verus!

verus! {

fn cells_fit_exec(row: &Vec<String>) -> (r: bool)
    ensures
        r == cells_fit(strings_view(row@)),
{
    let mut i: usize = 0;
    while i < row.len()
        invariant
            0 <= i <= row@.len(),
            forall|j: int| 0 <= j < i ==> cell_fits(#[trigger] strings_view(row@)[j]),
        decreases row@.len() - i,
    {
        assert(strings_view(row@)[i as int] == row@[i as int]@);
        if !cell_fits_exec(&row[i]) {
            assert(!cell_fits(strings_view(row@)[i as int]));
            return false;
        }
        i = i + 1;
    }
    true
}

fn step_ok_exec(st: &Render, ev: &MdEvent) -> (r: bool)
    ensures
        r == step_ok(st@, *ev),
{
    match ev {
        MdEvent::EndTableHead => cells_fit_exec(&st.row),
        MdEvent::EndTableRow => cells_fit_exec(&st.row),
        _ => true,
    }
}

impl Render {
    fn step_start(&mut self, ev: &MdEvent, theme: Theme, width: u16, src: &[u8])
        requires
            step_ok(old(self)@, *ev),
            ev is StartHeading || ev is StartCodeBlock || ev is StartBlockQuote || ev is StartList || ev is StartItem || ev is StartEmphasis || ev is StartStrong || ev is StartStrikethrough || ev is StartTable,
        ensures
            final(self)@ == spec_step(old(self)@, *ev, RenderCtx { theme, width, src: src@ }),
    {
        match ev {
            MdEvent::StartHeading(l) => {
                let tl = self.task_line;
                self.flush(tl);
                self.heading = Some(*l);
            },
            MdEvent::StartCodeBlock => self.code_block = true,
            MdEvent::StartBlockQuote => self.blockquote = true,
            MdEvent::StartList(start) => self.list_stack.push(*start),
            MdEvent::StartItem => {
                let tl = self.task_line;
                self.flush(tl);
                self.list_item = true;
                self.first_para = true;
                self.task_line = None;
                let depth = self.list_stack.len();
                self.list_indent = if depth > 1 {
                    sat_mul4_add(depth - 1, 2)
                } else {
                    2
                };
            },
            MdEvent::StartEmphasis => self.italic = true,
            MdEvent::StartStrong => self.bold = true,
            MdEvent::StartStrikethrough => self.strike = true,
            MdEvent::StartTable(a) => {
                self.table = true;
                self.aligns = a.clone();
                assert(self.aligns@ =~= a@);
            },
            _ => {},
        }
    }

    fn step_end(&mut self, ev: &MdEvent, theme: Theme, width: u16, src: &[u8])
        requires
            step_ok(old(self)@, *ev),
            ev is EndHeading || ev is EndParagraph || ev is EndCodeBlock || ev is EndBlockQuote || ev is EndList || ev is EndItem || ev is EndEmphasis || ev is EndStrong || ev is EndStrikethrough || ev is EndTable || ev is EndTableHead || ev is EndTableRow,
        ensures
            final(self)@ == spec_step(old(self)@, *ev, RenderCtx { theme, width, src: src@ }),
    {
        match ev {
            MdEvent::EndHeading => {
                self.flush_heading();
                self.push_blank();
                self.heading = None;
            },
            MdEvent::EndParagraph => {
                let tl = self.task_line;
                self.flush(tl);
                if !self.list_item {
                    self.push_blank();
                }
            },
            MdEvent::EndCodeBlock => {
                self.code_block = false;
                self.push_blank();
            },
            MdEvent::EndBlockQuote => self.blockquote = false,
            MdEvent::EndList => {
                self.list_stack.pop();
                if self.list_stack.len() == 0 {
                    self.push_blank();
                }
            },
            MdEvent::EndItem => {
                let tl = self.task_line;
                self.flush(tl);
                self.list_item = false;
                self.task_line = None;
            },
            MdEvent::EndEmphasis => self.italic = false,
            MdEvent::EndStrong => self.bold = false,
            MdEvent::EndStrikethrough => self.strike = false,
            MdEvent::EndTable => {
                self.table = false;
                self.aligns = Vec::new();
                assert(self.aligns@ =~= seq![]);
                self.push_blank();
            },
            MdEvent::EndTableHead => {
                let n = self.aligns.len();
                self.emit_row(true, theme);
                let mut sep = chars_of("  ");
                let body = chars_of(sep_string(n).as_str());
                crate::text::push_all(&mut sep, &body);
                self.push_line(string_of(sep.as_slice()), Style::fg(theme.border));
            },
            MdEvent::EndTableRow => self.emit_row(false, theme),
            _ => {},
        }
    }

    fn step_inline(&mut self, ev: &MdEvent, theme: Theme, width: u16, src: &[u8])
        requires
            step_ok(old(self)@, *ev),
            ev is Text || ev is Code || ev is TaskListMarker || ev is LineBreak || ev is Rule || ev is Other,
        ensures
            final(self)@ == spec_step(old(self)@, *ev, RenderCtx { theme, width, src: src@ }),
    {
        match ev {
            MdEvent::Text(t) => {
                if self.table {
                    self.row.push(t.clone());
                    assert(strings_view(self.row@) =~= strings_view(old(self).row@).push(t@));
                } else {
                    self.text(t, theme, width);
                }
            },
            MdEvent::Code(t) => {
                if self.first_para {
                    self.bullet_step(theme);
                }
                let mut c = chars_of("`");
                let body = chars_of(t.as_str());
                crate::text::push_all(&mut c, &body);
                let tick = chars_of("`");
                crate::text::push_all(&mut c, &tick);
                self.push_span(string_of(c.as_slice()), Style::fg(theme.accent));
            },
            MdEvent::TaskListMarker(checked, start) => {
                self.task_line = Some(line_of(src, *start));
                let marker = if *checked {
                    "  [x] "
                } else {
                    "  [ ] "
                };
                self.list_indent = str_width(marker);
                self.push_span(marker.to_owned(), Style::fg(theme.accent));
                self.first_para = false;
            },
            MdEvent::LineBreak => {
                let tl = self.task_line;
                self.flush(tl);
            },
            MdEvent::Rule => {
                let tl = self.task_line;
                self.flush(tl);
                let rule = repeat_string('─', width.saturating_sub(2) as usize);
                self.push_line(rule, Style::fg(theme.border));
                self.push_blank();
            },
            MdEvent::Other => {},

            _ => {},
        }
    }

    fn step(&mut self, ev: &MdEvent, theme: Theme, width: u16, src: &[u8])
        requires
            step_ok(old(self)@, *ev),
        ensures
            final(self)@ == spec_step(old(self)@, *ev, RenderCtx { theme, width, src: src@ }),
    {
        match ev {
            MdEvent::StartHeading(..) => self.step_start(ev, theme, width, src),
            MdEvent::StartCodeBlock => self.step_start(ev, theme, width, src),
            MdEvent::StartBlockQuote => self.step_start(ev, theme, width, src),
            MdEvent::StartList(..) => self.step_start(ev, theme, width, src),
            MdEvent::StartItem => self.step_start(ev, theme, width, src),
            MdEvent::StartEmphasis => self.step_start(ev, theme, width, src),
            MdEvent::StartStrong => self.step_start(ev, theme, width, src),
            MdEvent::StartStrikethrough => self.step_start(ev, theme, width, src),
            MdEvent::StartTable(..) => self.step_start(ev, theme, width, src),
            MdEvent::EndHeading => self.step_end(ev, theme, width, src),
            MdEvent::EndParagraph => self.step_end(ev, theme, width, src),
            MdEvent::EndCodeBlock => self.step_end(ev, theme, width, src),
            MdEvent::EndBlockQuote => self.step_end(ev, theme, width, src),
            MdEvent::EndList => self.step_end(ev, theme, width, src),
            MdEvent::EndItem => self.step_end(ev, theme, width, src),
            MdEvent::EndEmphasis => self.step_end(ev, theme, width, src),
            MdEvent::EndStrong => self.step_end(ev, theme, width, src),
            MdEvent::EndStrikethrough => self.step_end(ev, theme, width, src),
            MdEvent::EndTable => self.step_end(ev, theme, width, src),
            MdEvent::EndTableHead => self.step_end(ev, theme, width, src),
            MdEvent::EndTableRow => self.step_end(ev, theme, width, src),
            MdEvent::Text(..) => self.step_inline(ev, theme, width, src),
            MdEvent::Code(..) => self.step_inline(ev, theme, width, src),
            MdEvent::TaskListMarker(..) => self.step_inline(ev, theme, width, src),
            MdEvent::LineBreak => self.step_inline(ev, theme, width, src),
            MdEvent::Rule => self.step_inline(ev, theme, width, src),
            MdEvent::Other => self.step_inline(ev, theme, width, src),
        }
    }
}

/// Drops the trailing blank lines.
pub fn trim_lines(lines: &mut Vec<StyledLine>)
    ensures
        lines_view(final(lines)@) == trim_blank(lines_view(old(lines)@)),
{
    while lines.len() > 0 && lines[lines.len() - 1].is_blank
        invariant
            trim_blank(lines_view(lines@)) == trim_blank(lines_view(old(lines)@)),
        decreases lines@.len(),
    {
        let ghost before = lines@;
        lines.pop();
        assert(lines_view(lines@) =~= lines_view(before).drop_last());
    }
}

/// Renders parser events: `None` exactly when a table cell would be cut inside
/// a character (where slicing it at byte 14 panics), else the rendered lines.
pub fn render_events(events: &Vec<MdEvent>, src: &[u8], theme: Theme, width: u16) -> (r: Option<Vec<StyledLine>>)
    ensures
        r is Some <==> render_ok(events@, RenderCtx { theme, width, src: src@ }),
        r matches Some(v) ==> lines_view(v@) == spec_render(events@, RenderCtx { theme, width, src: src@ }),
{
    let ghost ctx = RenderCtx { theme, width, src: src@ };
    let mut st = Render::new();
    let mut k: usize = 0;
    assert(events@.take(0) =~= Seq::<MdEvent>::empty());
    while k < events.len()
        invariant
            0 <= k <= events@.len(),
            ctx == (RenderCtx { theme, width, src: src@ }),
            st@ == render_fold(events@.take(k as int), ctx),
            forall|j: int| 0 <= j < k ==> step_ok(#[trigger] render_fold(events@.take(j), ctx), events@[j]),
        decreases events@.len() - k,
    {
        if !step_ok_exec(&st, &events[k]) {
            return None;
        }
        st.step(&events[k], theme, width, src);
        proof {
            assert(events@.take(k + 1).drop_last() =~= events@.take(k as int));
            assert(events@.take(k + 1).last() == events@[k as int]);
        }
        k = k + 1;
    }
    assert(events@.take(k as int) =~= events@);
    let tl = st.task_line;
    st.flush(tl);
    let mut lines = Vec::new();
    std::mem::swap(&mut lines, &mut st.lines);
    trim_lines(&mut lines);
    Some(lines)
}

/// The context `source` renders in.
pub open spec fn ctx_of(source: Seq<char>, theme: Theme, width: u16) -> RenderCtx {
    RenderCtx { theme, width, src: crate::text::utf8_bytes(source) }
}

/// Whether `source` renders without cutting a table cell inside a character.
pub open spec fn renders(source: Seq<char>, theme: Theme, width: u16) -> bool {
    render_ok(md_events(source), ctx_of(source, theme, width))
}

/// The lines `source` renders to.
pub open spec fn spec_parse_markdown(source: Seq<char>, theme: Theme, width: u16) -> Seq<StyledLineView> {
    spec_render(md_events(source), ctx_of(source, theme, width))
}

pub fn parse_markdown(source: &str, theme: Theme, width: u16) -> (r: Vec<StyledLine>)
    requires
        renders(source@, theme, width),
    ensures
        lines_view(r@) == spec_parse_markdown(source@, theme, width),
{
    match try_parse_markdown(source, theme, width) {
        Some(v) => v,
        None => {
            assert(false);
            Vec::new()
        },
    }
}

/// Renders `source`, or `None` where a table cell would be cut inside a character.
pub fn try_parse_markdown(source: &str, theme: Theme, width: u16) -> (r: Option<Vec<StyledLine>>)
    ensures
        r is Some <==> renders(source@, theme, width),
        r matches Some(v) ==> lines_view(v@) == spec_parse_markdown(source@, theme, width),
{
    let events = markdown_events(source);
    render_events(&events, source.as_bytes(), theme, width)
}

} // verus!

verus! {

/// Trimming leaves a prefix of the lines that does not end with a blank line.
pub proof fn lemma_trim_blank(ls: Seq<StyledLineView>)
    ensures
        trim_blank(ls).len() <= ls.len(),
        trim_blank(ls) == ls.take(trim_blank(ls).len() as int),
        trim_blank(ls).len() == 0 || !trim_blank(ls).last().is_blank,
        forall|k: int| trim_blank(ls).len() <= k < ls.len() ==> #[trigger] ls[k].is_blank,
    decreases ls.len(),
{
    if ls.len() > 0 && ls.last().is_blank {
        lemma_trim_blank(ls.drop_last());
        let t = trim_blank(ls.drop_last());
        assert(ls.drop_last().take(t.len() as int) =~= ls.take(t.len() as int));
        assert forall|k: int| t.len() <= k < ls.len() implies #[trigger] ls[k].is_blank by {
            if k < ls.len() - 1 {
                assert(ls.drop_last()[k] == ls[k]);
            }
        }
    } else {
        assert(ls.take(ls.len() as int) =~= ls);
    }
}

/// What the reader shows of a text never ends with a blank line.
pub proof fn lemma_rendered_ends_unblank(source: Seq<char>, theme: Theme, width: u16)
    ensures
        spec_parse_markdown(source, theme, width).len() == 0
            || !spec_parse_markdown(source, theme, width).last().is_blank,
{
    let ctx = ctx_of(source, theme, width);
    let st = render_fold(md_events(source), ctx);
    lemma_trim_blank(spec_flush(st, st.task_line).lines);
}

/// The lines a step of word wrapping emits, and the line it leaves open, are
/// within `max` columns, where the word fits on a fresh line.
proof fn lemma_wrap_step_fits(st: RenderView, ll: usize, word: Seq<char>, style: Style, max: usize)
    requires
        ll == spans_width(st.spans),
        ll <= max,
        display_width(word) + st.list_indent + 1 <= max,
        display_width(" "@) == 1,
        display_width(spaces(st.list_indent as nat)) == st.list_indent,
    ensures
        ({
            let (s, l) = wrap_step(st, ll, word, style, max);
            &&& l == spans_width(s.spans)
            &&& l <= max
            &&& s.list_indent == st.list_indent
            &&& s.lines.len() >= st.lines.len()
            &&& s.lines.take(st.lines.len() as int) == st.lines
            &&& forall|k: int| st.lines.len() <= k < s.lines.len() ==> spans_width(#[trigger] s.lines[k].line) <= max
        }),
{
    let wl = display_width(word);
    let n = st.list_indent;
    assert(seq![SpanView { content: " "@, style: Style::plain() }].drop_last() =~= Seq::<SpanView>::empty());
    if ll > 0 && ll + 1 + wl > max {
        assert(st.spans.len() > 0);
        let f = spec_flush(st, st.task_line);
        assert(f.lines.take(st.lines.len() as int) =~= st.lines);
        assert(f.spans =~= Seq::<SpanView>::empty());
        assert(f.lines.len() == st.lines.len() + 1);
        assert(f.lines[st.lines.len() as int].line == st.spans);
        assert(spans_width(f.lines[st.lines.len() as int].line) <= max);
        if f.list_item && n > 0 {
            let f1 = spec_push_span(f, spaces(n as nat), Style::plain());
            assert(f1.spans.drop_last() =~= Seq::<SpanView>::empty());
            let f2 = spec_push_span(f1, " "@, Style::plain());
            assert(f2.spans.drop_last() =~= f1.spans);
            let f3 = spec_push_span(f2, word, style);
            assert(f3.spans.drop_last() =~= f2.spans);
            assert(spans_width(f1.spans.drop_last()) == 0);
            assert(f1.spans.last().content == spaces(n as nat));
            assert(spans_width(f1.spans) == n);
            assert(spans_width(f2.spans) == n + 1);
            assert(spans_width(f3.spans) == n + 1 + wl);
            assert(wrap_step(st, ll, word, style, max) == (f3, (n + 1 + wl) as usize));
        } else {
            let f3 = spec_push_span(f, word, style);
            assert(f3.spans.drop_last() =~= f.spans);
            assert(spans_width(f.spans) == 0);
            assert(spans_width(f3.spans) == wl);
            assert(wrap_step(st, ll, word, style, max) == (f3, wl));
        }
        let (s, l) = wrap_step(st, ll, word, style, max);
        assert(s.lines == f.lines);
        assert forall|k: int| st.lines.len() <= k < s.lines.len() implies spans_width(#[trigger] s.lines[k].line) <= max by {
            assert(k == st.lines.len());
        }
    } else if ll > 0 {
        let s2 = spec_push_span(st, " "@, Style::plain());
        assert(s2.spans.drop_last() =~= st.spans);
        let s3 = spec_push_span(s2, word, style);
        assert(s3.spans.drop_last() =~= s2.spans);
        assert(st.lines.take(st.lines.len() as int) =~= st.lines);
        assert(spans_width(s2.spans) == ll + 1);
        assert(spans_width(s3.spans) == ll + 1 + wl);
        assert(wrap_step(st, ll, word, style, max) == (s3, (ll + 1 + wl) as usize));
    } else {
        let s3 = spec_push_span(st, word, style);
        assert(s3.spans.drop_last() =~= st.spans);
        assert(st.lines.take(st.lines.len() as int) =~= st.lines);
        assert(spans_width(s3.spans) == wl);
        assert(wrap_step(st, ll, word, style, max) == (s3, wl));
    }
}

/// Words wrap at the width: where every word fits on a fresh line (after the
/// list indent and a space), wrapping them emits no line wider than `max`
/// columns and leaves the open line within `max` too. The premises on spaces
/// are what Unicode gives an ASCII space: one column.
pub proof fn lemma_wrap_fits(st: RenderView, ll: usize, ws: Seq<Seq<char>>, style: Style, max: usize)
    requires
        ll == spans_width(st.spans),
        ll <= max,
        forall|i: int| 0 <= i < ws.len() ==> display_width(#[trigger] ws[i]) + st.list_indent + 1 <= max,
        display_width(" "@) == 1,
        display_width(spaces(st.list_indent as nat)) == st.list_indent,
    ensures
        ({
            let (s, l) = wrap_fold(st, ll, ws, style, max);
            &&& l == spans_width(s.spans)
            &&& l <= max
            &&& s.list_indent == st.list_indent
            &&& s.lines.len() >= st.lines.len()
            &&& s.lines.take(st.lines.len() as int) == st.lines
            &&& forall|k: int| st.lines.len() <= k < s.lines.len() ==> spans_width(#[trigger] s.lines[k].line) <= max
        }),
    decreases ws.len(),
{
    if ws.len() > 0 {
        lemma_wrap_fits(st, ll, ws.drop_last(), style, max);
        let (s, l) = wrap_fold(st, ll, ws.drop_last(), style, max);
        assert(display_width(ws[ws.len() - 1]) + st.list_indent + 1 <= max);
        lemma_wrap_step_fits(s, l, ws.last(), style, max);
        let (s2, l2) = wrap_step(s, l, ws.last(), style, max);
        assert(s2.lines.take(s.lines.len() as int).take(st.lines.len() as int) =~= s2.lines.take(st.lines.len() as int));
        assert forall|k: int| st.lines.len() <= k < s2.lines.len() implies spans_width(#[trigger] s2.lines[k].line) <= max by {
            if k < s.lines.len() {
                assert(s2.lines.take(s.lines.len() as int)[k] == s2.lines[k]);
            }
        }
    } else {
        assert(st.lines.take(st.lines.len() as int) =~= st.lines);
    }
}

/// The line starts with a span of `n` spaces in the plain style: the
/// continuation indent of a list item.
pub open spec fn starts_indented(spans: Seq<SpanView>, n: usize) -> bool {
    spans.len() > 0 && spans[0] == (SpanView { content: spaces(n as nat), style: Style::plain() })
}

/// Wrapping text inside a list item indents each continuation line: every line
/// the wrapping starts (the open line, once it has wrapped, and every line it
/// emits after the first) begins with a span of `list_indent` spaces.
pub proof fn lemma_wrap_indents_list_items(st: RenderView, ll: usize, ws: Seq<Seq<char>>, style: Style, max: usize)
    requires
        st.list_item,
        st.list_indent > 0,
    ensures
        ({
            let (s, l) = wrap_fold(st, ll, ws, style, max);
            &&& s.list_item && s.list_indent == st.list_indent
            &&& s.lines.len() >= st.lines.len()
            &&& s.lines.take(st.lines.len() as int) == st.lines
            &&& (s.lines.len() > st.lines.len() ==> starts_indented(s.spans, st.list_indent))
            &&& forall|k: int|
                st.lines.len() < k < s.lines.len() ==> starts_indented(#[trigger] s.lines[k].line, st.list_indent)
        }),
    decreases ws.len(),
{
    if ws.len() > 0 {
        lemma_wrap_indents_list_items(st, ll, ws.drop_last(), style, max);
        let (s, l) = wrap_fold(st, ll, ws.drop_last(), style, max);
        let word = ws.last();
        let wl = display_width(word);
        let (s2, l2) = wrap_step(s, l, word, style, max);
        let n = st.list_indent;
        if l > 0 && l + 1 + wl > max {
            let f = spec_flush(s, s.task_line);
            let f1 = spec_push_span(f, spaces(n as nat), Style::plain());
            assert(f.spans.len() == 0);
            assert(f1.spans[0] == (SpanView { content: spaces(n as nat), style: Style::plain() }));
            let f2 = spec_push_span(f1, " "@, Style::plain());
            let f3 = spec_push_span(f2, word, style);
            assert(s2 == f3);
            assert(f3.spans[0] == f1.spans[0]);
            assert(f.lines.take(s.lines.len() as int) =~= s.lines);
            assert(s2.lines.take(st.lines.len() as int) =~= st.lines) by {
                assert(s2.lines.take(s.lines.len() as int).take(st.lines.len() as int) =~= s2.lines.take(
                    st.lines.len() as int,
                ));
            }
            assert forall|k: int| st.lines.len() < k < s2.lines.len() implies starts_indented(
                #[trigger] s2.lines[k].line,
                n,
            ) by {
                if k < s.lines.len() {
                    assert(s2.lines[k] == s.lines[k]);
                } else if s.spans.len() > 0 {
                    assert(k == s.lines.len());
                    assert(s2.lines[k].line == s.spans);
                    assert(s.lines.len() > st.lines.len());
                }
            }
        } else {
            assert(s2.lines == s.lines);
            let s1 = if l > 0 {
                spec_push_span(s, " "@, Style::plain())
            } else {
                s
            };
            assert(s2 == spec_push_span(s1, word, style));
            assert(s.lines.len() > st.lines.len() ==> s2.spans[0] == s.spans[0]);
        }
    } else {
        assert(st.lines.take(st.lines.len() as int) =~= st.lines);
    }
}

} // verus!
