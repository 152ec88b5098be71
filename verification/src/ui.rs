//! What the screen shows: popup placement, the tab bar, the status line,
//! the reader's visible lines, the file and theme pickers and the key help,
//! each built as styled lines for the terminal to draw.
use vstd::prelude::*;
use crate::markdown::{repeat_char, spaces, spaces_string, decimal, push_decimal};
use crate::style::{Color, Line, Span, SpanView, Style, spans_view};
use crate::text::{chars_of, has_prefix, starts_with, string_of, sub_chars};
use crate::theme::Theme;
use crate::state::{AppMode, AppState, Tab, index_of, min_usize, sat_sub, lemma_visible_increasing};
use crate::markdown::{StyledLineView, lines_view};
use crate::highlight::{hl_line, highlight_search, match_style};
use crate::text::byte_len;
use crate::browser::{BrowserEntry, BrowserState, EntryView, valid_indices};

verus! {

/// A screen rectangle, in terminal cells.
#[derive(Clone, Copy, Debug, PartialEq, Eq, Structural)]
pub struct Rect {
    pub x: u16,
    pub y: u16,
    pub width: u16,
    pub height: u16,
}

/// The rectangle `ratatui::layout::Rect::new` makes: the width and height cut so
/// that the right and bottom edges stay within `u16`.
pub open spec fn spec_rect(x: u16, y: u16, width: u16, height: u16) -> Rect {
    Rect {
        x,
        y,
        width: if width > u16::MAX - x { (u16::MAX - x) as u16 } else { width },
        height: if height > u16::MAX - y { (u16::MAX - y) as u16 } else { height },
    }
}

/// Calls `ratatui::layout::Rect::new`, which keeps `x` and `y` and cuts the width
/// to `u16::MAX - x` and the height to `u16::MAX - y` where they are larger.
#[verifier::external_body]
fn rect_new(x: u16, y: u16, width: u16, height: u16) -> (r: Rect)
    ensures
        r == spec_rect(x, y, width, height),
{
    let r = ratatui::layout::Rect::new(x, y, width, height);
    Rect { x: r.x, y: r.y, width: r.width, height: r.height }
}

pub open spec fn sat_sub16(a: u16, b: u16) -> int {
    if a >= b {
        a - b
    } else {
        0
    }
}

/// A `width` by `height` rectangle centred in `area`, no larger than it.
pub open spec fn spec_centered_rect(width: u16, height: u16, area: Rect) -> Rect {
    spec_rect(
        (area.x + sat_sub16(area.width, width) / 2) as u16,
        (area.y + sat_sub16(area.height, height) / 2) as u16,
        if width < area.width { width } else { area.width },
        if height < area.height { height } else { area.height },
    )
}

/// Whether centring a `width` by `height` rectangle in `area` keeps its corner within `u16`.
pub open spec fn centered_fits(width: u16, height: u16, area: Rect) -> bool {
    &&& area.x + sat_sub16(area.width, width) / 2 <= u16::MAX
    &&& area.y + sat_sub16(area.height, height) / 2 <= u16::MAX
}

/// A `width` by `height` rectangle centred in `area`, no larger than it.
pub fn centered_rect(width: u16, height: u16, area: Rect) -> (r: Rect)
    requires
        centered_fits(width, height, area),
    ensures
        r == spec_centered_rect(width, height, area),
{
    let x = area.x + area.width.saturating_sub(width) / 2;
    let y = area.y + area.height.saturating_sub(height) / 2;
    let w = if width < area.width {
        width
    } else {
        area.width
    };
    let h = if height < area.height {
        height
    } else {
        area.height
    };
    rect_new(x, y, w, h)
}

/// A path as shown: the home directory `home`, where it is a prefix, written `~`.
pub open spec fn spec_shorten_path(path: Seq<char>, home: Option<Seq<char>>) -> Seq<char> {
    match home {
        Some(h) => if starts_with(path, h) {
            seq!['~'] + path.skip(h.len() as int)
        } else {
            path
        },
        None => path,
    }
}

/// `path` with a leading home directory `home` written `~`.
pub fn shorten_path(path: &str, home: &Option<String>) -> (r: String)
    ensures
        r@ == spec_shorten_path(path@, crate::markdown::opt_view(*home)),
{
    match home {
        Some(h) => {
            let pv = chars_of(path);
            let hv = chars_of(h.as_str());
            if has_prefix(&pv, &hv) {
                let mut out: Vec<char> = Vec::new();
                out.push('~');
                let rest = sub_chars(&pv, hv.len(), pv.len());
                crate::text::push_all(&mut out, &rest);
                proof {
                    assert(rest@ =~= pv@.skip(hv@.len() as int));
                    assert(out@ =~= seq!['~'] + pv@.skip(hv@.len() as int));
                }
                string_of(out.as_slice())
            } else {
                string_of(pv.as_slice())
            }
        },
        None => {
            let pv = chars_of(path);
            string_of(pv.as_slice())
        },
    }
}

/// Bright text on the cursor background, in bold: how a selected row is drawn.
pub open spec fn selected_style(theme: Theme) -> Style {
    Style { fg: Some(theme.text_bright), bg: Some(theme.cursor_bg), bold: true, ..Style::plain() }
}

fn selected_style_of(theme: Theme) -> (s: Style)
    ensures
        s == selected_style(theme),
{
    Style { fg: Some(theme.text_bright), bg: Some(theme.cursor_bg), bold: true, italic: false, crossed_out: false }
}

/// A span with these characters and style.
pub open spec fn sv(content: Seq<char>, style: Style) -> SpanView {
    SpanView { content, style }
}

fn span_of(text: &str, style: Style) -> (s: Span)
    ensures
        s@ == sv(text@, style),
{
    Span::styled(string_of(chars_of(text).as_slice()), style)
}

/// A line of one span.
fn line_of(text: &str, style: Style) -> (l: Line)
    ensures
        l@ == seq![sv(text@, style)],
{
    let mut spans: Vec<Span> = Vec::new();
    spans.push(span_of(text, style));
    let l = Line { spans };
    assert(l@ =~= seq![sv(text@, style)]);
    l
}

/// The tab bar: each tab's name padded by a space on each side, the active one
/// highlighted, with a space before the first and after each.
pub open spec fn tab_bar_spans(names: Seq<Seq<char>>, active: usize, theme: Theme) -> Seq<SpanView>
    decreases names.len(),
{
    if names.len() == 0 {
        seq![sv(" "@, Style::plain())]
    } else {
        let i = names.len() - 1;
        let style = if i == active {
            selected_style(theme)
        } else {
            Style::spec_fg(theme.text_dim)
        };
        tab_bar_spans(names.drop_last(), active, theme).push(sv(seq![' '] + names[i] + seq![' '], style)).push(
            sv(" "@, Style::plain()),
        )
    }
}

/// The tab bar line for tabs named `names`, `active` being the current one.
pub fn tab_bar_line(names: &Vec<String>, active: usize, theme: Theme) -> (l: Line)
    ensures
        l@ == tab_bar_spans(crate::markdown::strings_view(names@), active, theme),
{
    let ghost nv = crate::markdown::strings_view(names@);
    let mut spans: Vec<Span> = Vec::new();
    spans.push(span_of(" ", Style::new()));
    let mut k: usize = 0;
    assert(spans_view(spans@) =~= tab_bar_spans(nv.take(0), active, theme));
    while k < names.len()
        invariant
            0 <= k <= names@.len(),
            nv == crate::markdown::strings_view(names@),
            spans_view(spans@) == tab_bar_spans(nv.take(k as int), active, theme),
        decreases names@.len() - k,
    {
        let style = if k == active {
            selected_style_of(theme)
        } else {
            Style::fg(theme.text_dim)
        };
        let mut v: Vec<char> = Vec::new();
        v.push(' ');
        crate::text::push_all(&mut v, &chars_of(names[k].as_str()));
        v.push(' ');
        let ghost before = spans_view(spans@);
        spans.push(Span::styled(string_of(v.as_slice()), style));
        spans.push(span_of(" ", Style::new()));
        proof {
            assert(nv.take(k + 1).drop_last() =~= nv.take(k as int));
            assert(v@ =~= seq![' '] + nv[k as int] + seq![' ']);
            assert(spans_view(spans@) =~= before.push(sv(v@, style)).push(sv(" "@, Style::plain())));
        }
        k = k + 1;
    }
    assert(nv.take(k as int) =~= nv);
    Line { spans }
}

} // verus!

verus! {

/// The spans, followed where they are narrower than `width` columns by the
/// spaces that fill the row, on background `bg`.
pub open spec fn padded(spans: Seq<SpanView>, width: usize, bg: Color) -> Seq<SpanView> {
    let cw = crate::markdown::spans_width(spans);
    if cw < width {
        spans.push(sv(spaces((width - cw) as nat), Style { bg: Some(bg), ..Style::plain() }))
    } else {
        spans
    }
}

/// Fills the row of `line` to `width` columns with spaces on background `bg`.
fn pad_line(line: &mut Line, width: usize, bg: Color)
    ensures
        final(line)@ == padded(old(line)@, width, bg),
{
    let cw = crate::markdown::current_line_len(&line.spans);
    if cw < width {
        let ghost before = line@;
        line.spans.push(Span::styled(spaces_string(width - cw), Style::bg(bg)));
        assert(line@ =~= before.push(sv(spaces((width - cw) as nat), Style { bg: Some(bg), ..Style::plain() })));
    }
}

/// `s` followed by spaces up to `n` characters.
pub open spec fn pad_right(s: Seq<char>, n: nat) -> Seq<char> {
    if s.len() < n {
        s + spaces((n - s.len()) as nat)
    } else {
        s
    }
}

/// The keys and what they do, as the help lists them.
pub open spec fn help_table() -> Seq<(Seq<char>, Seq<char>)> {
    seq![
        ("j / Down"@, "Move cursor down / Select next"@),
        ("k / Up"@, "Move cursor up / Select previous"@),
        ("Ctrl-f"@, "Page down"@),
        ("Ctrl-b"@, "Page up"@),
        ("g / Home"@, "Go to top"@),
        ("G / End"@, "Go to bottom"@),
        ("Enter"@, "Fold/unfold section"@),
        ("x / Space"@, "Toggle task checkbox"@),
        ("Ctrl-n / p"@, "Next / previous unchecked task"@),
        ("F"@, "Toggle task filter view"@),
        ("/"@, "Search"@),
        ("n / N"@, "Next / previous match"@),
        ("f"@, "File picker"@),
        ("e"@, "Edit in $EDITOR"@),
        ("t"@, "Theme picker"@),
        ("Tab / S-Tab"@, "Next / previous tab"@),
        ("W"@, "Close current tab"@),
        ("?"@, "Toggle help"@),
        ("q / Ctrl-c"@, "Quit"@),
    ]
}

pub open spec fn pairs_view(v: Seq<(&str, &str)>) -> Seq<(Seq<char>, Seq<char>)> {
    v.map_values(|p: (&str, &str)| (p.0@, p.1@))
}

/// The help table.
pub fn help_entries() -> (r: Vec<(&'static str, &'static str)>)
    ensures
        pairs_view(r@) == help_table(),
{
    let r = vec![
        ("j / Down", "Move cursor down / Select next"),
        ("k / Up", "Move cursor up / Select previous"),
        ("Ctrl-f", "Page down"),
        ("Ctrl-b", "Page up"),
        ("g / Home", "Go to top"),
        ("G / End", "Go to bottom"),
        ("Enter", "Fold/unfold section"),
        ("x / Space", "Toggle task checkbox"),
        ("Ctrl-n / p", "Next / previous unchecked task"),
        ("F", "Toggle task filter view"),
        ("/", "Search"),
        ("n / N", "Next / previous match"),
        ("f", "File picker"),
        ("e", "Edit in $EDITOR"),
        ("t", "Theme picker"),
        ("Tab / S-Tab", "Next / previous tab"),
        ("W", "Close current tab"),
        ("?", "Toggle help"),
        ("q / Ctrl-c", "Quit"),
    ];
    assert(pairs_view(r@) =~= help_table());
    r
}

/// The key column of a help row: a space, then the key padded to 14 characters.
pub open spec fn help_key_text(key: Seq<char>) -> Seq<char> {
    seq![' '] + pad_right(key, 14)
}

fn help_key_string(key: &str) -> (s: String)
    ensures
        s@ == help_key_text(key@),
{
    let mut v: Vec<char> = Vec::new();
    v.push(' ');
    let k = chars_of(key);
    crate::text::push_all(&mut v, &k);
    if k.len() < 14 {
        crate::text::push_all(&mut v, &chars_of(spaces_string(14 - k.len()).as_str()));
    }
    assert(v@ =~= help_key_text(key@));
    string_of(v.as_slice())
}

/// The help rows: the key in the accent color, then what it does.
pub open spec fn help_rows(table: Seq<(Seq<char>, Seq<char>)>, theme: Theme) -> Seq<Seq<SpanView>> {
    table.map_values(
        |e: (Seq<char>, Seq<char>)| seq![sv(help_key_text(e.0), Style::spec_fg(theme.accent)), sv(e.1, Style::spec_fg(theme.text))],
    )
}

pub open spec fn lines_of(v: Seq<Line>) -> Seq<Seq<SpanView>> {
    v.map_values(|l: Line| l@)
}

/// The lines of the key help.
pub fn help_lines(theme: Theme) -> (r: Vec<Line>)
    ensures
        lines_of(r@) == help_rows(help_table(), theme),
{
    let table = help_entries();
    let mut r: Vec<Line> = Vec::new();
    let mut k: usize = 0;
    while k < table.len()
        invariant
            0 <= k <= table@.len(),
            pairs_view(table@) == help_table(),
            lines_of(r@) == help_rows(help_table(), theme).take(k as int),
        decreases table@.len() - k,
    {
        let (key, desc) = table[k];
        let mut spans: Vec<Span> = Vec::new();
        spans.push(Span::styled(help_key_string(key), Style::fg(theme.accent)));
        spans.push(span_of(desc, Style::fg(theme.text)));
        let line = Line { spans };
        let ghost before = lines_of(r@);
        r.push(line);
        proof {
            assert(line@ =~= help_rows(help_table(), theme)[k as int]);
            assert(lines_of(r@) =~= before.push(line@));
        }
        k = k + 1;
        assert(lines_of(r@) =~= help_rows(help_table(), theme).take(k as int));
    }
    assert(help_rows(help_table(), theme).take(k as int) =~= help_rows(help_table(), theme));
    r
}

/// The widest help row, in characters (the table is ASCII, so bytes too).
pub open spec fn widest_row(table: Seq<(Seq<char>, Seq<char>)>) -> nat
    decreases table.len(),
{
    if table.len() == 0 {
        0
    } else {
        let w = help_key_text(table.last().0).len() + table.last().1.len();
        let rest = widest_row(table.drop_last());
        if w > rest {
            w
        } else {
            rest
        }
    }
}

/// The help popup's width: the widest row plus the border and padding, but four
/// cells narrower than the screen at most.
pub open spec fn help_width(area: Rect) -> u16 {
    let width: int = if widest_row(help_table()) + 4 < sat_sub16(area.width, 4) {
        widest_row(help_table()) + 4int
    } else {
        sat_sub16(area.width, 4)
    };
    width as u16
}

/// The help popup: centred, as tall as the rows plus four.
pub open spec fn spec_help_popup(area: Rect) -> Rect {
    spec_centered_rect(help_width(area), (help_table().len() + 4) as u16, area)
}

proof fn lemma_help_widths()
    ensures
        forall|i: int| 0 <= i < help_table().len() ==> #[trigger] help_table()[i].0.len() < 14 && help_table()[i].1.len() <= 32,
{
    reveal_strlit("j / Down");
    reveal_strlit("Move cursor down / Select next");
    reveal_strlit("k / Up");
    reveal_strlit("Move cursor up / Select previous");
    reveal_strlit("Ctrl-f");
    reveal_strlit("Page down");
    reveal_strlit("Ctrl-b");
    reveal_strlit("Page up");
    reveal_strlit("g / Home");
    reveal_strlit("Go to top");
    reveal_strlit("G / End");
    reveal_strlit("Go to bottom");
    reveal_strlit("Enter");
    reveal_strlit("Fold/unfold section");
    reveal_strlit("x / Space");
    reveal_strlit("Toggle task checkbox");
    reveal_strlit("Ctrl-n / p");
    reveal_strlit("Next / previous unchecked task");
    reveal_strlit("F");
    reveal_strlit("Toggle task filter view");
    reveal_strlit("/");
    reveal_strlit("Search");
    reveal_strlit("n / N");
    reveal_strlit("Next / previous match");
    reveal_strlit("f");
    reveal_strlit("File picker");
    reveal_strlit("e");
    reveal_strlit("Edit in $EDITOR");
    reveal_strlit("t");
    reveal_strlit("Theme picker");
    reveal_strlit("Tab / S-Tab");
    reveal_strlit("Next / previous tab");
    reveal_strlit("W");
    reveal_strlit("Close current tab");
    reveal_strlit("?");
    reveal_strlit("Toggle help");
    reveal_strlit("q / Ctrl-c");
    reveal_strlit("Quit");
}

/// Where the key help is drawn.
pub fn help_popup(area: Rect) -> (r: Rect)
    requires
        centered_fits(help_width(area), (help_table().len() + 4) as u16, area),
    ensures
        r == spec_help_popup(area),
{
    let table = help_entries();
    let mut widest: usize = 0;
    let mut k: usize = 0;
    while k < table.len()
        invariant
            0 <= k <= table@.len(),
            pairs_view(table@) == help_table(),
            widest == widest_row(help_table().take(k as int)),
            widest <= 64,
        decreases table@.len() - k,
    {
        let (key, desc) = table[k];
        let kv = help_key_string(key);
        proof {
            assert(help_table().take(k + 1).drop_last() =~= help_table().take(k as int));
            lemma_help_widths();
            assert(help_table()[k as int].0 == key@);
        }
        let w = chars_of(kv.as_str()).len() + chars_of(desc).len();
        if w > widest {
            widest = w;
        }
        k = k + 1;
    }
    proof {
        assert(help_table().take(k as int) =~= help_table());
    }
    let height: u16 = 23;
    let avail = area.width.saturating_sub(4);
    let width: u16 = if widest + 4 < avail as usize {
        (widest + 4) as u16
    } else {
        avail
    };
    centered_rect(width, height, area)
}

} // verus!

verus! {

/// The theme picker popup: 38 cells wide, as tall as the themes plus four.
pub open spec fn spec_theme_picker_popup(n_themes: usize, area: Rect) -> Rect {
    spec_centered_rect(38, ((n_themes as u16) + 4) as u16, area)
}

/// Where the theme picker is drawn, for `n_themes` themes.
pub fn theme_picker_popup(n_themes: usize, area: Rect) -> (r: Rect)
    requires
        (n_themes as u16) + 4 <= u16::MAX,
        centered_fits(38, ((n_themes as u16) + 4) as u16, area),
    ensures
        r == spec_theme_picker_popup(n_themes, area),
{
    let height = (n_themes as u16) + 4;
    centered_rect(38, height, area)
}

/// A row of the theme picker: the name after a marker, the chosen one
/// highlighted and filled to `width` columns.
pub open spec fn theme_row(name: Seq<char>, is_selected: bool, theme: Theme, width: usize) -> Seq<SpanView> {
    if is_selected {
        padded(seq![sv(" > "@ + name, selected_style(theme))], width, theme.cursor_bg)
    } else {
        seq![sv("   "@ + name, Style::spec_fg(theme.text))]
    }
}

pub open spec fn theme_rows(names: Seq<Seq<char>>, selected: usize, theme: Theme, width: usize) -> Seq<Seq<SpanView>> {
    Seq::new(names.len(), |i: int| theme_row(names[i], i == selected, theme, width))
}

/// The rows of the theme picker for themes named `names`, `selected` chosen.
pub fn theme_picker_lines(names: &Vec<String>, selected: usize, theme: Theme, width: u16) -> (r: Vec<Line>)
    ensures
        lines_of(r@) == theme_rows(crate::markdown::strings_view(names@), selected, theme, width as usize),
{
    let ghost nv = crate::markdown::strings_view(names@);
    let mut r: Vec<Line> = Vec::new();
    let mut k: usize = 0;
    while k < names.len()
        invariant
            0 <= k <= names@.len(),
            nv == crate::markdown::strings_view(names@),
            lines_of(r@) == theme_rows(nv, selected, theme, width as usize).take(k as int),
        decreases names@.len() - k,
    {
        let is_selected = k == selected;
        let mut v = if is_selected {
            chars_of(" > ")
        } else {
            chars_of("   ")
        };
        crate::text::push_all(&mut v, &chars_of(names[k].as_str()));
        let style = if is_selected {
            selected_style_of(theme)
        } else {
            Style::fg(theme.text)
        };
        let mut spans: Vec<Span> = Vec::new();
        spans.push(Span::styled(string_of(v.as_slice()), style));
        let mut line = Line { spans };
        assert(line@ =~= seq![sv(v@, style)]);
        if is_selected {
            pad_line(&mut line, width as usize, theme.cursor_bg);
        }
        let ghost before = lines_of(r@);
        r.push(line);
        proof {
            assert(line@ == theme_rows(nv, selected, theme, width as usize)[k as int]);
            assert(lines_of(r@) =~= before.push(line@));
        }
        k = k + 1;
        assert(lines_of(r@) =~= theme_rows(nv, selected, theme, width as usize).take(k as int));
    }
    assert(theme_rows(nv, selected, theme, width as usize).take(k as int) =~= theme_rows(nv, selected, theme, width as usize));
    r
}

/// The hint under the theme picker.
pub fn theme_picker_hint(theme: Theme) -> (l: Line)
    ensures
        l@ == seq![sv(" j/k:select  enter:ok  esc:cancel"@, Style::spec_fg(theme.text_muted))],
{
    line_of(" j/k:select  enter:ok  esc:cancel", Style::fg(theme.text_muted))
}

/// The hint under the key help.
pub fn help_hint(theme: Theme) -> (l: Line)
    ensures
        l@ == seq![sv(" esc/enter/?:close"@, Style::spec_fg(theme.text_muted))],
{
    line_of(" esc/enter/?:close", Style::fg(theme.text_muted))
}

/// The hint under the file picker.
pub fn file_picker_hint(theme: Theme) -> (l: Line)
    ensures
        l@ == seq![sv(" enter:open  esc:close"@, Style::spec_fg(theme.text_muted))],
{
    line_of(" enter:open  esc:close", Style::fg(theme.text_muted))
}

/// The file picker's size: three quarters of the screen high, and three
/// quarters wide but at least 50 cells and at most the screen less four.
pub open spec fn file_picker_size(area: Rect) -> (u16, u16) {
    let height = area.height * 3 / 4;
    let w0: int = if area.width * 3 / 4 > 50 { area.width * 3 / 4 } else { 50 };
    let width: int = if w0 < sat_sub16(area.width, 4) { w0 } else { sat_sub16(area.width, 4) };
    (width as u16, height as u16)
}

/// The file picker popup, centred.
pub open spec fn spec_file_picker_popup(area: Rect) -> Rect {
    spec_centered_rect(file_picker_size(area).0, file_picker_size(area).1, area)
}

/// Where the file picker is drawn.
pub fn file_picker_popup(area: Rect) -> (r: Rect)
    requires
        area.height * 3 <= u16::MAX,
        area.width * 3 <= u16::MAX,
        centered_fits(file_picker_size(area).0, file_picker_size(area).1, area),
    ensures
        r == spec_file_picker_popup(area),
{
    let height = area.height * 3 / 4;
    let w0 = area.width * 3 / 4;
    let w0 = if w0 > 50 {
        w0
    } else {
        50
    };
    let avail = area.width.saturating_sub(4);
    let width = if w0 < avail {
        w0
    } else {
        avail
    };
    centered_rect(width, height, area)
}

/// The file picker's title: the directory, shortened, between spaces.
pub fn file_picker_title(dir: &str, home: &Option<String>) -> (r: String)
    ensures
        r@ == seq![' '] + spec_shorten_path(dir@, crate::markdown::opt_view(*home)) + seq![' '],
{
    let d = shorten_path(dir, home);
    let mut v: Vec<char> = Vec::new();
    v.push(' ');
    crate::text::push_all(&mut v, &chars_of(d.as_str()));
    v.push(' ');
    assert(v@ =~= seq![' '] + d@ + seq![' ']);
    string_of(v.as_slice())
}

/// The file picker's filter row: a prompt while empty, else the typed filter.
pub open spec fn filter_row(filter: Seq<char>, theme: Theme) -> Seq<SpanView> {
    if filter.len() == 0 {
        seq![sv(" type to filter..."@, Style::spec_fg(theme.text_muted))]
    } else {
        seq![sv(" > "@, Style::spec_fg(theme.accent)), sv(filter, Style::spec_fg(theme.text_bright))]
    }
}

pub fn file_picker_filter_line(filter: &str, theme: Theme) -> (l: Line)
    ensures
        l@ == filter_row(filter@, theme),
{
    if filter.is_empty() {
        line_of(" type to filter...", Style::fg(theme.text_muted))
    } else {
        let mut spans: Vec<Span> = Vec::new();
        spans.push(span_of(" > ", Style::fg(theme.accent)));
        spans.push(span_of(filter, Style::fg(theme.text_bright)));
        let l = Line { spans };
        assert(l@ =~= filter_row(filter@, theme));
        l
    }
}

} // verus!

verus! {

/// A row of the file list: a margin, an icon (`^` for the parent, `/` for a
/// directory) and the name, colored by kind; the selected row highlighted and
/// filled to `width` columns.
pub open spec fn entry_row(e: EntryView, is_selected: bool, theme: Theme, width: usize) -> Seq<SpanView> {
    let icon = if e.name == ".."@ {
        "^ "@
    } else if e.is_dir {
        "/ "@
    } else {
        "  "@
    };
    let style = if is_selected {
        selected_style(theme)
    } else if e.name == ".."@ {
        Style::spec_fg(theme.text_dim)
    } else if e.is_dir {
        Style::spec_fg(theme.accent)
    } else {
        Style::spec_fg(theme.text)
    };
    let base = seq![sv("   "@, style), sv(icon, style), sv(e.name, style)];
    if is_selected {
        padded(base, width, theme.cursor_bg)
    } else {
        base
    }
}

pub open spec fn flagged_view(v: Seq<(&BrowserEntry, bool)>) -> Seq<(EntryView, bool)> {
    v.map_values(|p: (&BrowserEntry, bool)| ((*p.0)@, p.1))
}

/// The rows of the file list: the entries from `scroll` on, at most `height`
/// of them; a line with `empty_msg` where that leaves none.
pub open spec fn entry_rows(
    entries: Seq<(EntryView, bool)>,
    theme: Theme,
    empty_msg: Seq<char>,
    scroll: usize,
    height: usize,
    width: usize,
) -> Seq<Seq<SpanView>> {
    let shown = if scroll >= entries.len() {
        Seq::<(EntryView, bool)>::empty()
    } else if entries.len() - scroll > height {
        entries.subrange(scroll as int, scroll + height)
    } else {
        entries.skip(scroll as int)
    };
    if shown.len() == 0 {
        seq![seq![sv(empty_msg, Style::spec_fg(theme.text_dim))]]
    } else {
        Seq::new(shown.len(), |i: int| entry_row(shown[i].0, shown[i].1, theme, width))
    }
}

fn entry_line(e: &BrowserEntry, is_selected: bool, theme: Theme, width: usize) -> (l: Line)
    ensures
        l@ == entry_row(e@, is_selected, theme, width),
{
    let dots = String::from_str("..");
    let is_parent = e.name == dots;
    let icon = if is_parent {
        "^ "
    } else if e.is_dir {
        "/ "
    } else {
        "  "
    };
    let style = if is_selected {
        selected_style_of(theme)
    } else if is_parent {
        Style::fg(theme.text_dim)
    } else if e.is_dir {
        Style::fg(theme.accent)
    } else {
        Style::fg(theme.text)
    };
    let mut spans: Vec<Span> = Vec::new();
    spans.push(span_of("   ", style));
    spans.push(span_of(icon, style));
    spans.push(Span::styled(e.name.clone(), style));
    let mut line = Line { spans };
    assert(line@ =~= seq![sv("   "@, style), sv(icon@, style), sv(e.name@, style)]);
    if is_selected {
        pad_line(&mut line, width, theme.cursor_bg);
    }
    line
}

/// The lines of a file list: the entries (each flagged if selected) from
/// `scroll` on, at most `height`, or `empty_msg` where there are none.
pub fn entry_list_lines(
    entries: &Vec<(&BrowserEntry, bool)>,
    theme: Theme,
    empty_msg: &str,
    scroll: usize,
    height: usize,
    width: u16,
) -> (r: Vec<Line>)
    ensures
        lines_of(r@) == entry_rows(flagged_view(entries@), theme, empty_msg@, scroll, height, width as usize),
{
    let ghost ev = flagged_view(entries@);
    let n = entries.len();
    let end = if scroll >= n {
        scroll
    } else if n - scroll > height {
        scroll + height
    } else {
        n
    };
    let ghost shown = if scroll >= n {
        Seq::<(EntryView, bool)>::empty()
    } else {
        ev.subrange(scroll as int, end as int)
    };
    proof {
        if scroll < n && n - scroll <= height {
            assert(ev.subrange(scroll as int, end as int) =~= ev.skip(scroll as int));
        }
    }
    let mut r: Vec<Line> = Vec::new();
    let mut k: usize = scroll;
    while k < end
        invariant
            ev == flagged_view(entries@),
            n == entries@.len(),
            scroll < n ==> scroll <= end <= n,
            scroll >= n ==> end == scroll,
            scroll <= k,
            k <= end || k == scroll,
            scroll < n ==> shown == ev.subrange(scroll as int, end as int),
            lines_of(r@) == Seq::new((k - scroll) as nat, |i: int| entry_row(shown[i].0, shown[i].1, theme, width as usize)),
        decreases end - k,
    {
        let (e, sel) = entries[k];
        let line = entry_line(e, sel, theme, width as usize);
        let ghost before = lines_of(r@);
        proof {
            assert(shown[k - scroll] == ev[k as int]);
            assert(ev[k as int] == (e@, sel));
        }
        r.push(line);
        assert(lines_of(r@) =~= before.push(line@));
        k = k + 1;
        assert(lines_of(r@) =~= Seq::new((k - scroll) as nat, |i: int| entry_row(shown[i].0, shown[i].1, theme, width as usize)));
    }
    if r.len() == 0 {
        let mut out: Vec<Line> = Vec::new();
        out.push(line_of(empty_msg, Style::fg(theme.text_dim)));
        assert(lines_of(out@) =~= seq![seq![sv(empty_msg@, Style::spec_fg(theme.text_dim))]]);
        return out;
    }
    r
}

} // verus!

verus! {

/// The file picker's list: the filtered entries, the one at `selected` flagged.
pub open spec fn picker_entries(b: BrowserState) -> Seq<(EntryView, bool)> {
    let idx = valid_indices(b.filtered_indices@, b.active().len());
    Seq::new(idx.len(), |k: int| (b.active()[idx[k] as int]@, k == b.selected))
}

/// What the file picker says when its list is empty.
pub open spec fn picker_empty_msg(filter: Seq<char>) -> Seq<char> {
    if filter.len() == 0 {
        "   No markdown files found"@
    } else {
        "   No matches"@
    }
}

/// The lines of the file picker's list, `height` rows of `width` columns.
pub fn file_picker_lines(b: &BrowserState, theme: Theme, height: usize, width: u16) -> (r: Vec<Line>)
    ensures
        lines_of(r@) == entry_rows(picker_entries(*b), theme, picker_empty_msg(b.filter@), b.scroll_offset, height, width as usize),
{
    let found = b.filtered_entries();
    let mut entries: Vec<(&BrowserEntry, bool)> = Vec::new();
    let mut k: usize = 0;
    while k < found.len()
        invariant
            0 <= k <= found@.len(),
            found@.len() == valid_indices(b.filtered_indices@, b.active().len()).len(),
            forall|j: int| 0 <= j < found@.len() ==> {
                let i = #[trigger] valid_indices(b.filtered_indices@, b.active().len())[j];
                found@[j].0 == i && *found@[j].1 == b.active()[i as int]
            },
            flagged_view(entries@) == picker_entries(*b).take(k as int),
        decreases found@.len() - k,
    {
        let (_, e) = found[k];
        let ghost before = flagged_view(entries@);
        entries.push((e, k == b.selected));
        proof {
            let i = valid_indices(b.filtered_indices@, b.active().len())[k as int];
            assert(found@[k as int].0 == i && *found@[k as int].1 == b.active()[i as int]);
            assert(flagged_view(entries@) =~= before.push(((*e)@, k == b.selected)));
        }
        k = k + 1;
        assert(flagged_view(entries@) =~= picker_entries(*b).take(k as int));
    }
    assert(picker_entries(*b).take(k as int) =~= picker_entries(*b));
    let empty_msg = if b.filter.as_str().is_empty() {
        "   No markdown files found"
    } else {
        "   No matches"
    };
    entry_list_lines(&entries, theme, empty_msg, b.scroll_offset, height, width)
}

} // verus!

verus! {

/// ` (current/total)`, counting matches from one.
pub open spec fn match_count(cur: usize, n: nat) -> Seq<char> {
    " ("@ + decimal((cur + 1) as nat) + seq!['/'] + decimal(n) + seq![')']
}

/// The file name the status line shows for a tab.
pub open spec fn status_file_name(t: Tab, home: Option<Seq<char>>) -> Seq<char> {
    match t.file_path {
        Some(p) => spec_shorten_path(p@, home),
        None => "no file"@,
    }
}

pub open spec fn sep_span(theme: Theme) -> SpanView {
    sv(" │ "@, Style::spec_fg(theme.border))
}

/// The status line while searching: the prompt, the query and how many matched.
pub open spec fn search_status(t: Tab, theme: Theme) -> Seq<SpanView> {
    let info = if t.search_matches@.len() == 0 {
        if t.search_query@.len() == 0 {
            Seq::<char>::empty()
        } else {
            " (no matches)"@
        }
    } else {
        match_count(t.search_current, t.search_matches@.len())
    };
    seq![
        sv("/"@, Style::spec_fg(theme.accent)),
        sv(t.search_query@, Style::spec_fg(theme.text_bright)),
        sv(info, Style::spec_fg(theme.text_dim)),
    ]
}

/// The status line otherwise: the program, the file, how far down the view is,
/// the help key, then the filter and update marks and the last search, where set.
pub open spec fn reader_status(t: Tab, theme: Theme, file_name: Seq<char>, scroll_pct: usize) -> Seq<SpanView> {
    let base = seq![
        sv("mdr"@, Style::spec_fg_bold(theme.accent)),
        sep_span(theme),
        sv(file_name, Style::spec_fg(theme.text)),
        sep_span(theme),
        sv(decimal(scroll_pct as nat) + seq!['%'], Style::spec_fg(theme.text_dim)),
        sep_span(theme),
        sv("?:help"@, Style::spec_fg(theme.text_muted)),
    ];
    let with_filter = if t.filter_tasks {
        base + seq![sep_span(theme), sv("[filter]"@, Style::spec_fg_bold(theme.accent))]
    } else {
        base
    };
    let with_updated = if t.file_updated {
        with_filter + seq![sep_span(theme), sv("[updated]"@, Style::spec_fg_bold(theme.accent))]
    } else {
        with_filter
    };
    if t.search_query@.len() > 0 {
        let info = if t.search_matches@.len() == 0 {
            "/"@ + t.search_query@
        } else {
            "/"@ + t.search_query@ + match_count(t.search_current, t.search_matches@.len())
        };
        with_updated + seq![sep_span(theme), sv(info, Style::spec_fg(theme.text_dim))]
    } else {
        with_updated
    }
}

/// The status line for the active tab.
pub open spec fn status_spans(s: AppState, home: Option<Seq<char>>, scroll_pct: usize) -> Seq<SpanView> {
    if s.mode is Search {
        search_status(s.active(), s.theme)
    } else {
        reader_status(s.active(), s.theme, status_file_name(s.active(), home), scroll_pct)
    }
}

fn match_count_chars(cur: usize, n: usize) -> (v: Vec<char>)
    requires
        cur < usize::MAX,
    ensures
        v@ == match_count(cur, n as nat),
{
    let mut v = chars_of(" (");
    push_decimal(&mut v, (cur + 1) as u64);
    v.push('/');
    push_decimal(&mut v, n as u64);
    v.push(')');
    assert(v@ =~= match_count(cur, n as nat));
    v
}

fn sep_of(theme: Theme) -> (s: Span)
    ensures
        s@ == sep_span(theme),
{
    span_of(" │ ", Style::fg(theme.border))
}

/// The status line under the reader, for the active tab; `home` is the home
/// directory and `scroll_pct` how far down the view is, in percent.
pub fn status_line(s: &AppState, home: &Option<String>, scroll_pct: usize) -> (l: Line)
    requires
        s.inv(),
        (s.mode is Search || s.active().search_query@.len() > 0) && s.active().search_matches@.len() > 0
            ==> s.active().search_current < usize::MAX,
    ensures
        l@ == status_spans(*s, crate::markdown::opt_view(*home), scroll_pct),
{
    let t = s.tab();
    let theme = s.theme;
    let mut spans: Vec<Span> = Vec::new();
    if let AppMode::Search = s.mode {
        let info = if t.search_matches.len() == 0 {
            if t.search_query.as_str().is_empty() {
                Vec::new()
            } else {
                chars_of(" (no matches)")
            }
        } else {
            match_count_chars(t.search_current, t.search_matches.len())
        };
        spans.push(span_of("/", Style::fg(theme.accent)));
        spans.push(Span::styled(t.search_query.clone(), Style::fg(theme.text_bright)));
        spans.push(Span::styled(string_of(info.as_slice()), Style::fg(theme.text_dim)));
        let l = Line { spans };
        assert(l@ =~= status_spans(*s, crate::markdown::opt_view(*home), scroll_pct));
        return l;
    }
    let file_name = match &t.file_path {
        Some(p) => shorten_path(p.as_str(), home),
        None => string_of(chars_of("no file").as_slice()),
    };
    let mut pct: Vec<char> = Vec::new();
    push_decimal(&mut pct, scroll_pct as u64);
    pct.push('%');
    spans.push(span_of("mdr", Style::fg_bold(theme.accent)));
    spans.push(sep_of(theme));
    spans.push(Span::styled(file_name, Style::fg(theme.text)));
    spans.push(sep_of(theme));
    spans.push(Span::styled(string_of(pct.as_slice()), Style::fg(theme.text_dim)));
    spans.push(sep_of(theme));
    spans.push(span_of("?:help", Style::fg(theme.text_muted)));
    let ghost base = spans_view(spans@);
    proof {
        assert(pct@ =~= decimal(scroll_pct as nat) + seq!['%']);
    }
    if t.filter_tasks {
        spans.push(sep_of(theme));
        spans.push(span_of("[filter]", Style::fg_bold(theme.accent)));
    }
    let ghost with_filter = spans_view(spans@);
    if t.file_updated {
        spans.push(sep_of(theme));
        spans.push(span_of("[updated]", Style::fg_bold(theme.accent)));
    }
    let ghost with_updated = spans_view(spans@);
    if !t.search_query.as_str().is_empty() {
        let mut info = chars_of("/");
        crate::text::push_all(&mut info, &chars_of(t.search_query.as_str()));
        if t.search_matches.len() > 0 {
            let c = match_count_chars(t.search_current, t.search_matches.len());
            crate::text::push_all(&mut info, &c);
        }
        spans.push(sep_of(theme));
        spans.push(Span::styled(string_of(info.as_slice()), Style::fg(theme.text_dim)));
    }
    let l = Line { spans };
    proof {
        let tv = s.active();
        let fname = status_file_name(tv, crate::markdown::opt_view(*home));
        assert(base =~= reader_status(
            Tab { filter_tasks: false, file_updated: false, search_query: tv.search_query, ..tv },
            theme,
            fname,
            scroll_pct,
        ).take(7));
        assert(l@ =~= reader_status(tv, theme, fname, scroll_pct));
    }
    l
}

} // verus!

verus! {

/// The marker before a heading: folded or open.
pub open spec fn fold_marker(folded: bool) -> Seq<char> {
    if folded {
        "▶ "@
    } else {
        "▼ "@
    }
}

/// The spans with background `c`.
pub open spec fn with_bg(spans: Seq<SpanView>, c: Color) -> Seq<SpanView> {
    spans.map_values(|sp: SpanView| SpanView { content: sp.content, style: Style { bg: Some(c), ..sp.style } })
}

/// The first shown line: the scroll position, but no further than the last screenful.
pub open spec fn view_top(t: Tab, height: usize) -> usize {
    min_usize(t.scroll as int, sat_sub(t.visible().len() as usize, height) as int)
}

/// How many lines the view shows.
pub open spec fn view_count(t: Tab, height: usize) -> int {
    let rest = t.visible().len() - view_top(t, height);
    if rest < height {
        rest
    } else {
        height as int
    }
}

/// The cached line at display row `i` of the view.
pub open spec fn view_line(t: Tab, height: usize, i: int) -> StyledLineView {
    t.lines_v()[t.visible()[view_top(t, height) + i] as int]
}

/// The spans of a cached line as the reader shows them, matches of a typed
/// query highlighted.
pub open spec fn shown_spans(sl: StyledLineView, query: Seq<char>, theme: Theme) -> Option<Seq<SpanView>> {
    if query.len() == 0 {
        Some(sl.line)
    } else {
        hl_line(sl.line, query, match_style(theme))
    }
}

/// A row of the reader: the shown spans, a fold marker before a heading's text,
/// and on the cursor row the cursor background on every span and the row filled
/// to `width` columns.
pub open spec fn reader_row(
    sl: StyledLineView,
    spans: Seq<SpanView>,
    folded: Set<Seq<char>>,
    is_cursor: bool,
    theme: Theme,
    width: usize,
) -> Seq<SpanView> {
    let marked = if sl.is_heading && sl.heading_text is Some {
        seq![sv(fold_marker(folded.contains(sl.heading_text->0)), Style::spec_fg(theme.text_dim))] + spans
    } else {
        spans
    };
    if is_cursor {
        padded(with_bg(marked, theme.cursor_bg), width, theme.cursor_bg)
    } else {
        marked
    }
}

/// Whether every row in view can be shown (highlighting cuts no character).
pub open spec fn reader_ok(t: Tab, theme: Theme, height: usize) -> bool {
    forall|i: int| 0 <= i < view_count(t, height) ==> #[trigger] shown_spans(view_line(t, height, i), t.search_query@, theme) is Some
}

/// The rows the reader shows, `height` at most, `width` columns wide.
pub open spec fn reader_rows(t: Tab, theme: Theme, width: usize, height: usize) -> Seq<Seq<SpanView>> {
    Seq::new(
        view_count(t, height) as nat,
        |i: int|
            reader_row(
                view_line(t, height, i),
                shown_spans(view_line(t, height, i), t.search_query@, theme)->0,
                t.folded(),
                view_top(t, height) + i == t.cursor,
                theme,
                width,
            ),
    )
}

fn fold_marker_span(folded: bool, theme: Theme) -> (s: Span)
    ensures
        s@ == sv(fold_marker(folded), Style::spec_fg(theme.text_dim)),
{
    if folded {
        span_of("▶ ", Style::fg(theme.text_dim))
    } else {
        span_of("▼ ", Style::fg(theme.text_dim))
    }
}

/// The line with background `c` on every span.
fn set_bg(line: &Line, c: Color) -> (r: Line)
    ensures
        r@ == with_bg(line@, c),
{
    let mut spans: Vec<Span> = Vec::new();
    let mut k: usize = 0;
    while k < line.spans.len()
        invariant
            0 <= k <= line.spans@.len(),
            spans_view(spans@) == with_bg(line@, c).take(k as int),
        decreases line.spans@.len() - k,
    {
        let sp = &line.spans[k];
        let st = Style { bg: Some(c), ..sp.style };
        let ghost before = spans_view(spans@);
        let content = sp.content.clone();
        spans.push(Span::styled(content, st));
        proof {
            assert(with_bg(line@, c)[k as int] == SpanView { content: sp.content@, style: st });
            assert(spans_view(spans@) =~= before.push(with_bg(line@, c)[k as int]));
        }
        k = k + 1;
        assert(spans_view(spans@) =~= with_bg(line@, c).take(k as int));
    }
    assert(with_bg(line@, c).take(k as int) =~= with_bg(line@, c));
    Line { spans }
}

/// The rows of the reader for tab `t`: `height` rows at most, `width` columns
/// wide; `None` where highlighting the query would cut a character.
pub fn reader_lines(t: &Tab, theme: Theme, width: u16, height: usize) -> (r: Option<Vec<Line>>)
    requires
        byte_len(t.search_query@) <= usize::MAX,
    ensures
        match r {
            Some(rows) => reader_ok(*t, theme, height) && lines_of(rows@) == reader_rows(*t, theme, width as usize, height),
            None => !reader_ok(*t, theme, height),
        },
{
    let indices = t.visible_line_indices();
    let total = indices.len();
    let max_top = total.saturating_sub(height);
    let top = if t.scroll < max_top {
        t.scroll
    } else {
        max_top
    };
    let count = if total - top < height {
        total - top
    } else {
        height
    };
    let nlines = t.cached_lines.len();
    proof {
        lemma_visible_increasing(t.lines_v(), t.folded());
    }
    let query_empty = t.search_query.as_str().is_empty();
    let mut rows: Vec<Line> = Vec::new();
    let mut i: usize = 0;
    while i < count
        invariant
            indices@ == t.visible(),
            total == indices@.len(),
            top == view_top(*t, height),
            count == view_count(*t, height),
            top + count <= total,
            query_empty == (t.search_query@.len() == 0),
            byte_len(t.search_query@) <= usize::MAX,
            forall|k: int| 0 <= k < t.visible().len() ==> #[trigger] t.visible()[k] < t.lines_v().len(),
            0 <= i <= count,
            forall|k: int| 0 <= k < i ==> #[trigger] shown_spans(view_line(*t, height, k), t.search_query@, theme) is Some,
            lines_of(rows@) == reader_rows(*t, theme, width as usize, height).take(i as int),
        decreases count - i,
    {
        let li = indices[top + i];
        let sl = &t.cached_lines[li];
        assert(view_line(*t, height, i as int) == sl@);
        let base = if query_empty {
            sl.line.copy()
        } else {
            match highlight_search(&sl.line, t.search_query.as_str(), theme) {
                Some(l) => l,
                None => {
                    assert(shown_spans(view_line(*t, height, i as int), t.search_query@, theme) is None);
                    return None;
                },
            }
        };
        let ghost marked_expected = if sl@.is_heading && sl@.heading_text is Some {
            seq![sv(fold_marker(t.folded().contains(sl@.heading_text->0)), Style::spec_fg(theme.text_dim))] + base@
        } else {
            base@
        };
        let mut line = base;
        if sl.is_heading {
            match &sl.heading_text {
                Some(text) => {
                    let found = index_of(&t.folded_headings, text);
                    proof {
                        if let Some(k) = found {
                            assert(crate::markdown::strings_view(t.folded_headings@)[k as int] == text@);
                        }
                    }
                    let marker = fold_marker_span(found.is_some(), theme);
                    let ghost before = line@;
                    line.spans.insert(0, marker);
                    assert(line@ =~= seq![marker@] + before);
                },
                None => {},
            }
        }
        assert(line@ == marked_expected);
        if top + i == t.cursor {
            let mut lit = set_bg(&line, theme.cursor_bg);
            pad_line(&mut lit, width as usize, theme.cursor_bg);
            line = lit;
        }
        let ghost before_rows = lines_of(rows@);
        rows.push(line);
        proof {
            assert(lines_of(rows@) =~= before_rows.push(line@));
        }
        i = i + 1;
        assert(lines_of(rows@) =~= reader_rows(*t, theme, width as usize, height).take(i as int));
    }
    assert(reader_rows(*t, theme, width as usize, height).take(i as int) =~= reader_rows(*t, theme, width as usize, height));
    Some(rows)
}

impl AppState {
    /// Lays the active tab out for a content area `width` by `height`: renders its
    /// lines if the cache does not hold them and records how many lines are shown
    /// and how many fit. Returns false, changing nothing, where rendering would cut
    /// a table cell inside a character.
    pub fn prepare_reader(&mut self, width: u16, height: u16) -> (ok: bool)
        requires
            old(self).inv(),
        ensures
            final(self).inv(),
            ok == (old(self).active().cache_hit(width, old(self).theme) || crate::markdown::renders(
                old(self).active().content@,
                old(self).theme,
                width,
            )),
            ok ==> {
                let t = final(self).active();
                &&& t.lines_v() == Tab::rendered(old(self).active().content@, old(self).theme, width, old(self).active().filter_tasks)
                &&& t.cache_hit(width, old(self).theme)
                &&& t.total_lines == t.visible().len()
                &&& t.visible_height == height as usize
                &&& t == (Tab {
                    cached_lines: t.cached_lines,
                    cache_content: t.cache_content,
                    cache_theme: t.cache_theme,
                    cache_width: t.cache_width,
                    cache_filter: t.cache_filter,
                    total_lines: t.total_lines,
                    visible_height: t.visible_height,
                    ..old(self).active()
                })
                &&& final(self).tabs@ == old(self).tabs@.update(old(self).active_tab as int, t)
                &&& *final(self) == (AppState { tabs: final(self).tabs, ..*old(self) })
            },
            !ok ==> final(self).tabs@ == old(self).tabs@ && *final(self) == (AppState { tabs: final(self).tabs, ..*old(self) }),
    {
        let theme = self.theme;
        let a = self.active_tab;
        let ghost t0 = self.active();
        proof {
            assert(self.tabs@[a as int].inv());
        }
        let mut tab = self.tabs.remove(a);
        let ghost rest = self.tabs@;
        let ok = tab.refresh_lines(width, theme);
        if ok {
            let n = tab.visible_line_indices().len();
            tab.total_lines = n;
            tab.visible_height = height as usize;
        }
        self.tabs.insert(a, tab);
        proof {
            assert(self.tabs@ =~= old(self).tabs@.update(a as int, self.tabs@[a as int]));
            assert forall|i: int| 0 <= i < self.tabs@.len() implies #[trigger] self.tabs@[i].inv() by {
                if i != a {
                    assert(self.tabs@[i] == old(self).tabs@[i]);
                }
            }
            if !ok {
                assert(self.tabs@[a as int] == old(self).tabs@[a as int]);
                assert(self.tabs@ =~= old(self).tabs@);
                assert(self.tabs@ == old(self).tabs@);
            }
        }
        ok
    }
}

} // verus!

verus! {

/// The file name that `std::path::Path::file_name` finds in the path with these
/// characters (its last component, unless that is `..`), as characters.
pub uninterp spec fn path_file_name(p: Seq<char>) -> Option<Seq<char>>;

/// An optional string by its characters.
pub open spec fn opt_chars(o: Option<String>) -> Option<Seq<char>> {
    match o {
        Some(s) => Some(s@),
        None => None,
    }
}

/// `std::path::Path::file_name` on the path `p`, converted to a string (losslessly:
/// a path made from a `str` is valid UTF-8). The result is named `path_file_name`.
#[verifier::external_body]
fn file_name_of(p: &str) -> (r: Option<String>)
    ensures
        opt_chars(r) == path_file_name(p@),
{
    match std::path::Path::new(p).file_name() {
        Some(n) => Some(n.to_string_lossy().into_owned()),
        None => None,
    }
}

/// The label of a tab whose file has the name `file_name`: that name, or
/// `untitled` where there is none.
pub open spec fn spec_tab_label(file_name: Option<Seq<char>>) -> Seq<char> {
    match file_name {
        Some(n) => n,
        None => "untitled"@,
    }
}

/// The label of a tab whose file has the name `file_name`.
pub fn tab_label(file_name: Option<String>) -> (r: String)
    ensures
        r@ == spec_tab_label(opt_chars(file_name)),
{
    match file_name {
        Some(n) => n,
        None => string_of(chars_of("untitled").as_slice()),
    }
}

/// What the tab bar shows for a tab with this file path.
pub open spec fn tab_name_of(file_path: Option<String>) -> Seq<char> {
    match file_path {
        Some(p) => spec_tab_label(path_file_name(p@)),
        None => "untitled"@,
    }
}

impl AppState {
    /// The names the tab bar shows: each tab's file name, `untitled` without one.
    pub fn tab_names(&self) -> (r: Vec<String>)
        ensures
            r@.len() == self.tabs@.len(),
            forall|i: int| 0 <= i < r@.len() ==> #[trigger] r@[i]@ == tab_name_of(self.tabs@[i].file_path),
    {
        let mut r: Vec<String> = Vec::new();
        let mut k: usize = 0;
        while k < self.tabs.len()
            invariant
                0 <= k <= self.tabs@.len(),
                r@.len() == k,
                forall|i: int| 0 <= i < k ==> #[trigger] r@[i]@ == tab_name_of(self.tabs@[i].file_path),
            decreases self.tabs@.len() - k,
        {
            let name = match &self.tabs[k].file_path {
                Some(p) => tab_label(file_name_of(p.as_str())),
                None => tab_label(None),
            };
            r.push(name);
            k = k + 1;
        }
        r
    }
}

/// What the status line says of a search. Outside the search prompt, with a
/// query set, its last span is `/` and the query, followed by ` (i/n)` where `n`
/// lines match and the current match is the `i`-th (counted from one), and by
/// nothing where none match. At the prompt it shows `/`, the query, then the
/// same ` (i/n)`, or ` (no matches)` for a query that matches nothing.
pub proof fn lemma_status_shows_search(s: AppState, home: Option<Seq<char>>, scroll_pct: usize)
    ensures
        ({
            let t = s.active();
            let q = t.search_query@;
            let n = t.search_matches@.len();
            let count = " ("@ + crate::markdown::decimal((t.search_current + 1) as nat) + "/"@
                + crate::markdown::decimal(n) + ")"@;
            let l = status_spans(s, home, scroll_pct);
            &&& !(s.mode is Search) && q.len() > 0 && n > 0 ==> l.last().content == "/"@ + q + count
            &&& !(s.mode is Search) && q.len() > 0 && n == 0 ==> l.last().content == "/"@ + q
            &&& s.mode is Search ==> l.len() == 3 && l[0].content == "/"@ && l[1].content == q
            &&& s.mode is Search && n > 0 ==> l[2].content == count
            &&& s.mode is Search && n == 0 && q.len() > 0 ==> l[2].content == " (no matches)"@
        }),
{
    reveal_strlit("/");
    reveal_strlit(")");
    let t = s.active();
    let n = t.search_matches@.len();
    let count = " ("@ + crate::markdown::decimal((t.search_current + 1) as nat) + "/"@
        + crate::markdown::decimal(n) + ")"@;
    assert(match_count(t.search_current, n) =~= count);
}

} // verus!
