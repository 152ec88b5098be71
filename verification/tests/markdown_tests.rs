use mdr::markdown::{line_text_of, md_event, parse_markdown, try_parse_markdown, Align, MdEvent, StyledLine};
use pulldown_cmark::{Alignment, CowStr, Event, HeadingLevel, Tag, TagEnd};
use mdr::style::{Color, Style};
use mdr::theme::default_theme;

fn texts(lines: &[StyledLine]) -> Vec<String> {
    lines.iter().map(|l| line_text_of(&l.line.spans)).collect()
}

#[test]
fn heading_then_paragraph() {
    let t = default_theme();
    let lines = parse_markdown("# Title\n\nHello world", t, 80);
    assert_eq!(texts(&lines), vec!["#  Title".to_string(), "".to_string(), "Hello world".to_string()]);
    assert!(lines[0].is_heading);
    assert_eq!(lines[0].heading_level, Some(1));
    assert_eq!(lines[0].heading_text.as_deref(), Some("#  Title"));
    assert!(lines[1].is_blank);
    assert!(!lines[2].is_heading);
    assert_eq!(lines[2].source_line, None);
    assert_eq!(lines[0].line.spans[0].style, Style::fg_bold(t.accent));
    assert_eq!(lines[2].line.spans[0].style, Style::fg(t.text));
}

#[test]
fn heading_levels_have_their_colors() {
    let t = default_theme();
    let lines = parse_markdown("## Two\n\n### Three", t, 80);
    assert_eq!(lines[0].line.spans[0].style, Style::fg_bold(t.heading));
    assert_eq!(line_text_of(&lines[0].line.spans), "##  Two");
    assert_eq!(lines[2].line.spans[0].style, Style::fg_bold(t.text_bright));
    assert_eq!(lines[2].heading_level, Some(3));
}

#[test]
fn task_items_record_their_source_lines() {
    let t = default_theme();
    let lines = parse_markdown("- [ ] one\n- [x] two\n", t, 80);
    assert_eq!(texts(&lines), vec!["  [ ]  one".to_string(), "  [x]  two".to_string()]);
    assert_eq!(lines[0].source_line, Some(0));
    assert_eq!(lines[1].source_line, Some(1));
}

#[test]
fn bullets_and_numbers() {
    let t = default_theme();
    let lines = parse_markdown("- a\n- b\n\n1. x\n2. y", t, 80);
    assert_eq!(
        texts(&lines),
        vec!["  •  a".to_string(), "  •  b".to_string(), "".to_string(), "  1.  x".to_string(), "  2.  y".to_string()]
    );
}

#[test]
fn code_block_lines_are_indented() {
    let t = default_theme();
    let lines = parse_markdown("```\nlet x = 1;\nlet y = 2;\n```", t, 80);
    assert_eq!(texts(&lines), vec!["  let x = 1;".to_string(), "  let y = 2;".to_string()]);
    assert_eq!(lines[0].line.spans[1].style, Style::fg(t.text_dim));
}

#[test]
fn rule_spans_the_width_less_two() {
    let t = default_theme();
    let lines = parse_markdown("---", t, 10);
    assert_eq!(texts(&lines), vec!["────────".to_string()]);
}

#[test]
fn words_wrap_at_the_width() {
    let t = default_theme();
    let lines = parse_markdown("aaaa bbbb cccc", t, 12);
    assert_eq!(texts(&lines), vec!["aaaa bbbb".to_string(), "cccc".to_string()]);
}

#[test]
fn blockquote_has_a_bar() {
    let t = default_theme();
    let lines = parse_markdown("> quoted text", t, 80);
    assert_eq!(texts(&lines), vec!["  │ quoted text".to_string()]);
}

#[test]
fn emphasis_styles() {
    let t = default_theme();
    let lines = parse_markdown("**b** *i* ~~s~~", t, 80);
    let spans = &lines[0].line.spans;
    let b = spans.iter().find(|s| s.content == "b").unwrap();
    let i = spans.iter().find(|s| s.content == "i").unwrap();
    let s = spans.iter().find(|s| s.content == "s").unwrap();
    assert!(b.style.bold && !b.style.italic);
    assert!(i.style.italic && !i.style.bold);
    assert!(s.style.crossed_out);
}

#[test]
fn inline_code_is_quoted() {
    let t = default_theme();
    let lines = parse_markdown("use `x` here", t, 80);
    let code = lines[0].line.spans.iter().find(|s| s.content == "`x`").unwrap();
    assert_eq!(code.style, Style::fg(t.accent));
}

#[test]
fn table_rows_are_padded_and_aligned() {
    let t = default_theme();
    let lines = parse_markdown("| a | b |\n|---|--:|\n| 1 | 2 |", t, 80);
    let got = texts(&lines);
    assert_eq!(got.len(), 3);
    assert_eq!(got[0], format!("  a{} │ {}b", " ".repeat(14), " ".repeat(14)));
    assert_eq!(got[1], "  ────────┼────────");
    assert_eq!(got[2], format!("  1{} │ {}2", " ".repeat(14), " ".repeat(14)));
    assert_eq!(lines[1].line.spans[0].style, Style::fg(t.border));
}

#[test]
fn long_table_cells_are_cut() {
    let t = default_theme();
    let lines = parse_markdown("| h |\n|---|\n| abcdefghijklmnopq |", t, 80);
    let got = texts(&lines);
    assert_eq!(got[2], "  abcdefghijklmn…");
}

#[test]
fn no_trailing_blank_lines() {
    let t = default_theme();
    let lines = parse_markdown("para\n\n\n", t, 80);
    assert!(!lines.last().unwrap().is_blank);
    assert!(parse_markdown("", t, 80).is_empty());
}

#[test]
fn try_parse_succeeds_on_plain_text() {
    let t = default_theme();
    let got = try_parse_markdown("text", t, 80).unwrap();
    assert_eq!(texts(&got), vec!["text".to_string()]);
}

#[test]
fn parser_events_drive_the_rendering() {
    let t = default_theme();
    let lines = parse_markdown("# A\n\n- [x] t", t, 80);
    assert_eq!(texts(&lines), vec!["#  A".to_string(), "".to_string(), "  [x]  t".to_string()]);
    assert!(lines[0].is_heading);
    assert_eq!(lines[2].source_line, Some(2));
}

#[test]
fn style_colors_are_rgb() {
    let t = default_theme();
    assert_eq!(t.accent, Color::Rgb(192, 153, 255));
}

#[test]
fn table_cell_cut_inside_a_character_is_refused() {
    let t = default_theme();
    let src = "| h |\n|---|\n| aaaaaaaaaaaaaéx |";
    assert!(try_parse_markdown(src, t, 80).is_none());
    let mut tab = mdr::state::Tab::new("/d/t.md".to_string(), src.to_string(), t);
    assert!(!tab.refresh_lines(80, t));
    assert!(tab.cached_lines.is_empty());
}

#[test]
fn parser_events_convert_variant_for_variant() {
    let heading = Tag::Heading { level: HeadingLevel::H3, id: None, classes: vec![], attrs: vec![] };
    assert!(matches!(md_event(Event::Start(heading), 0), MdEvent::StartHeading(3)));
    assert!(matches!(md_event(Event::End(TagEnd::Paragraph), 0), MdEvent::EndParagraph));
    assert!(matches!(md_event(Event::End(TagEnd::Link), 0), MdEvent::Other));
    let table = Tag::Table(vec![Alignment::None, Alignment::Right]);
    match md_event(Event::Start(table), 0) {
        MdEvent::StartTable(a) => assert_eq!(a, vec![Align::Unset, Align::Right]),
        _ => panic!("a table start converts to a table start"),
    }
    match md_event(Event::Text(CowStr::Borrowed("héllo")), 0) {
        MdEvent::Text(s) => assert_eq!(s, "héllo"),
        _ => panic!("text converts to text"),
    }
    assert!(matches!(md_event(Event::TaskListMarker(true), 7), MdEvent::TaskListMarker(true, 7)));
    assert!(matches!(md_event(Event::HardBreak, 0), MdEvent::LineBreak));
    assert!(matches!(md_event(Event::Html(CowStr::Borrowed("<b>")), 0), MdEvent::Other));
}

#[test]
fn wide_characters_wrap_by_display_width() {
    let t = default_theme();
    let lines = parse_markdown("中中 中中 中中", t, 12);
    assert_eq!(texts(&lines), vec!["中中 中中".to_string(), "中中".to_string()]);
}
