use mdr::browser::{BrowserEntry, BrowserState, DirItem, DirListing};
use mdr::highlight::highlight_search;
use mdr::keys::{command_for, Command, Key};
use mdr::markdown::line_text_of;
use mdr::state::{AppMode, AppState};
use mdr::style::{Color, Line, Span, Style};
use mdr::theme::default_theme;
use mdr::ui::{
    centered_rect, entry_list_lines, file_picker_filter_line, file_picker_hint, file_picker_lines, file_picker_popup,
    file_picker_title, help_entries, help_lines, help_popup, reader_lines, shorten_path, status_line, tab_bar_line,
    theme_picker_lines, theme_picker_popup, Rect,
};

fn text(l: &Line) -> String {
    line_text_of(&l.spans)
}

fn app(content: &str) -> AppState {
    AppState::new_reader(
        "/d/a.md".to_string(),
        content.to_string(),
        0,
        vec![("default".to_string(), default_theme())],
        true,
        DirListing { items: None },
    )
}

#[test]
fn rectangles_center_and_clamp() {
    let area = Rect { x: 0, y: 0, width: 40, height: 20 };
    assert_eq!(centered_rect(10, 4, area), Rect { x: 15, y: 8, width: 10, height: 4 });
    let small = Rect { x: 2, y: 3, width: 40, height: 20 };
    assert_eq!(centered_rect(50, 30, small), Rect { x: 2, y: 3, width: 40, height: 20 });
    let edge = Rect { x: 65530, y: 0, width: 10, height: 10 };
    assert_eq!(centered_rect(10, 4, edge).width, 5);
}

#[test]
fn popups_are_placed() {
    let area = Rect { x: 0, y: 0, width: 100, height: 40 };
    assert_eq!(help_popup(area), Rect { x: 24, y: 8, width: 51, height: 23 });
    assert_eq!(file_picker_popup(area), Rect { x: 12, y: 5, width: 75, height: 30 });
    assert_eq!(theme_picker_popup(2, Rect { x: 0, y: 0, width: 80, height: 24 }), Rect { x: 21, y: 9, width: 38, height: 6 });
    let narrow = Rect { x: 0, y: 0, width: 40, height: 40 };
    assert_eq!(file_picker_popup(narrow).width, 36);
}

#[test]
fn home_is_written_as_tilde() {
    let home = Some("/home/u".to_string());
    assert_eq!(shorten_path("/home/u/docs/a.md", &home), "~/docs/a.md");
    assert_eq!(shorten_path("/etc/a.md", &home), "/etc/a.md");
    assert_eq!(shorten_path("/home/u/a.md", &None), "/home/u/a.md");
    assert_eq!(file_picker_title("/home/u/docs", &home), " ~/docs ");
}

#[test]
fn tab_bar_highlights_the_active_tab() {
    let t = default_theme();
    let l = tab_bar_line(&vec!["a.md".to_string(), "b.md".to_string()], 1, t);
    assert_eq!(text(&l), "  a.md   b.md  ");
    assert_eq!(l.spans[1].style, Style::fg(t.text_dim));
    assert!(l.spans[3].style.bold);
    assert_eq!(l.spans[3].style.bg, Some(t.cursor_bg));
}

#[test]
fn help_lists_every_key() {
    let t = default_theme();
    let lines = help_lines(t);
    assert_eq!(lines.len(), help_entries().len());
    assert_eq!(lines.len(), 19);
    assert_eq!(lines[0].spans[0].content, " j / Down      ");
    assert_eq!(lines[0].spans[1].content, "Move cursor down / Select next");
    assert_eq!(lines[0].spans[0].style, Style::fg(t.accent));
}

#[test]
fn theme_picker_marks_the_choice() {
    let t = default_theme();
    let lines = theme_picker_lines(&vec!["a".to_string(), "b".to_string()], 1, t, 10);
    assert_eq!(text(&lines[0]), "   a");
    assert_eq!(text(&lines[1]), " > b      ");
    assert_eq!(lines[1].spans[1].style.bg, Some(t.cursor_bg));
}

#[test]
fn file_list_rows() {
    let t = default_theme();
    let up = BrowserEntry { name: "..".into(), path: "/".into(), is_dir: true };
    let dir = BrowserEntry { name: "sub/".into(), path: "/d/sub".into(), is_dir: true };
    let file = BrowserEntry { name: "a.md".into(), path: "/d/a.md".into(), is_dir: false };
    let rows = entry_list_lines(&vec![(&up, false), (&dir, true), (&file, false)], t, "none", 0, 10, 20);
    assert_eq!(text(&rows[0]), "   ^ ..");
    assert_eq!(rows[0].spans[0].style, Style::fg(t.text_dim));
    assert_eq!(text(&rows[1]), format!("   / sub/{}", " ".repeat(11)));
    assert_eq!(text(&rows[2]), "     a.md");
    assert_eq!(rows[2].spans[2].style, Style::fg(t.text));
    let scrolled = entry_list_lines(&vec![(&up, false), (&dir, true), (&file, false)], t, "none", 1, 1, 20);
    assert_eq!(scrolled.len(), 1);
    let empty = entry_list_lines(&vec![], t, "   No matches", 0, 10, 20);
    assert_eq!(text(&empty[0]), "   No matches");
}

#[test]
fn file_picker_pieces() {
    let t = default_theme();
    let items = vec![DirItem { name: "a.md".into(), path: "/d/a.md".into(), is_dir: false }];
    let mut b = BrowserState::new("/d".into(), DirListing { items: Some(items) });
    let rows = file_picker_lines(&b, t, 5, 12);
    assert_eq!(text(&rows[0]), "   ^ ..     ");
    assert_eq!(text(&rows[1]), "     a.md");
    b.push_filter('q');
    let rows = file_picker_lines(&b, t, 5, 12);
    assert_eq!(text(&rows[0]), "   No matches");
    assert_eq!(text(&file_picker_filter_line("", t)), " type to filter...");
    assert_eq!(text(&file_picker_filter_line("ab", t)), " > ab");
    assert_eq!(text(&file_picker_hint(t)), " enter:open  esc:close");
}

#[test]
fn status_line_reading() {
    let mut s = app("# A\n");
    assert_eq!(text(&status_line(&s, &None, 100)), "mdr │ /d/a.md │ 100% │ ?:help");
    s.tab_mut().file_updated = true;
    s.tab_mut().filter_tasks = true;
    assert_eq!(
        text(&status_line(&s, &Some("/d".to_string()), 7)),
        "mdr │ ~/a.md │ 7% │ ?:help │ [filter] │ [updated]"
    );
}

#[test]
fn status_line_searching() {
    let mut s = app("alpha\nbeta alpha");
    s.start_search();
    assert_eq!(text(&status_line(&s, &None, 0)), "/");
    s.tab_mut().type_query('a');
    assert_eq!(text(&status_line(&s, &None, 0)), "/a (1/2)");
    s.tab_mut().type_query('z');
    assert_eq!(text(&status_line(&s, &None, 0)), "/az (no matches)");
    s.accept_search();
    assert_eq!(text(&status_line(&s, &None, 0)), "mdr │ /d/a.md │ 0% │ ?:help │ /az");
}

#[test]
fn reader_rows_mark_headings_and_the_cursor() {
    let t = default_theme();
    let mut s = app("# A\n\ntext");
    assert!(s.prepare_reader(20, 10));
    assert_eq!(s.tab().total_lines, 3);
    assert_eq!(s.tab().visible_height, 10);
    let rows = reader_lines(s.tab(), t, 20, 10).unwrap();
    assert_eq!(rows.len(), 3);
    assert_eq!(text(&rows[0]), format!("▼ #  A{}", " ".repeat(14)));
    assert_eq!(rows[0].spans[0].style.bg, Some(t.cursor_bg));
    assert_eq!(text(&rows[2]), "text");
    s.tab_mut().toggle_fold();
    let rows = reader_lines(s.tab(), t, 20, 10).unwrap();
    assert!(text(&rows[0]).starts_with("▶ "));
    let short = reader_lines(s.tab(), t, 20, 1).unwrap();
    assert_eq!(short.len(), 1);
}

#[test]
fn reader_rows_highlight_the_query() {
    let t = default_theme();
    let mut s = app("say hello");
    assert!(s.prepare_reader(40, 10));
    s.tab_mut().type_query('h');
    s.tab_mut().cursor = 5;
    let rows = reader_lines(s.tab(), t, 40, 10).unwrap();
    let hit = rows[0].spans.iter().find(|sp| sp.content == "h").unwrap();
    assert_eq!(hit.style.bg, Some(t.accent));
}

#[test]
fn highlight_cuts_matches_out() {
    let t = default_theme();
    let line = Line { spans: vec![Span::styled("Hello World".to_string(), Style::fg(t.text))] };
    let got = highlight_search(&line, "world", t).unwrap();
    assert_eq!(got.spans.len(), 2);
    assert_eq!(got.spans[0].content, "Hello ");
    assert_eq!(got.spans[0].style, Style::fg(t.text));
    assert_eq!(got.spans[1].content, "World");
    assert_eq!(got.spans[1].style.bg, Some(t.accent));
    assert!(got.spans[1].style.bold);
    let twice = highlight_search(&Line { spans: vec![Span::raw("abab".to_string())] }, "B", t).unwrap();
    let parts: Vec<&str> = twice.spans.iter().map(|s| s.content.as_str()).collect();
    assert_eq!(parts, vec!["a", "b", "a", "b"]);
}

#[test]
fn highlight_fails_where_lowercase_moves_the_bytes() {
    let t = default_theme();
    let line = Line { spans: vec![Span::raw("İx".to_string())] };
    assert!(highlight_search(&line, "x", t).is_none());
}

#[test]
fn tab_names_fall_back_to_untitled() {
    let themes = vec![("default".to_string(), default_theme())];
    let mut s = AppState::new_picker("/d".into(), 0, themes, true, DirListing { items: None });
    assert_eq!(s.tab_names(), vec!["untitled".to_string()]);
    s.add_file_tab("/d/notes.md".into(), "x".into());
    assert_eq!(s.tab_names(), vec!["notes.md".to_string()]);
}

#[test]
fn key_bindings() {
    assert_eq!(command_for(AppMode::Reader, Key::Char('j'), false), Command::CursorDown);
    assert_eq!(command_for(AppMode::Reader, Key::Down, false), Command::CursorDown);
    assert_eq!(command_for(AppMode::Reader, Key::Char('n'), true), Command::NextTask);
    assert_eq!(command_for(AppMode::Reader, Key::Char('n'), false), Command::NextMatch);
    assert_eq!(command_for(AppMode::Reader, Key::Char('f'), true), Command::PageDown);
    assert_eq!(command_for(AppMode::Reader, Key::Char('b'), true), Command::PageUp);
    assert_eq!(command_for(AppMode::Reader, Key::PageDown, false), Command::PageDown);
    assert_eq!(command_for(AppMode::Reader, Key::PageUp, false), Command::PageUp);
    assert_eq!(command_for(AppMode::Reader, Key::Char('q'), false), Command::Quit);
    assert_eq!(command_for(AppMode::Reader, Key::Char('W'), false), Command::CloseTab);
    assert_eq!(command_for(AppMode::Reader, Key::Char('F'), false), Command::ToggleTaskFilter);
    assert_eq!(command_for(AppMode::Reader, Key::Char('f'), false), Command::OpenFilePicker);
    assert_eq!(command_for(AppMode::Help, Key::Char('c'), true), Command::Quit);
    assert_eq!(command_for(AppMode::FilePicker, Key::Char('a'), false), Command::FilterPush('a'));
    assert_eq!(command_for(AppMode::FilePicker, Key::Char('j'), true), Command::SelectDown);
    assert_eq!(command_for(AppMode::Search, Key::Char('j'), false), Command::QueryPush('j'));
    assert_eq!(command_for(AppMode::ThemePicker { original_index: 0 }, Key::Char('j'), false), Command::NextTheme);
    assert_eq!(command_for(AppMode::Help, Key::Char('?'), false), Command::CloseHelp);
    assert_eq!(command_for(AppMode::Help, Key::Char('x'), false), Command::Nothing);
}

#[test]
fn colors_compare() {
    assert_ne!(Color::Rgb(0, 0, 0), Color::Rgb(0, 0, 1));
}
