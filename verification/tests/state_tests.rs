use mdr::browser::DirListing;
use mdr::markdown::{line_text_of, parse_markdown};
use mdr::state::{dir_or_dot, filter_task_lines, reader_dir, AppMode, AppState, Tab};
use mdr::theme::{default_theme, Theme};
use mdr::style::Color;
use mdr::ui::tab_label;

fn tab_with(content: &str) -> Tab {
    let t = default_theme();
    let mut tab = Tab::new("/d/f.md".to_string(), content.to_string(), t);
    assert!(tab.refresh_lines(80, t));
    tab.visible_height = 10;
    tab.total_lines = tab.visible_line_indices().len();
    tab
}

fn other_theme() -> Theme {
    let mut t = default_theme();
    t.accent = Color::Rgb(1, 2, 3);
    t
}

fn app() -> AppState {
    let themes = vec![("default".to_string(), default_theme()), ("other".to_string(), other_theme())];
    AppState::new_reader(
        "/d/a.md".to_string(),
        "# A\n".to_string(),
        0,
        themes,
        true,
        DirListing { items: None },
    )
}

#[test]
fn task_filter_keeps_headings_and_open_tasks() {
    let t = default_theme();
    let lines = parse_markdown("# H\n\n- [ ] a\n- [x] b\n\ntext", t, 80);
    let got = filter_task_lines(lines);
    let texts: Vec<String> = got.iter().map(|l| line_text_of(&l.line.spans)).collect();
    assert_eq!(texts, vec!["#  H".to_string(), "".to_string(), "  [ ]  a".to_string()]);
    assert!(got[0].is_heading);
    assert!(got[1].is_blank);
}

#[test]
fn task_filter_separates_sections() {
    let t = default_theme();
    let lines = parse_markdown("# A\n\n- [ ] a\n\n# B\n\n- [ ] b", t, 80);
    let got = filter_task_lines(lines);
    let kinds: Vec<(bool, bool)> = got.iter().map(|l| (l.is_heading, l.is_blank)).collect();
    assert_eq!(kinds, vec![(true, false), (false, true), (false, false), (false, true), (true, false), (false, true), (false, false)]);
}

#[test]
fn cached_lines_follow_the_content() {
    let t = default_theme();
    let mut tab = Tab::new("/d/f.md".to_string(), "one".to_string(), t);
    let n = tab.get_parsed_lines(80, t).len();
    assert_eq!(n, 1);
    tab.content = "one\n\ntwo".to_string();
    assert_eq!(tab.get_parsed_lines(80, t).len(), 3);
    assert_eq!(tab.get_parsed_lines(80, t).len(), 3);
    tab.filter_tasks = true;
    assert_eq!(tab.get_parsed_lines(80, t).len(), 0);
}

#[test]
fn cursor_moves_and_view_follows() {
    let mut tab = tab_with("a\n\nb\n\nc\n\nd\n\ne");
    tab.visible_height = 3;
    assert_eq!(tab.total_lines, 9);
    tab.cursor_down(4);
    assert_eq!((tab.cursor, tab.scroll), (4, 2));
    tab.cursor_down(100);
    assert_eq!((tab.cursor, tab.scroll), (8, 6));
    tab.cursor_up(7);
    assert_eq!((tab.cursor, tab.scroll), (1, 1));
    tab.cursor_bottom();
    assert_eq!((tab.cursor, tab.scroll), (8, 6));
    tab.cursor_top();
    assert_eq!((tab.cursor, tab.scroll), (0, 0));
}

#[test]
fn scrolling_drags_the_cursor() {
    let mut tab = tab_with("a\n\nb\n\nc\n\nd\n\ne");
    tab.visible_height = 3;
    tab.scroll_viewport(3, true);
    assert_eq!((tab.scroll, tab.cursor), (3, 3));
    tab.scroll_viewport(100, true);
    assert_eq!((tab.scroll, tab.cursor), (6, 6));
    tab.scroll_viewport(5, false);
    assert_eq!((tab.scroll, tab.cursor), (1, 3));
}

#[test]
fn checkbox_toggles_and_back() {
    let t = default_theme();
    let mut tab = tab_with("- [ ] a\n- [x] b\n");
    assert!(tab.toggle_checkbox());
    assert_eq!(tab.content, "- [x] a\n- [x] b\n");
    assert!(tab.cache_content.is_none());
    assert!(tab.refresh_lines(80, t));
    assert!(tab.toggle_checkbox());
    assert_eq!(tab.content, "- [ ] a\n- [x] b\n");
    tab.cursor = 1;
    assert!(tab.toggle_checkbox());
    assert_eq!(tab.content, "- [ ] a\n- [ ] b\n");
}

#[test]
fn checkbox_on_uppercase_mark_opens_it() {
    let mut tab = tab_with("- [X] done");
    assert!(tab.toggle_checkbox());
    assert_eq!(tab.content, "- [ ] done");
}

#[test]
fn checkbox_off_a_task_does_nothing() {
    let mut tab = tab_with("plain\n");
    assert!(!tab.toggle_checkbox());
    assert_eq!(tab.content, "plain\n");
}

#[test]
fn task_navigation_wraps() {
    let mut tab = tab_with("# T\n\n- [x] done\n- [ ] open\n");
    tab.next_task();
    assert_eq!(tab.cursor, 3);
    tab.next_task();
    assert_eq!(tab.cursor, 3);
    tab.cursor = 0;
    tab.prev_task();
    assert_eq!(tab.cursor, 3);
    let mut none = tab_with("# T\n\n- [x] done\n");
    none.next_task();
    assert_eq!(none.cursor, 0);
}

#[test]
fn folding_hides_a_section() {
    let mut tab = tab_with("# A\ntext a\n# B\ntext b");
    assert_eq!(tab.visible_line_indices(), vec![0, 1, 2, 3, 4, 5, 6]);
    tab.toggle_fold();
    assert_eq!(tab.folded_headings, vec!["#  A".to_string()]);
    assert_eq!(tab.visible_line_indices(), vec![0, 1, 4, 5, 6]);
    tab.toggle_fold();
    assert!(tab.folded_headings.is_empty());
    tab.fold_all();
    assert_eq!(tab.visible_line_indices(), vec![0, 1, 4, 5]);
    tab.unfold_all();
    assert_eq!(tab.visible_line_indices().len(), 7);
    tab.cursor = 2;
    tab.activate();
    assert!(tab.folded_headings.is_empty());
    tab.cursor = 0;
    tab.activate();
    assert_eq!(tab.folded_headings.len(), 1);
}

#[test]
fn search_finds_lines_ignoring_case() {
    let mut tab = tab_with("Alpha\nbeta ALPHA\ngamma");
    tab.open_search();
    tab.type_query('a');
    tab.type_query('l');
    assert_eq!(tab.search_query, "al");
    assert_eq!(tab.search_matches, vec![0, 1]);
    tab.erase_query();
    assert_eq!(tab.search_matches, vec![0, 1, 2]);
    tab.search_query = "alpha".to_string();
    tab.update_search();
    tab.search_next();
    assert_eq!((tab.search_current, tab.cursor), (1, 1));
    tab.search_next();
    assert_eq!(tab.search_current, 0);
    tab.search_prev();
    assert_eq!(tab.search_current, 1);
    tab.scroll = 1;
    tab.search_first();
    assert_eq!(tab.search_current, 1);
    tab.close_search();
    assert!(tab.search_matches.is_empty());
    assert!(tab.search_query.is_empty());
}

#[test]
fn escape_clears_search_and_filter() {
    let mut tab = tab_with("x");
    assert!(!tab.clear_filters());
    tab.toggle_filter_tasks();
    tab.cursor = 0;
    assert!(tab.clear_filters());
    assert!(!tab.filter_tasks);
}

#[test]
fn reload_marks_changes_only() {
    let mut tab = tab_with("x");
    assert!(!tab.reload("x".to_string()));
    assert!(!tab.file_updated);
    assert!(tab.reload("y".to_string()));
    assert!(tab.file_updated);
    assert_eq!(tab.content, "y");
}

#[test]
fn tabs_open_switch_and_close() {
    let mut s = app();
    assert!(matches!(s.mode, AppMode::Reader));
    assert!(!s.open_file("/d/b.md"));
    s.add_file_tab("/d/b.md".to_string(), "b".to_string());
    assert_eq!(s.tabs.len(), 2);
    assert_eq!(s.active_tab, 1);
    assert!(s.open_file("/d/a.md"));
    assert_eq!(s.active_tab, 0);
    s.next_tab();
    assert_eq!(s.active_tab, 1);
    s.next_tab();
    assert_eq!(s.active_tab, 0);
    s.prev_tab();
    assert_eq!(s.active_tab, 1);
    assert_eq!(s.tab_file_paths(), vec!["/d/a.md".to_string(), "/d/b.md".to_string()]);
    s.close_tab();
    assert_eq!(s.tabs.len(), 1);
    assert_eq!(s.active_tab, 0);
    s.close_tab();
    assert_eq!(s.tabs.len(), 1);
    assert_eq!(s.tab().content, "# A\n");
}

#[test]
fn picker_placeholder_tab_is_replaced() {
    let themes = vec![("default".to_string(), default_theme())];
    let mut s = AppState::new_picker("/d".to_string(), 0, themes, false, DirListing { items: Some(vec![]) });
    assert!(matches!(s.mode, AppMode::FilePicker));
    assert!(s.tab().file_path.is_none());
    s.add_file_tab("/d/x.md".to_string(), "x".to_string());
    assert_eq!(s.tabs.len(), 1);
    assert_eq!(s.tab().file_path.as_deref(), Some("/d/x.md"));
    assert!(matches!(s.mode, AppMode::Reader));
}

#[test]
fn theme_preview_then_cancel_restores() {
    let mut s = app();
    s.open_theme_picker();
    assert!(matches!(s.mode, AppMode::ThemePicker { original_index: 0 }));
    s.next_theme();
    assert_eq!(s.theme_index, 1);
    assert_eq!(s.theme.accent, Color::Rgb(1, 2, 3));
    s.theme_picker_cancel();
    assert_eq!(s.theme_index, 0);
    assert_eq!(s.theme, default_theme());
    assert!(matches!(s.mode, AppMode::Reader));
}

#[test]
fn theme_confirm_names_the_choice() {
    let mut s = app();
    assert_eq!(s.theme_picker_confirm(), None);
    s.open_theme_picker();
    s.last_theme();
    assert_eq!(s.theme_picker_confirm(), Some("other".to_string()));
    assert!(matches!(s.mode, AppMode::Reader));
    assert_eq!(s.theme_index, 1);
    s.open_theme_picker();
    s.prev_theme();
    s.first_theme();
    assert_eq!(s.theme_index, 0);
}

#[test]
fn help_opens_and_closes() {
    let mut s = app();
    s.open_help();
    assert!(matches!(s.mode, AppMode::Help));
    s.open_theme_picker();
    assert!(matches!(s.mode, AppMode::Help));
    s.close_help();
    assert!(matches!(s.mode, AppMode::Reader));
}

#[test]
fn search_mode_enters_and_leaves() {
    let mut s = app();
    s.start_search();
    assert!(matches!(s.mode, AppMode::Search));
    s.tab_mut().type_query('a');
    s.cancel_search();
    assert!(matches!(s.mode, AppMode::Reader));
    assert!(s.tab().search_query.is_empty());
    s.start_search();
    s.accept_search();
    assert!(matches!(s.mode, AppMode::Reader));
}

#[test]
fn file_picker_opens_and_closes() {
    let mut s = app();
    assert!(s.open_file_picker());
    assert!(matches!(s.mode, AppMode::FilePicker));
    assert!(!s.open_file_picker());
    s.close_file_picker();
    assert!(matches!(s.mode, AppMode::Reader));
}

#[test]
fn tab_names_are_file_names() {
    let mut a = app();
    a.add_file_tab("/d/notes/b.md".to_string(), "x".to_string());
    assert_eq!(a.tab_names(), vec!["a.md".to_string(), "b.md".to_string()]);
    assert_eq!(tab_label(None), "untitled");
    assert_eq!(tab_label(Some("c.md".to_string())), "c.md");
}

#[test]
fn checkbox_toggle_changes_only_the_mark() {
    let before = "# Tasks\n\nsome text\n\n  - [ ] nested item\n- [x] other\n";
    let mut tab = tab_with(before);
    tab.cursor = 0;
    while !tab.toggle_checkbox() {
        tab.cursor += 1;
    }
    let a: Vec<char> = before.chars().collect();
    let b: Vec<char> = tab.content.chars().collect();
    assert_eq!(a.len(), b.len());
    let diffs: Vec<usize> = (0..a.len()).filter(|&i| a[i] != b[i]).collect();
    assert_eq!(diffs.len(), 1);
    assert_eq!((a[diffs[0]], b[diffs[0]]), (' ', 'x'));
}

#[test]
fn reader_starts_the_picker_on_the_file_directory() {
    assert_eq!(app().browser.current_dir, "/d");
    assert_eq!(reader_dir("/d/notes/a.md"), "/d/notes");
    assert_eq!(reader_dir("/"), ".");
    assert_eq!(reader_dir("a.md"), "");
    assert_eq!(dir_or_dot(None), ".");
    assert_eq!(dir_or_dot(Some("/x".to_string())), "/x");
}

#[test]
fn closing_the_last_tab_quits() {
    let mut a = app();
    assert!(a.close_tab_or_quit());
    assert_eq!(a.tabs.len(), 1);
    a.add_file_tab("/d/b.md".to_string(), "x".to_string());
    assert!(!a.close_tab_or_quit());
    assert_eq!(a.tabs.len(), 1);
    assert_eq!(a.tabs[0].file_path.as_deref(), Some("/d/a.md"));
}

#[test]
fn paging_scrolls_a_view_height() {
    let mut tab = tab_with("a\n\nb\n\nc\n\nd\n\ne");
    tab.visible_height = 3;
    tab.page_down();
    assert_eq!((tab.scroll, tab.cursor), (3, 3));
    tab.page_down();
    assert_eq!((tab.scroll, tab.cursor), (6, 6));
    tab.page_down();
    assert_eq!((tab.scroll, tab.cursor), (6, 6));
    tab.page_up();
    assert_eq!((tab.scroll, tab.cursor), (3, 5));
}

#[test]
fn a_fold_hides_its_section_down_to_the_next_heading_as_high() {
    let mut tab = tab_with("# A\n\ntext\n\n## B\n\nmore\n\n# C\n\nend");
    assert_eq!(tab.visible_line_indices(), (0..11).collect::<Vec<usize>>());
    tab.cursor = 0;
    tab.toggle_fold();
    assert_eq!(tab.visible_line_indices(), vec![0, 1, 8, 9, 10]);
}
