use mdr::browser::{
    git_listed_entries, git_root_from_output, picker_list_height, walk_step, BrowserEntry, BrowserState, DirItem,
    DirListing, Entered, WalkStep,
};

fn item(name: &str, is_dir: bool) -> DirItem {
    DirItem { name: name.to_string(), path: format!("/d/{}", name), is_dir }
}

fn listing() -> DirListing {
    DirListing {
        items: Some(vec![
            item("b.md", false),
            item("a.md", false),
            item("sub", true),
            item(".hidden", true),
            item("x.txt", false),
            item("c.markdown", false),
        ]),
    }
}

fn names(b: &BrowserState) -> Vec<String> {
    b.entries.iter().map(|e| e.name.clone()).collect()
}

#[test]
fn listing_orders_parent_dirs_then_files() {
    let b = BrowserState::new("/d".to_string(), listing());
    assert_eq!(names(&b), vec!["..", "sub/", "a.md", "b.md", "c.markdown"]);
    assert_eq!(b.entries[0].path, "/");
    assert!(b.entries[1].is_dir);
    assert_eq!(b.filtered_indices, vec![0, 1, 2, 3, 4]);
    assert_eq!(b.selected, 0);
    assert!(!b.recursive_loading());
}

#[test]
fn unreadable_directory_keeps_only_the_parent() {
    let b = BrowserState::new("/d".to_string(), DirListing { items: None });
    assert_eq!(names(&b), vec![".."]);
    assert_eq!(b.entries[0].path, "/");
    assert_eq!(b.filtered_indices, vec![0]);
    let root = BrowserState::new("/".to_string(), DirListing { items: None });
    assert!(root.entries.is_empty());
    assert!(root.filtered_indices.is_empty());
}

#[test]
fn selection_moves_within_bounds() {
    let mut b = BrowserState::new("/d".to_string(), listing());
    b.select_up();
    assert_eq!(b.selected, 0);
    for _ in 0..10 {
        b.select_down();
    }
    assert_eq!(b.selected, 4);
    b.select_first();
    assert_eq!((b.selected, b.scroll_offset), (0, 0));
    b.select_last(2);
    assert_eq!((b.selected, b.scroll_offset), (4, 3));
    b.page_up(2);
    assert_eq!((b.selected, b.scroll_offset), (2, 2));
    b.page_down(10);
    assert_eq!(b.selected, 4);
}

#[test]
fn scroll_follows_the_selection() {
    let mut b = BrowserState::new("/d".to_string(), listing());
    b.selected = 3;
    b.adjust_scroll(2);
    assert_eq!(b.scroll_offset, 2);
    b.selected = 0;
    b.adjust_scroll(2);
    assert_eq!(b.scroll_offset, 0);
}

#[test]
fn entering_a_directory_and_a_file() {
    let mut b = BrowserState::new("/d".to_string(), listing());
    b.selected = 2;
    match b.enter_selected() {
        Entered::File(p) => assert_eq!(p, "/d/a.md"),
        _ => panic!("expected a file"),
    }
    b.selected = 1;
    assert!(matches!(b.enter_selected(), Entered::Directory));
    assert_eq!(b.current_dir, "/d/sub");
    b.load_dir(DirListing { items: Some(vec![item("n.md", false)]) });
    assert_eq!(names(&b), vec!["..", "n.md"]);
    assert_eq!(b.entries[0].path, "/d");
    b.selected = 7;
    assert!(matches!(b.enter_selected(), Entered::Nothing));
}

#[test]
fn typing_filters_by_fuzzy_match() {
    let mut b = BrowserState::new("/d".to_string(), listing());
    b.push_filter('a');
    assert_eq!(b.filter, "a");
    let got: Vec<String> = b.filtered_entries().iter().map(|(_, e)| e.name.clone()).collect();
    assert!(got.contains(&"a.md".to_string()));
    assert!(got.contains(&"c.markdown".to_string()));
    assert!(!got.contains(&"b.md".to_string()));
    b.pop_filter();
    assert_eq!(b.filter, "");
    assert_eq!(b.filtered_indices, vec![0, 1, 2, 3, 4]);
    b.push_filter('z');
    b.clear_filter();
    assert_eq!(b.filtered_indices.len(), 5);
}

#[test]
fn collected_files_replace_the_source_while_filtering() {
    let mut b = BrowserState::new("/d".to_string(), listing());
    assert!(b.preload_recursive());
    assert!(!b.preload_recursive());
    assert!(b.recursive_loading());
    let found = vec![BrowserEntry { name: "deep/notes.md".into(), path: "/r/deep/notes.md".into(), is_dir: false }];
    assert!(b.poll_recursive(Some(found)));
    assert!(!b.recursive_loading());
    assert!(!b.poll_recursive(None));
    b.push_filter('n');
    let got = b.filtered_entries();
    assert_eq!(got.len(), 1);
    assert_eq!(got[0].1.path, "/r/deep/notes.md");
    assert_eq!(b.active_source().len(), 1);
}

#[test]
fn refresh_keeps_the_selected_name() {
    let mut b = BrowserState::new("/d".to_string(), listing());
    b.selected = 3;
    let mut items = vec![item("0.md", false)];
    items.extend(listing().items.unwrap());
    b.refresh(DirListing { items: Some(items) });
    assert_eq!(b.entries[b.filtered_indices[b.selected]].name, "b.md");
}

#[test]
fn refresh_keeps_the_position_of_a_removed_entry() {
    let mut b = BrowserState::new("/d".to_string(), listing());
    b.selected = 3;
    let items: Vec<DirItem> = listing().items.unwrap().into_iter().filter(|i| i.name != "b.md").collect();
    b.refresh(DirListing { items: Some(items) });
    assert_eq!(b.selected, 3);
    assert_eq!(b.entries[b.filtered_indices[b.selected]].name, "c.markdown");
    let items: Vec<DirItem> = vec![item("a.md", false)];
    b.refresh(DirListing { items: Some(items) });
    assert_eq!(b.selected, 1);
}

#[test]
fn git_output_becomes_sorted_entries() {
    let got = git_listed_entries("b.md\n\nsub/a.md\n", "/r");
    let names: Vec<&str> = got.iter().map(|e| e.name.as_str()).collect();
    assert_eq!(names, vec!["b.md", "sub/a.md"]);
    assert_eq!(got[1].path, "/r/sub/a.md");
    assert!(!got[0].is_dir);
    assert_eq!(git_root_from_output("  /repo\n"), "/repo");
}

#[test]
fn walking_skips_hidden_and_other_files() {
    assert!(matches!(walk_step(".git", true), WalkStep::Skip));
    assert!(matches!(walk_step("docs", true), WalkStep::Descend));
    assert!(matches!(walk_step("a.md", false), WalkStep::Collect));
    assert!(matches!(walk_step("a.markdown", false), WalkStep::Collect));
    assert!(matches!(walk_step("a.rs", false), WalkStep::Skip));
}

#[test]
fn picker_list_height_from_terminal() {
    assert_eq!(picker_list_height(40), 26);
    assert_eq!(picker_list_height(4), 0);
}

#[test]
fn typing_then_erasing_restores_the_matches() {
    let mut b = BrowserState::new("/d".to_string(), listing());
    b.push_filter('m');
    let before = b.filtered_indices.clone();
    assert!(!before.is_empty());
    b.push_filter('d');
    b.pop_filter();
    assert_eq!(b.filter, "m");
    assert_eq!(b.filtered_indices, before);
}

#[test]
fn equal_names_keep_their_listing_order() {
    let items = vec![
        DirItem { name: "b.md".to_string(), path: "/x/b.md".to_string(), is_dir: false },
        DirItem { name: "a.md".to_string(), path: "/first/a.md".to_string(), is_dir: false },
        DirItem { name: "a.md".to_string(), path: "/second/a.md".to_string(), is_dir: false },
    ];
    let b = BrowserState::new("/d".to_string(), DirListing { items: Some(items) });
    let paths: Vec<String> = b.entries.iter().map(|e| e.path.clone()).collect();
    assert_eq!(paths, vec!["/", "/first/a.md", "/second/a.md", "/x/b.md"]);
}
