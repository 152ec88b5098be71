use mdr::config::{config_dir_in, default_scrollbar, join_path, theme_name_for_file, Config};
use mdr::style::Color;
use mdr::theme::{default_theme, find_theme, hex_would_cut, parse_hex, resolve_themes, LabelsConfig, ThemeConfig, UiConfig};

fn ui(accent: Option<&str>, text: Option<&str>) -> UiConfig {
    UiConfig {
        border: None,
        accent: accent.map(String::from),
        text: text.map(String::from),
        text_bright: None,
        text_dim: None,
        text_muted: None,
        heading: None,
        error: None,
        cursor_bg: None,
    }
}

#[test]
fn hex_colors_parse() {
    assert_eq!(parse_hex("#ff8000"), Some(Color::Rgb(255, 128, 0)));
    assert_eq!(parse_hex("#C0FFEE"), Some(Color::Rgb(192, 255, 238)));
    assert_eq!(parse_hex("ff8000"), None);
    assert_eq!(parse_hex("#ff80"), None);
    assert_eq!(parse_hex("#zz0000"), None);
}

#[test]
fn hex_strings_that_would_cut_a_character() {
    assert!(hex_would_cut("#aé123"));
    assert!(!hex_would_cut("#ff8000"));
    assert!(!hex_would_cut("#é12345"));
    assert_eq!(parse_hex("#é12345"), None);
}

#[test]
fn empty_config_resolves_to_the_base() {
    let base = default_theme();
    let cfg = ThemeConfig { colors: vec![], ui: None, labels: None };
    assert!(cfg.resolvable());
    assert_eq!(cfg.resolve(&base), base);
}

#[test]
fn roles_take_palette_colors() {
    let base = default_theme();
    let cfg = ThemeConfig {
        colors: vec![("bad".into(), "#xyz".into()), ("pink".into(), "#ff00ff".into())],
        ui: Some(ui(Some("pink"), Some("bad"))),
        labels: Some(LabelsConfig {
            bugs: Some("pink".into()),
            features: Some("missing".into()),
            improvements: None,
            refactor: None,
            docs: None,
            chore: None,
        }),
    };
    let t = cfg.resolve(&base);
    assert_eq!(t.accent, Color::Rgb(255, 0, 255));
    assert_eq!(t.text, base.text);
    assert_eq!(t.labels.bugs, Color::Rgb(255, 0, 255));
    assert_eq!(t.labels.features, base.labels.features);
    assert_eq!(t.border, base.border);
}

#[test]
fn no_configs_gives_the_default_theme() {
    let themes = resolve_themes(&vec![]);
    assert_eq!(themes.len(), 1);
    assert_eq!(themes[0].0, "default");
    assert_eq!(themes[0].1, default_theme());
}

#[test]
fn themes_keep_config_order_and_find_by_name() {
    let cfgs = vec![
        ("alpha".to_string(), ThemeConfig { colors: vec![("c".into(), "#010203".into())], ui: Some(ui(Some("c"), None)), labels: None }),
        ("beta".to_string(), ThemeConfig { colors: vec![], ui: None, labels: None }),
    ];
    let themes = resolve_themes(&cfgs);
    assert_eq!(themes.len(), 2);
    assert_eq!(themes[0].0, "alpha");
    assert_eq!(themes[0].1.accent, Color::Rgb(1, 2, 3));
    assert_eq!(find_theme(&themes, "beta").map(|(i, _)| i), Some(1));
    assert_eq!(find_theme(&themes, "gamma"), None);
}

#[test]
fn settings_defaults() {
    assert!(default_scrollbar());
    let c = Config::fallback();
    assert!(c.scrollbar);
    assert_eq!(c.theme, None);
    let d = Config::default();
    assert!(!d.scrollbar);
}

#[test]
fn paths_join_with_one_slash() {
    assert_eq!(join_path("a", "b"), "a/b");
    assert_eq!(join_path("a/", "b"), "a/b");
    assert_eq!(join_path("", "b"), "b");
    assert_eq!(config_dir_in("/home/u"), "/home/u/.config/mdr");
    assert_eq!(config_dir_in("/"), "/.config/mdr");
}

#[test]
fn theme_files_name_themes() {
    assert_eq!(theme_name_for_file("tokyo-night-moon.toml"), Some("tokyo night moon".to_string()));
    assert_eq!(theme_name_for_file("a.b.toml"), Some("a.b".to_string()));
    assert_eq!(theme_name_for_file(".toml"), None);
    assert_eq!(theme_name_for_file("notes.txt"), None);
    assert_eq!(theme_name_for_file("toml"), None);
    assert_eq!(theme_name_for_file("x.tomlx"), None);
}

#[test]
fn settings_locations_end_in_the_right_files() {
    if let Some(p) = mdr::config::config_path() {
        assert!(p.ends_with(".config/mdr/config.toml"));
    }
    if let Some(p) = mdr::config::themes_dir() {
        assert!(p.ends_with(".config/mdr/themes"));
    }
}

#[test]
fn hex_colors_take_six_digits_and_no_sign() {
    assert_eq!(parse_hex("#3b4261"), Some(Color::Rgb(59, 66, 97)));
    assert_eq!(parse_hex("#+f+f+f"), None);
    assert_eq!(parse_hex("#+fffff"), None);
    assert_eq!(parse_hex("3b4261"), None);
    assert_eq!(parse_hex("#fff"), None);
}
