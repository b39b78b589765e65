use bstl::color::{
    color_named, is_readable, is_sliceable, parse_hex_color, reset_cursor_color, set_cursor_color,
    Color,
};
use bstl::config::{
    config_source, with_fallbacks, BorderType, BstlConfig, ConfigSource, LauncherTheme,
};

fn theme_config(content: &str) -> BstlConfig {
    let table: toml::Table = content.parse().unwrap();
    let theme = table["theme"].as_table().unwrap();
    let mut cfg = BstlConfig::default();
    if let Some(focus) = theme.get("focus") {
        cfg.colors.focus = focus.as_str().unwrap().to_string();
    }
    if let Some(color) = theme.get("cursor_color") {
        cfg.colors.cursor_color = color.as_str().unwrap().to_string();
    }
    with_fallbacks(cfg)
}

#[test]
fn cursor_color_falls_back_to_focus_when_empty() {
    let cfg = theme_config(
        r##"
            [theme]
            focus = "#112233"
            "##,
    );
    assert_eq!(cfg.colors.cursor_color, "#112233");
}

#[test]
fn cursor_color_explicit_overrides_focus() {
    let cfg = theme_config(
        r##"
            [theme]
            focus = "#112233"
            cursor_color = "#aabbcc"
            "##,
    );
    assert_eq!(cfg.colors.cursor_color, "#aabbcc");
}

#[test]
fn a_blank_cursor_color_counts_as_none() {
    let mut cfg = BstlConfig::default();
    cfg.colors.cursor_color = " \t".to_string();
    assert_eq!(with_fallbacks(cfg).colors.cursor_color, "#00ff00");
}

#[test]
fn defaults_are_those_of_the_manual() {
    let cfg = BstlConfig::default();
    assert_eq!(cfg.terminal, "foot");
    assert_eq!(cfg.max_recent_apps, 15);
    assert_eq!(cfg.history_window_days, 90);
    assert_eq!(cfg.popularity_weight, 10);
    assert!(!cfg.recent_first);
    assert_eq!(cfg.colors.unfocused, "#808080");
}

#[test]
fn the_users_file_comes_first() {
    assert_eq!(config_source(true, true), ConfigSource::User);
    assert_eq!(config_source(false, true), ConfigSource::System);
    assert_eq!(config_source(false, false), ConfigSource::Defaults);
}

#[test]
fn colors_have_three_lengths() {
    assert_eq!(LauncherTheme::parse_color(" #fA0 "), Color::Rgb(255, 170, 0));
    assert_eq!(LauncherTheme::parse_color("#102030"), Color::Rgb(16, 32, 48));
    assert_eq!(LauncherTheme::parse_color("#102030ff"), Color::Rgb(16, 32, 48));
    assert_eq!(LauncherTheme::parse_color("#10203"), Color::Reset);
    assert_eq!(LauncherTheme::parse_color("#10203g"), Color::Reset);
    assert_eq!(LauncherTheme::parse_color("102030"), Color::Reset);
    assert_eq!(color_named("#fff"), Color::Rgb(255, 255, 255));
}

#[test]
fn cursor_colors_become_sequences() {
    assert_eq!(parse_hex_color("#0f8"), Some((0, 255, 136)));
    assert_eq!(parse_hex_color("red"), None);
    assert_eq!(
        set_cursor_color("#0a10ff").as_deref(),
        Some("\u{1b}]12;rgb:0a/10/ff\u{7}")
    );
    assert_eq!(set_cursor_color("nothing"), None);
    assert_eq!(reset_cursor_color(), "\u{1b}]112\u{7}");
}

#[test]
fn colors_are_cut_between_characters() {
    assert!(is_sliceable("#112233") && is_readable("#112233"));
    // Three bytes, but two characters.
    assert!(!is_sliceable("#a\u{e4}"));
}

#[test]
fn borders_go_by_name() {
    assert_eq!(LauncherTheme::parse_border_type("Rounded"), BorderType::Rounded);
    assert_eq!(LauncherTheme::parse_border_type("THICK"), BorderType::Thick);
    assert_eq!(LauncherTheme::parse_border_type("double"), BorderType::Double);
    assert_eq!(LauncherTheme::parse_border_type("wavy"), BorderType::Plain);
}
