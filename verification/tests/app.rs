use bstl::app::{App, AppEntry, Focus, Mode, SinglePaneMode};
use bstl::config::{BstlConfig, CursorShape, LauncherTheme, SearchPosition, StartMode};
use bstl::desktop::CachedApp;
use bstl::storage::{AppRow, Launch, Storage};
use bstl::table::TextMap;

const NOW: i64 = 1_767_225_600;

fn test_config() -> BstlConfig {
    BstlConfig {
        dmenu: false,
        search_position: SearchPosition::Top,
        start_mode: StartMode::Single,
        focus_search_on_switch: true,
        colors: LauncherTheme {
            border: String::new(),
            focus: String::new(),
            unfocused: String::new(),
            highlight: String::new(),
            border_style: String::new(),
            highlight_type: String::new(),
            cursor_color: String::new(),
            cursor_shape: CursorShape::Block,
            cursor_blink_interval: 0,
        },
        terminal: "foot".into(),
        timeout: 0,
        max_recent_apps: 5,
        recent_first: true,
        print_selection: false,
        sway: false,
        history_window_days: 90,
        top_recent_count: 5,
        popularity_weight: 10,
    }
}

fn for_test(config: BstlConfig, popularity: TextMap<u32>) -> App {
    let mut app = App::new(
        SinglePaneMode::DesktopApps,
        Mode::SinglePane,
        &config,
        Storage::in_memory(),
        TextMap::new(),
        &Vec::new(),
        NOW,
        0,
    );
    app.popularity = popularity;
    app
}

fn entry(name: &str, category: &str, exec_line: &str) -> AppEntry {
    AppEntry {
        name: name.into(),
        category: category.into(),
        exec_line: exec_line.into(),
        terminal: false,
        comment: String::new(),
    }
}

fn row(name: &str, category: &str, exec_line: &str, terminal: bool) -> AppRow {
    AppRow {
        app: CachedApp {
            name: name.into(),
            category: category.into(),
            exec_line: exec_line.into(),
            terminal,
            raw_categories: String::new(),
        },
        source_path: format!("/apps/{}.desktop", name),
        file_mtime: 1,
    }
}

fn stocked() -> Storage {
    let mut storage = Storage::in_memory();
    storage.apps.push(row("vim", "Utilities", "vim %F", true));
    storage.apps.push(row("Firefox", "Network", "/usr/bin/firefox --new", false));
    storage.apps.push(row("Zed", "zeta", "zed", false));
    storage.apps.push(row("Alpha", "Alpha Menu", "alpha", false));
    storage.apps.push(row("blender", "Graphics", "blender", false));
    storage
}

fn names(app: &App) -> Vec<&str> {
    app.visible_apps().iter().map(|a| a.name.as_str()).collect()
}

#[test]
fn prefix_match_with_higher_popularity_wins_tie() {
    // Both "Firefox" and "Final Fantasy" are prefix matches for "f", but
    // Firefox has been launched many times. It should rank above.
    let mut pop = TextMap::new();
    pop.insert("Firefox".to_string(), 50);
    pop.insert("Final Fantasy".to_string(), 0);
    let app = for_test(test_config(), pop);

    let firefox = app.matches_search("Firefox", "f").unwrap();
    let final_fantasy = app.matches_search("Final Fantasy", "f").unwrap();
    assert!(
        firefox > final_fantasy,
        "Firefox ({}) should outrank Final Fantasy ({})",
        firefox,
        final_fantasy
    );
}

#[test]
fn prefix_match_always_beats_fuzzy_match_regardless_of_popularity() {
    // Even if a fuzzy-matched app has been launched a lot, a prefix match
    // for the query must rank higher.
    let mut pop = TextMap::new();
    pop.insert("Firefox".to_string(), 0);
    pop.insert("Inkscape".to_string(), 1000); // wildly popular but only fuzzy-matches "f"
    let app = for_test(test_config(), pop);

    let firefox = app.matches_search("Firefox", "f").unwrap();
    let inkscape = app.matches_search("Inkscape", "f").unwrap_or(0);
    assert!(
        firefox > inkscape,
        "Prefix match Firefox ({}) must beat fuzzy match Inkscape ({})",
        firefox,
        inkscape
    );
}

#[test]
fn empty_query_default_view_puts_top_n_first() {
    let mut pop = TextMap::new();
    pop.insert("Firefox".to_string(), 50);
    pop.insert("Vim".to_string(), 30);
    let mut app = for_test(test_config(), pop);
    app.apps = vec![
        entry("Aaa", "Util", "a"),
        entry("Vim", "Util", "vim"),
        entry("Firefox", "Net", "firefox"),
        entry("Zzz", "Util", "z"),
    ];

    let visible = app.visible_apps();
    let names: Vec<&str> = visible.iter().map(|a| a.name.as_str()).collect();
    // Top 2 by popularity first, then the rest in their own order.
    assert_eq!(names[0], "Firefox");
    assert_eq!(names[1], "Vim");
    assert!(names[2..].contains(&"Aaa"));
    assert!(names[2..].contains(&"Zzz"));
}

#[test]
fn the_default_view_keeps_the_order_of_the_rest() {
    let mut pop = TextMap::new();
    pop.insert("c".to_string(), 2);
    pop.insert("B".to_string(), 2);
    pop.insert("d".to_string(), 1);
    let mut config = test_config();
    config.top_recent_count = 2;
    let mut app = for_test(config, pop);
    app.apps = vec![
        entry("d", "x", "d"),
        entry("c", "x", "c"),
        entry("a", "x", "a"),
        entry("B", "x", "b"),
    ];
    // Equal counts go by lower-case name; of the launched apps only two lead.
    assert_eq!(names(&app), vec!["B", "c", "d", "a"]);
    app.config.top_recent_count = 0;
    assert_eq!(names(&app), vec!["B", "d", "c", "a"]);
    app.config.recent_first = false;
    assert_eq!(names(&app), vec!["d", "c", "a", "B"]);
}

#[test]
fn apps_with_the_name_of_a_leading_one_are_left_out_of_the_rest() {
    let mut pop = TextMap::new();
    pop.insert("Twin".to_string(), 3);
    let mut config = test_config();
    config.top_recent_count = 1;
    let mut app = for_test(config, pop);
    app.apps = vec![entry("Other", "x", "o"), entry("Twin", "x", "1"), entry("Twin", "x", "2")];
    let lines: Vec<&str> = app.visible_apps().iter().map(|a| a.exec_line.as_str()).collect();
    assert_eq!(lines, vec!["1", "o"]);
}

#[test]
fn a_search_shows_prefixes_then_other_matches() {
    let mut app = for_test(test_config(), TextMap::new());
    app.apps = vec![
        entry("GNU Image Editor", "x", "1"),
        entry("Gimp", "x", "2"),
        entry("Nothing", "x", "3"),
        entry("gIMP Toolkit", "x", "4"),
    ];
    app.input = tui_input::Input::new("GIM".to_string());
    assert_eq!(app.query(), "GIM");
    assert_eq!(names(&app), vec!["Gimp", "gIMP Toolkit", "GNU Image Editor"]);
    assert_eq!(app.try_visible_apps().map(|v| v.len()), Some(3));
}

#[test]
fn scores_are_exact() {
    let mut pop = TextMap::new();
    pop.insert("Firefox".to_string(), 7);
    pop.insert("Habit".to_string(), 5000);
    let app = for_test(test_config(), pop);
    assert_eq!(app.matches_search("Firefox", ""), Some(0));
    assert_eq!(app.matches_search("Firefox", "FIRE"), Some(1_000_070));
    assert_eq!(app.matches_search("Habit", "h"), Some(1_001_000));
    assert_eq!(app.matches_search("Vim", "firefox"), None);
    // One character in the middle of a word earns 16 points less the gap.
    assert_eq!(app.matches_search("Vim", "m"), Some(15));
    assert_eq!(app.matches_search("Firefox", "x"), Some(85));
}

#[test]
fn scores_that_do_not_fit_are_refused() {
    let mut pop = TextMap::new();
    pop.insert("Big".to_string(), 2);
    let mut config = test_config();
    config.popularity_weight = i64::MAX;
    let mut app = for_test(config, pop);
    app.apps = vec![entry("Big", "x", "b")];
    assert_eq!(app.try_matches_search("Big", "b"), None);
    assert_eq!(app.try_matches_search("Big", ""), Some(Some(0)));
    assert_eq!(app.try_matches_search("Small", "s"), Some(Some(1_000_000)));
    assert!(!app.is_searchable("b"));
    assert!(app.is_searchable(""));
    app.input = tui_input::Input::new("b".to_string());
    assert!(app.try_visible_apps().is_none());
}

#[test]
fn a_launch_leads_the_recent_apps() {
    let mut config = test_config();
    config.max_recent_apps = 2;
    let mut app = for_test(config, TextMap::new());
    app.add_to_recent("a".to_string(), NOW);
    app.add_to_recent("b".to_string(), NOW + 1);
    app.add_to_recent("a".to_string(), NOW + 2);
    assert_eq!(app.recent_apps, vec!["a", "b"]);
    app.add_to_recent("c".to_string(), NOW + 3);
    assert_eq!(app.recent_apps, vec!["c", "a"]);
    assert_eq!(app.popularity.get("a"), Some(&2));
    assert_eq!(app.popularity.get("c"), Some(&1));
    assert_eq!(app.storage.launches.len(), 4);
    assert_eq!(app.storage.launches[3].ts, "2026-01-01T00:00:03Z");
    assert_eq!(app.storage.recent_names(9), vec!["c", "a", "b"]);
}

#[test]
fn no_limit_keeps_one_recent_app() {
    let mut config = test_config();
    config.max_recent_apps = 0;
    let mut app = for_test(config, TextMap::new());
    app.add_to_recent("a".to_string(), NOW);
    app.add_to_recent("b".to_string(), NOW);
    assert_eq!(app.recent_apps, vec!["b"]);
}

#[test]
fn a_start_in_one_pane_lists_by_name() {
    let app = App::new(
        SinglePaneMode::DesktopApps,
        Mode::SinglePane,
        &BstlConfig::default(),
        stocked(),
        TextMap::new(),
        &Vec::new(),
        NOW,
        7,
    );
    assert_eq!(app.focus, Focus::Apps);
    assert_eq!(app.mode, Mode::SinglePane);
    assert_eq!(app.cursor_last_toggle, 7);
    assert_eq!(names(&app), vec!["Alpha", "blender", "Firefox", "vim", "Zed"]);
    assert_eq!(
        app.categories,
        vec!["Recent", "Utilities", "Network", "Graphics", "Alpha Menu", "zeta"]
    );
}

#[test]
fn a_start_takes_over_the_history() {
    let mut storage = stocked();
    storage.launches.push(Launch { ts: "2020-01-01T00:00:00Z".into(), name: "old".into() });
    storage.launches.push(Launch { ts: "2025-12-31T00:00:00Z".into(), name: "new".into() });
    let app = App::new(
        SinglePaneMode::DesktopApps,
        Mode::DualPane,
        &BstlConfig::default(),
        storage,
        TextMap::new(),
        &Vec::new(),
        NOW,
        0,
    );
    assert_eq!(app.focus, Focus::Categories);
    assert_eq!(app.recent_apps, vec!["new", "old"]);
    assert_eq!(app.popularity.get("new"), Some(&1));
    assert_eq!(app.popularity.get("old"), None);
}

#[test]
fn executables_run_in_a_terminal_unless_an_app_starts_them() {
    let app = App::new(
        SinglePaneMode::Dmenu,
        Mode::SinglePane,
        &BstlConfig::default(),
        stocked(),
        TextMap::new(),
        &vec!["vim".to_string(), "firefox".to_string(), "Awk".to_string()],
        NOW,
        0,
    );
    assert_eq!(app.categories, vec!["CLI"]);
    assert_eq!(names(&app), vec!["Awk", "firefox", "vim"]);
    assert_eq!(
        app.apps.iter().map(|a| a.terminal).collect::<Vec<bool>>(),
        vec![true, false, true]
    );
    assert_eq!(app.apps[0].exec_line, "Awk");
    assert_eq!(app.apps[0].category, "CLI");
}

#[test]
fn toggling_goes_there_and_back() {
    let bins = vec!["ls".to_string()];
    let mut app = App::new(
        SinglePaneMode::DesktopApps,
        Mode::SinglePane,
        &BstlConfig::default(),
        stocked(),
        TextMap::new(),
        &bins,
        NOW,
        0,
    );
    app.selected_app = 3;
    app.toggle_mode(&bins);
    assert_eq!((app.mode, app.focus), (Mode::DualPane, Focus::Categories));
    assert_eq!(app.selected_app, 0);
    app.toggle_mode(&bins);
    assert_eq!((app.mode, app.focus), (Mode::SinglePane, Focus::Apps));
    assert_eq!(app.apps.len(), 5);
    app.toggle_dmenu_mode(&bins);
    assert_eq!(app.single_pane_mode, SinglePaneMode::Dmenu);
    assert_eq!(names(&app), vec!["ls"]);
    app.toggle_dmenu_mode(&bins);
    assert_eq!(app.single_pane_mode, SinglePaneMode::DesktopApps);
    assert_eq!(app.apps.len(), 5);
}

#[test]
fn the_cursor_blinks_at_its_interval() {
    let mut app = for_test(test_config(), TextMap::new());
    app.cursor_visible = false;
    app.update_cursor_blink(5);
    assert!(app.cursor_visible);
    app.config.colors.cursor_blink_interval = 500;
    app.reset_cursor_blink(1_000);
    app.update_cursor_blink(500_000_999);
    assert!(app.cursor_visible);
    app.update_cursor_blink(500_001_000);
    assert!(!app.cursor_visible);
    assert_eq!(app.cursor_last_toggle, 500_001_000);
}

#[test]
fn a_copy_shows_its_cursor() {
    let mut app = for_test(test_config(), TextMap::new());
    app.apps = vec![entry("One", "x", "1")];
    app.cursor_visible = false;
    app.input = tui_input::Input::new("on".to_string());
    let copy = app.clone_at(44);
    assert!(copy.cursor_visible);
    assert_eq!(copy.cursor_last_toggle, 44);
    assert_eq!(copy.query(), "on");
    assert_eq!(names(&copy), vec!["One"]);
}

#[test]
fn what_needs_a_terminal() {
    assert!(entry("x", "CLI", "x").needs_terminal());
    assert!(entry("x", "Util", "python3 x.py").needs_terminal());
    assert!(entry("x", "Util", "sh x").needs_terminal());
    assert!(!entry("x", "Util", "firefox").needs_terminal());
}
