use bstl::app::{App, AppEntry, Focus, Mode, SinglePaneMode};
use bstl::catalog::load_for_mode;
use bstl::color::{is_readable, is_sliceable};
use bstl::config::BstlConfig;
use bstl::desktop::{clean_exec, parse_desktop_file, CachedApp};
use bstl::events::{handle_key, handle_mouse};
use bstl::keys::{KeyCode, KeyEvent, KeyKind, MouseEvent, MouseKind, Rect, CONTROL};
use bstl::launch::{build_sway_exec_string, Command};
use bstl::ranking::{rank, RankKey};
use bstl::storage::{AppRow, DirectoryScan, ScannedFile, Storage};
use bstl::table::TextMap;

const NOW: i64 = 1_767_225_600;

fn row(name: &str, category: &str) -> AppRow {
    AppRow {
        app: CachedApp {
            name: name.into(),
            category: category.into(),
            exec_line: format!("run {}", name),
            terminal: false,
            raw_categories: String::new(),
        },
        source_path: format!("/apps/{}.desktop", name),
        file_mtime: 1,
    }
}

fn launcher(names: &[(&str, &str)], mode: Mode) -> App {
    let mut storage = Storage::in_memory();
    for (name, category) in names {
        storage.apps.push(row(name, category));
    }
    App::new(
        SinglePaneMode::DesktopApps,
        mode,
        &BstlConfig::default(),
        storage,
        TextMap::new(),
        &Vec::new(),
        NOW,
        0,
    )
}

fn press(app: &mut App, code: KeyCode, modifiers: u8) -> bool {
    handle_key(app, KeyEvent { code, modifiers, kind: KeyKind::Press }, &Vec::new(), 0)
}

fn names(app: &App) -> Vec<String> {
    app.visible_apps().iter().map(|a: &&AppEntry| a.name.clone()).collect()
}

#[test]
fn items_of_equal_rank_keep_their_order() {
    let key = |weight: i64, stamp: &str, text: &str| RankKey {
        weight,
        stamp: stamp.chars().collect(),
        text: text.chars().collect(),
    };
    let keys = vec![
        key(1, "a", "x"),
        key(2, "a", "y"),
        key(2, "b", "z"),
        key(1, "a", "x"),
        key(2, "a", "x"),
    ];
    assert_eq!(rank(&keys), vec![2, 4, 1, 0, 3]);
    assert_eq!(rank(&vec![key(3, "", ""), key(2, "", ""), key(2, "", "")]), vec![0, 1, 2]);
}

/// Reads a line as sway does.
fn words_of(line: &str) -> Vec<String> {
    let mut words = Vec::new();
    let mut word: Option<String> = None;
    let mut quoted = false;
    let mut escaped = false;
    for c in line.chars() {
        if escaped {
            word.get_or_insert_with(String::new).push(c);
            escaped = false;
        } else if c == '\\' {
            escaped = true;
        } else if c == '"' {
            word.get_or_insert_with(String::new);
            quoted = !quoted;
        } else if c.is_whitespace() && !quoted {
            words.extend(word.take());
        } else {
            word.get_or_insert_with(String::new).push(c);
        }
    }
    words.extend(word);
    words
}

#[test]
fn sway_reads_what_was_meant() {
    let args = ["-c", "a, b; c", "say \"hi\"", "back\\slash", "", "tab\tbed"];
    let command = Command {
        program: "my prog".to_string(),
        args: args.iter().map(|s| s.to_string()).collect(),
    };
    let mut expected = vec!["my prog".to_string()];
    expected.extend(args.iter().map(|s| s.to_string()));
    assert_eq!(words_of(&build_sway_exec_string(&command)), expected);
}

#[test]
fn what_can_be_cut_can_be_read() {
    for color in ["#fff", "#112233", "#11223344", "none", "", "#\u{e4}\u{e4}\u{e4}"] {
        if is_sliceable(color) {
            assert!(is_readable(color));
        }
    }
    // The first part is no number, so that the cut inside the last is not made.
    assert!(is_readable("#xyz\u{e4}a") && !is_sliceable("#xyz\u{e4}a"));
}

#[test]
fn cleaned_lines_have_no_codes() {
    for code in "fFuUdDnNickvm".chars() {
        let line = clean_exec(&format!("a %{}b%{}", code, code));
        assert_eq!(line, "a b");
    }
}

#[test]
fn hidden_entries_stay_hidden() {
    let text = "[Desktop Entry]\nHidden=true\nName=A\nExec=a\nHidden=false\nNoDisplay=false\n";
    assert!(parse_desktop_file(text, &Vec::new()).is_none());
}

#[test]
fn a_second_refresh_changes_nothing() {
    let scan = || {
        vec![DirectoryScan {
            directory: "/d".to_string(),
            mtime: Some(4),
            files: Some(vec![ScannedFile {
                path: "/d/a.desktop".to_string(),
                mtime: Some(2),
                content: Some("[Desktop Entry]\nName=A\nExec=a\n".to_string()),
            }]),
        }]
    };
    let mut storage = Storage::in_memory();
    storage.refresh_app_cache(&scan(), &Vec::new());
    let once = format!("{:?}", storage);
    storage.refresh_app_cache(&scan(), &Vec::new());
    assert_eq!(format!("{:?}", storage), once);
}

#[test]
fn categories_are_listed_in_their_order() {
    let app = launcher(
        &[
            ("a", "zoo"),
            ("b", "Settings"),
            ("c", "Utilities"),
            ("d", "Apes"),
            ("e", "Games"),
            ("f", "zoo"),
        ],
        Mode::DualPane,
    );
    assert_eq!(
        app.categories,
        vec!["Recent", "Utilities", "Games", "Settings", "Apes", "zoo"]
    );
}

#[test]
fn lists_go_by_lower_case_names() {
    let mut storage = Storage::in_memory();
    for name in ["b", "A", "c", "B"] {
        storage.apps.push(row(name, "x"));
    }
    let (_, apps) = load_for_mode(
        SinglePaneMode::DesktopApps,
        &Vec::new(),
        &storage,
        &TextMap::new(),
    );
    let listed: Vec<&str> = apps.iter().map(|a| a.name.as_str()).collect();
    assert_eq!(listed, vec!["A", "b", "B", "c"]);
}

#[test]
fn a_search_shows_each_match_once_and_the_best_first() {
    let mut app = launcher(
        &[("Files", "x"), ("Profile", "x"), ("Firefox", "x"), ("Mail", "x"), ("fi", "x")],
        Mode::SinglePane,
    );
    for c in "fi".chars() {
        press(&mut app, KeyCode::Char(c), 0);
    }
    // Three names begin with the query, and keep their order.
    assert_eq!(names(&app), vec!["fi", "Files", "Firefox", "Profile"]);
    app.popularity.insert("Firefox".to_string(), 3);
    assert_eq!(names(&app), vec!["Firefox", "fi", "Files", "Profile"]);
    app.popularity.insert("Profile".to_string(), 4000);
    assert_eq!(names(&app), vec!["Firefox", "fi", "Files", "Profile"]);
    // Whatever launches weigh, they do not lift a name above the prefix.
    app.config.popularity_weight = 20_000;
    assert_eq!(names(&app), vec!["Firefox", "fi", "Files", "Profile"]);
    app.config.popularity_weight = -20_000;
    assert_eq!(names(&app), vec!["fi", "Files", "Firefox", "Profile"]);
}

#[test]
fn launches_rank_names_without_the_prefix() {
    let mut app = launcher(&[("Profile", "x"), ("Xfire", "x"), ("Firefox", "x")], Mode::SinglePane);
    for c in "fi".chars() {
        press(&mut app, KeyCode::Char(c), 0);
    }
    app.config.popularity_weight = 1_000_000_000;
    app.popularity.insert("Profile".to_string(), 2);
    app.popularity.insert("Xfire".to_string(), 5);
    assert_eq!(names(&app), vec!["Firefox", "Xfire", "Profile"]);
    app.popularity.insert("Profile".to_string(), 50);
    assert_eq!(names(&app), vec!["Firefox", "Profile", "Xfire"]);
}

#[test]
fn keys_leave_what_is_listed() {
    let mut app = launcher(&[("a", "x"), ("b", "y")], Mode::DualPane);
    let apps = format!("{:?} {:?} {:?}", app.apps, app.categories, app.storage);
    for code in [
        KeyCode::Up,
        KeyCode::Down,
        KeyCode::Left,
        KeyCode::Right,
        KeyCode::Char('b'),
        KeyCode::Backspace,
        KeyCode::Enter,
        KeyCode::Esc,
    ] {
        press(&mut app, code, 0);
    }
    assert_eq!(format!("{:?} {:?} {:?}", app.apps, app.categories, app.storage), apps);
}

#[test]
fn the_mouse_leaves_what_is_listed() {
    let mut app = launcher(&[("a", "x"), ("b", "y")], Mode::DualPane);
    app.apps_rect = Some(Rect { x: 0, y: 0, width: 9, height: 9 });
    let apps = format!("{:?} {:?} {:?}", app.apps, app.categories, app.storage);
    for kind in [MouseKind::LeftDown, MouseKind::ScrollUp, MouseKind::ScrollDown] {
        handle_mouse(&mut app, MouseEvent { kind, column: 3, row: 1 });
    }
    assert_eq!(format!("{:?} {:?} {:?}", app.apps, app.categories, app.storage), apps);
    assert_eq!(app.query(), "");
}

#[test]
fn steps_undo_each_other() {
    let mut app = launcher(&[("a", "x"), ("b", "x"), ("c", "y")], Mode::DualPane);
    app.selected_category = 1;
    press(&mut app, KeyCode::Down, 0);
    press(&mut app, KeyCode::Up, 0);
    assert_eq!((app.selected_category, app.selected_app), (1, 0));
    press(&mut app, KeyCode::Up, 0);
    press(&mut app, KeyCode::Up, 0);
    press(&mut app, KeyCode::Down, 0);
    press(&mut app, KeyCode::Down, 0);
    assert_eq!(app.selected_category, 1);
    press(&mut app, KeyCode::Right, 0);
    press(&mut app, KeyCode::Left, 0);
    assert_eq!(app.focus, Focus::Categories);
    press(&mut app, KeyCode::Right, 0);
    press(&mut app, KeyCode::Down, 0);
    assert_eq!(app.selected_app, 1);
    press(&mut app, KeyCode::Up, 0);
    assert_eq!(app.selected_app, 0);
}

#[test]
fn a_query_without_letters_starts_over() {
    let mut app = launcher(&[("a", "x"), ("b", "y")], Mode::DualPane);
    press(&mut app, KeyCode::Char('b'), 0);
    assert_eq!(app.selected_category, 2);
    press(&mut app, KeyCode::Char('u'), CONTROL);
    assert_eq!((app.query(), app.selected_category), (String::new(), 0));
}

#[test]
fn the_launcher_and_its_tables_agree_on_launches() {
    let mut app = launcher(&[("a", "x")], Mode::SinglePane);
    app.config.max_recent_apps = 3;
    for (i, name) in ["a", "b", "c", "a", "d", "b", "b"].iter().enumerate() {
        app.add_to_recent(name.to_string(), NOW + i as i64);
        assert_eq!(app.recent_apps, app.storage.recent_names(3));
    }
    let counted = app.storage.popularity_map(90, NOW + 7);
    for name in ["a", "b", "c", "d"] {
        assert_eq!(app.popularity.get(name), counted.get(name));
    }
}

#[test]
fn the_chosen_row_is_what_starts() {
    let mut app = launcher(&[("a", "x"), ("b", "x"), ("ab", "x")], Mode::SinglePane);
    press(&mut app, KeyCode::Char('b'), 0);
    press(&mut app, KeyCode::Down, 0);
    let shown = bstl::session::single_pane_contents(&app, app.selected_app);
    let row = shown.names[app.selected_app].clone();
    assert!(press(&mut app, KeyCode::Enter, 0));
    assert_eq!(app.app_to_launch, Some(format!("run {}", row)));
}
