use bstl::app::{App, AppEntry, Focus, Mode, SinglePaneMode};
use bstl::config::BstlConfig;
use bstl::events::{
    can_take, get_matching_category_indices, handle_key, handle_mouse, needs_executables,
    try_handle_key, try_handle_mouse,
};
use bstl::keys::{
    click_row_in_list, KeyCode, KeyEvent, KeyKind, MouseEvent, MouseKind, Rect, CONTROL, SHIFT,
};
use bstl::storage::Storage;
use bstl::table::TextMap;

fn entry(name: &str, category: &str) -> AppEntry {
    AppEntry {
        name: name.into(),
        category: category.into(),
        exec_line: format!("run {}", name),
        terminal: false,
        comment: String::new(),
    }
}

fn launcher(mode: Mode) -> App {
    let mut app = App::new(
        SinglePaneMode::DesktopApps,
        mode,
        &BstlConfig::default(),
        Storage::in_memory(),
        TextMap::new(),
        &Vec::new(),
        1_767_225_600,
        0,
    );
    app.apps = vec![
        entry("Alacritty", "System"),
        entry("Blender", "Graphics"),
        entry("Gimp", "Graphics"),
        entry("Zathura", "Office"),
    ];
    app.categories =
        vec!["Recent".into(), "Graphics".into(), "System".into(), "Office".into()];
    app.recent_apps = vec!["Zathura".into(), "Missing".into(), "Gimp".into()];
    app
}

fn key(code: KeyCode) -> KeyEvent {
    KeyEvent { code, modifiers: 0, kind: KeyKind::Press }
}

fn control(c: char) -> KeyEvent {
    KeyEvent { code: KeyCode::Char(c), modifiers: CONTROL, kind: KeyKind::Press }
}

fn press(app: &mut App, event: KeyEvent) -> bool {
    handle_key(app, event, &vec!["ls".to_string()], 77)
}

fn type_text(app: &mut App, text: &str) {
    for c in text.chars() {
        assert!(!press(app, key(KeyCode::Char(c))));
    }
}

#[test]
fn keys_that_quit_change_nothing() {
    for event in [key(KeyCode::Esc), control('c'), control('g')] {
        let mut app = launcher(Mode::SinglePane);
        app.selected_app = 2;
        assert!(press(&mut app, event));
        assert_eq!(app.selected_app, 2);
        assert!(app.app_to_launch.is_none());
        assert!(!app.should_quit);
    }
}

#[test]
fn enter_launches_what_is_chosen() {
    let mut app = launcher(Mode::SinglePane);
    press(&mut app, key(KeyCode::Down));
    assert!(press(&mut app, key(KeyCode::Enter)));
    assert_eq!(app.app_to_launch.as_deref(), Some("run Blender"));
    assert!(app.should_quit);
}

#[test]
fn enter_without_a_choice_goes_on() {
    let mut app = launcher(Mode::SinglePane);
    app.selected_app = 9;
    app.cursor_visible = false;
    assert!(!press(&mut app, key(KeyCode::Enter)));
    assert!(app.app_to_launch.is_none());
    assert!(app.cursor_visible);
    assert_eq!(app.selected_app, 0);
}

#[test]
fn typing_searches() {
    let mut app = launcher(Mode::SinglePane);
    app.selected_app = 3;
    type_text(&mut app, "ze");
    assert_eq!(app.query(), "ze");
    assert_eq!(app.selected_app, 0);
    assert_eq!(app.cursor_last_toggle, 77);
    assert!(app.visible_apps().is_empty());
    press(&mut app, key(KeyCode::Backspace));
    assert_eq!(app.query(), "z");
    assert!(press(&mut app, key(KeyCode::Enter)));
    assert_eq!(app.app_to_launch.as_deref(), Some("run Zathura"));
}

#[test]
fn shifted_characters_are_typed_and_released_keys_are_not() {
    let mut app = launcher(Mode::SinglePane);
    press(
        &mut app,
        KeyEvent { code: KeyCode::Char('G'), modifiers: SHIFT, kind: KeyKind::Repeat },
    );
    press(
        &mut app,
        KeyEvent { code: KeyCode::Char('i'), modifiers: 0, kind: KeyKind::Release },
    );
    press(&mut app, key(KeyCode::Other));
    assert_eq!(app.query(), "G");
}

#[test]
fn control_keys_edit_the_line() {
    let mut app = launcher(Mode::SinglePane);
    type_text(&mut app, "one two");
    press(&mut app, control('a'));
    assert_eq!(app.input.cursor(), 0);
    press(&mut app, control('d'));
    assert_eq!(app.query(), "ne two");
    press(&mut app, control('f'));
    assert_eq!(app.input.cursor(), 1);
    press(&mut app, control('h'));
    assert_eq!(app.query(), "e two");
    press(&mut app, control('e'));
    assert_eq!(app.input.cursor(), 5);
    press(&mut app, control('b'));
    assert_eq!(app.input.cursor(), 4);
    press(&mut app, control('w'));
    assert_eq!(app.query(), "e o");
    press(&mut app, key(KeyCode::Home));
    press(&mut app, key(KeyCode::Delete));
    assert_eq!(app.query(), " o");
    press(&mut app, key(KeyCode::End));
    assert_eq!(app.input.cursor(), 2);
}

#[test]
fn both_sides_of_the_line_can_be_cut() {
    let mut app = launcher(Mode::SinglePane);
    type_text(&mut app, "abcdef");
    press(&mut app, control('b'));
    press(&mut app, control('b'));
    app.cursor_visible = false;
    press(&mut app, control('k'));
    assert_eq!(app.query(), "abcd");
    assert_eq!(app.input.cursor(), 4);
    assert!(!app.cursor_visible);
    press(&mut app, control('b'));
    press(&mut app, control('u'));
    assert_eq!(app.query(), "d");
    assert_eq!(app.input.cursor(), 0);
    // Nothing is left of the cursor.
    app.selected_app = 1;
    press(&mut app, control('u'));
    assert_eq!(app.query(), "d");
    assert_eq!(app.selected_app, 1);
}

#[test]
fn a_cut_inside_a_character_is_refused() {
    let mut app = launcher(Mode::SinglePane);
    type_text(&mut app, "\u{e4}b");
    press(&mut app, control('b'));
    assert_eq!(app.input.cursor(), 1);
    assert!(!can_take(&app, control('k')));
    assert_eq!(try_handle_key(&mut app, control('k'), &vec![], 0), None);
    assert_eq!(app.query(), "\u{e4}b");
    assert_eq!(try_handle_key(&mut app, key(KeyCode::Home), &vec![], 0), Some(false));
}

#[test]
fn keys_that_change_the_lists() {
    let mut app = launcher(Mode::SinglePane);
    assert!(!needs_executables(&app, key(KeyCode::Tab)));
    assert!(needs_executables(&app, control('x')));
    for event in [key(KeyCode::Tab), control('m'), control('t')] {
        let before = app.mode;
        assert!(!press(&mut app, event));
        assert!(app.mode != before);
    }
    assert!(!press(&mut app, control('x')));
    assert_eq!(app.single_pane_mode, SinglePaneMode::Dmenu);
    assert_eq!(app.mode, Mode::SinglePane);
    assert_eq!(app.apps[0].name, "ls");
    press(&mut app, key(KeyCode::Tab));
    assert!(needs_executables(&app, key(KeyCode::Tab)));
    assert!(!needs_executables(&app, control('x')));
    assert!(!needs_executables(&app, key(KeyCode::Esc)));
}

#[test]
fn apps_are_walked_to_their_ends() {
    let mut app = launcher(Mode::SinglePane);
    press(&mut app, key(KeyCode::Up));
    assert_eq!(app.selected_app, 0);
    for _ in 0..9 {
        press(&mut app, key(KeyCode::Down));
    }
    assert_eq!(app.selected_app, 3);
    press(&mut app, key(KeyCode::Up));
    assert_eq!(app.selected_app, 2);
}

#[test]
fn categories_are_walked_round() {
    let mut app = launcher(Mode::DualPane);
    app.selected_app = 1;
    press(&mut app, key(KeyCode::Up));
    assert_eq!((app.selected_category, app.selected_app), (3, 0));
    press(&mut app, key(KeyCode::Down));
    assert_eq!(app.selected_category, 0);
    press(&mut app, key(KeyCode::Down));
    assert_eq!(app.selected_category, 1);
    press(&mut app, key(KeyCode::Right));
    assert_eq!(app.focus, Focus::Apps);
    press(&mut app, key(KeyCode::Down));
    press(&mut app, key(KeyCode::Down));
    assert_eq!((app.selected_category, app.selected_app), (1, 1));
    press(&mut app, key(KeyCode::Left));
    assert_eq!(app.focus, Focus::Categories);
    assert!(press(&mut app, key(KeyCode::Enter)));
    assert_eq!(app.app_to_launch.as_deref(), Some("run Gimp"));
}

#[test]
fn recent_apps_are_listed_as_they_were_launched() {
    let mut app = launcher(Mode::DualPane);
    app.selected_app = 1;
    assert!(press(&mut app, key(KeyCode::Enter)));
    assert_eq!(app.app_to_launch.as_deref(), Some("run Gimp"));
    app.selected_category = 7;
    assert!(!press(&mut app, key(KeyCode::Enter)));
}

#[test]
fn a_search_chooses_the_first_category_with_a_match() {
    let mut app = launcher(Mode::DualPane);
    type_text(&mut app, "Ala");
    assert_eq!(get_matching_category_indices(&app), vec![2]);
    assert_eq!(app.selected_category, 2);
    // No category has a match: the choice stays.
    type_text(&mut app, "q");
    assert!(get_matching_category_indices(&app).is_empty());
    assert_eq!(app.selected_category, 2);
    press(&mut app, control('u'));
    assert_eq!(app.query(), "");
    assert_eq!(app.selected_category, 0);
    // "g" is in the names of Recent and Graphics apps.
    type_text(&mut app, "g");
    assert_eq!(get_matching_category_indices(&app), vec![0, 1]);
}

const APPS: Rect = Rect { x: 10, y: 0, width: 20, height: 6 };
const CATEGORIES: Rect = Rect { x: 0, y: 0, width: 10, height: 6 };
const SEARCH: Rect = Rect { x: 0, y: 6, width: 30, height: 3 };

fn drawn(mode: Mode) -> App {
    let mut app = launcher(mode);
    app.apps_rect = Some(APPS);
    app.categories_rect = Some(CATEGORIES);
    app.search_rect = Some(SEARCH);
    app
}

fn mouse(kind: MouseKind, column: u16, row: u16) -> MouseEvent {
    MouseEvent { kind, column, row }
}

#[test]
fn rows_lie_between_the_borders() {
    assert_eq!(click_row_in_list(APPS, 11, 1), Some(0));
    assert_eq!(click_row_in_list(APPS, 28, 4), Some(3));
    assert_eq!(click_row_in_list(APPS, 10, 1), None);
    assert_eq!(click_row_in_list(APPS, 29, 4), None);
    assert_eq!(click_row_in_list(APPS, 11, 0), None);
    assert_eq!(click_row_in_list(APPS, 11, 5), None);
    assert_eq!(click_row_in_list(APPS, 30, 2), None);
    assert_eq!(click_row_in_list(APPS, 9, 2), None);
}

#[test]
fn a_second_click_starts_the_app() {
    let mut app = drawn(Mode::SinglePane);
    app.apps_offset = 1;
    let click = mouse(MouseKind::LeftDown, 12, 2);
    assert!(!handle_mouse(&mut app, click));
    assert_eq!((app.focus, app.selected_app), (Focus::Apps, 2));
    assert!(handle_mouse(&mut app, click));
    assert_eq!(app.app_to_launch.as_deref(), Some("run Gimp"));
    assert!(app.should_quit);
    let mut app = drawn(Mode::SinglePane);
    app.apps_offset = 2;
    assert!(!handle_mouse(&mut app, mouse(MouseKind::LeftDown, 12, 4)));
    assert_eq!(app.selected_app, 0);
}

#[test]
fn a_click_chooses_a_category() {
    let mut app = drawn(Mode::DualPane);
    app.focus = Focus::Apps;
    app.selected_app = 1;
    assert!(!handle_mouse(&mut app, mouse(MouseKind::LeftDown, 3, 2)));
    assert_eq!((app.focus, app.selected_category, app.selected_app), (Focus::Categories, 1, 0));
    app.selected_app = 1;
    handle_mouse(&mut app, mouse(MouseKind::LeftDown, 3, 2));
    assert_eq!((app.selected_category, app.selected_app), (1, 1));
    handle_mouse(&mut app, mouse(MouseKind::LeftDown, 3, 7));
    assert_eq!(app.focus, Focus::Search);
    handle_mouse(&mut app, mouse(MouseKind::Other, 3, 2));
    assert_eq!(app.focus, Focus::Search);
}

#[test]
fn scrolling_moves_by_three() {
    let mut app = drawn(Mode::SinglePane);
    app.apps.push(entry("More", "x"));
    handle_mouse(&mut app, mouse(MouseKind::ScrollDown, 15, 2));
    assert_eq!((app.focus, app.selected_app), (Focus::Apps, 3));
    handle_mouse(&mut app, mouse(MouseKind::ScrollDown, 15, 2));
    assert_eq!(app.selected_app, 4);
    handle_mouse(&mut app, mouse(MouseKind::ScrollUp, 15, 2));
    assert_eq!(app.selected_app, 1);
    handle_mouse(&mut app, mouse(MouseKind::ScrollUp, 15, 2));
    assert_eq!(app.selected_app, 0);
    // In one pane the categories are not scrolled.
    handle_mouse(&mut app, mouse(MouseKind::ScrollDown, 1, 2));
    assert_eq!(app.selected_category, 0);
}

#[test]
fn scrolling_categories_stops_at_the_ends() {
    let mut app = drawn(Mode::DualPane);
    app.focus = Focus::Apps;
    app.selected_category = 1;
    handle_mouse(&mut app, mouse(MouseKind::ScrollDown, 1, 2));
    assert_eq!((app.focus, app.selected_category), (Focus::Categories, 3));
    handle_mouse(&mut app, mouse(MouseKind::ScrollUp, 1, 2));
    assert_eq!(app.selected_category, 0);
    handle_mouse(&mut app, mouse(MouseKind::ScrollUp, 1, 2));
    assert_eq!(app.selected_category, 0);
}

#[test]
fn areas_beyond_the_screen_are_refused() {
    let mut app = drawn(Mode::SinglePane);
    app.apps_rect = Some(Rect { x: 65535, y: 0, width: 1, height: 1 });
    assert_eq!(try_handle_mouse(&mut app, mouse(MouseKind::LeftDown, 1, 1)), None);
    assert_eq!(try_handle_mouse(&mut app, mouse(MouseKind::Other, 1, 1)), Some(false));
    app.apps_rect = None;
    assert_eq!(try_handle_mouse(&mut app, mouse(MouseKind::LeftDown, 25, 1)), Some(false));
    app.categories_offset = usize::MAX;
    assert_eq!(try_handle_mouse(&mut app, mouse(MouseKind::ScrollUp, 25, 1)), Some(false));
}

#[test]
fn an_offset_past_every_row_finds_nothing() {
    let mut app = drawn(Mode::SinglePane);
    app.apps_offset = usize::MAX;
    let click = mouse(MouseKind::LeftDown, 12, 2);
    assert_eq!(try_handle_mouse(&mut app, click), Some(false));
    assert_eq!(app.selected_app, 0);
}

#[test]
fn only_the_apps_of_the_category_need_a_score() {
    let mut app = launcher(Mode::DualPane);
    type_text(&mut app, "gim");
    assert_eq!(app.selected_category, 0);
    app.selected_category = 1;
    app.focus = Focus::Apps;
    app.config.popularity_weight = i64::MAX;
    app.popularity.insert("Alacritty".to_string(), 50);
    // The score of Alacritty is too large, but it is in another category.
    assert!(!can_take(&app, key(KeyCode::Char('p'))));
    assert_eq!(try_handle_key(&mut app, key(KeyCode::Enter), &vec![], 0), Some(true));
    assert_eq!(app.app_to_launch.as_deref(), Some("run Gimp"));
    app.mode = Mode::SinglePane;
    assert!(!can_take(&app, key(KeyCode::Enter)));
}

#[test]
fn the_first_match_of_a_category_is_enough() {
    let mut app = launcher(Mode::DualPane);
    app.apps = vec![entry("Gimp", "Graphics"), entry("Gimpel", "Graphics")];
    type_text(&mut app, "gim");
    app.config.popularity_weight = i64::MAX;
    app.popularity.insert("Gimpel".to_string(), 50);
    app.focus = Focus::Categories;
    assert_eq!(try_handle_key(&mut app, key(KeyCode::Down), &vec![], 0), Some(false));
    assert_eq!(app.selected_category, 1);
    // The list of the category itself needs the score of both.
    assert!(!can_take(&app, key(KeyCode::Enter)));
}
