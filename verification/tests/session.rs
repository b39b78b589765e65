use bstl::app::{App, AppEntry, Focus, Mode, SinglePaneMode};
use bstl::config::{BstlConfig, CursorShape, StartMode};
use bstl::keys::{KeyCode, KeyEvent, KeyKind, MouseEvent, MouseKind};
use bstl::session::{
    arg_value, configured_mode, configured_single_pane, cursor_style, has_flag, launch_plan,
    placing_command, single_pane_contents, warmup_frames, CursorStyle, Frame, Happening, Plan,
    Session,
};
use bstl::storage::Storage;
use bstl::table::TextMap;

fn launcher(mode: Mode) -> App {
    let mut app = App::new(
        SinglePaneMode::DesktopApps,
        mode,
        &BstlConfig::default(),
        Storage::in_memory(),
        TextMap::new(),
        &Vec::new(),
        1_767_225_600,
        0,
    );
    let entry = |name: &str, line: &str, terminal: bool, comment: &str| AppEntry {
        name: name.into(),
        category: "Network".into(),
        exec_line: line.into(),
        terminal,
        comment: comment.into(),
    };
    app.apps = vec![
        entry("Browser", "browse, now", false, "Goes places"),
        entry("Mail", "mutt", true, "Reads mail"),
    ];
    app
}

fn args(list: &[&str]) -> Vec<String> {
    list.iter().map(|s| s.to_string()).collect()
}

#[test]
fn options_take_their_value_either_way() {
    assert_eq!(arg_value("--size", &args(&["--size", "40"])).as_deref(), Some("40"));
    assert_eq!(arg_value("--size", &args(&["x", "--size=5=5"])).as_deref(), Some("5=5"));
    assert_eq!(arg_value("--size", &args(&["--size="])).as_deref(), Some(""));
    assert_eq!(arg_value("--size", &args(&["--size"])), None);
    assert_eq!(arg_value("--size", &args(&["--sizes=1", "size"])), None);
    assert_eq!(
        arg_value("--size", &args(&["--size", "--size=2"])).as_deref(),
        Some("--size=2")
    );
    assert!(has_flag(&args(&["bstl", "--sway"]), "--sway"));
    assert!(!has_flag(&args(&["bstl", "--sway=1"]), "--sway"));
}

#[test]
fn the_configuration_says_how_to_start() {
    let mut config = BstlConfig::default();
    assert_eq!(configured_single_pane(&config), SinglePaneMode::DesktopApps);
    assert_eq!(configured_mode(&config), Mode::SinglePane);
    config.dmenu = true;
    config.start_mode = StartMode::Dual;
    assert_eq!(configured_single_pane(&config), SinglePaneMode::Dmenu);
    assert_eq!(configured_mode(&config), Mode::DualPane);
}

#[test]
fn cursors_blink_by_themselves_without_an_interval() {
    assert_eq!(cursor_style(CursorShape::Block, 0), CursorStyle::BlinkingBlock);
    assert_eq!(cursor_style(CursorShape::Pipe, 0), CursorStyle::BlinkingBar);
    assert_eq!(cursor_style(CursorShape::Underline, 9), CursorStyle::SteadyUnderScore);
}

#[test]
fn a_round_draws_unless_asked_to_end() {
    let mut app = launcher(Mode::SinglePane);
    let session = Session::new(0);
    assert_eq!(session.begin_round(&mut app, true, 5), Frame::Stop);
    app.config.colors.cursor_blink_interval = 1;
    assert_eq!(
        session.begin_round(&mut app, false, 1_000_000),
        Frame::Draw { style: CursorStyle::SteadyBlock, cursor: false }
    );
    app.config.colors.cursor_blink_interval = 0;
    assert_eq!(
        session.begin_round(&mut app, false, 1_000_001),
        Frame::Draw { style: CursorStyle::BlinkingBlock, cursor: true }
    );
}

#[test]
fn a_run_ends_after_its_timeout() {
    let session = Session::new(1_000);
    assert!(!session.timed_out(0, u64::MAX));
    assert!(!session.timed_out(2, 2_000_000_999));
    assert!(session.timed_out(2, 2_000_001_000));
    assert!(!session.timed_out(2, 0));
    assert!(!session.timed_out(u64::MAX, u64::MAX));
}

#[test]
fn input_starts_the_wait_anew() {
    let mut app = launcher(Mode::SinglePane);
    let mut session = Session::new(0);
    let down = KeyEvent { code: KeyCode::Down, modifiers: 0, kind: KeyKind::Press };
    assert!(!session.end_round(&mut app, Happening::Key(down), &vec![], 50));
    assert_eq!(session.last_input, 50);
    assert_eq!(app.selected_app, 1);
    assert!(!session.end_round(&mut app, Happening::Nothing, &vec![], 60));
    assert_eq!(session.last_input, 50);
    let moved = MouseEvent { kind: MouseKind::Other, column: 0, row: 0 };
    assert_eq!(
        session.try_end_round(&mut app, Happening::Mouse(moved), &vec![], 70),
        Some(false)
    );
    assert_eq!(session.last_input, 70);
    let esc = KeyEvent { code: KeyCode::Esc, modifiers: 0, kind: KeyKind::Press };
    assert_eq!(session.try_end_round(&mut app, Happening::Key(esc), &vec![], 80), Some(true));
}

#[test]
fn panes_are_drawn_ahead() {
    let mut app = launcher(Mode::DualPane);
    app.categories = vec!["Recent".to_string()];
    assert_eq!(warmup_frames(&app), vec![Focus::Apps, Focus::Categories]);
    app.mode = Mode::SinglePane;
    assert_eq!(warmup_frames(&app), vec![Focus::Apps]);
    app.categories.clear();
    assert!(warmup_frames(&app).is_empty());
}

#[test]
fn sway_gives_the_window_its_place() {
    assert_eq!(
        placing_command("bstl", "40"),
        r#"[app_id="bstl"] resize set 40 ppt 40 ppt, move position center, focus"#
    );
}

#[test]
fn plans_follow_the_choice() {
    let mut app = launcher(Mode::SinglePane);
    assert!(matches!(launch_plan(&app, true, true), Plan::Cancelled));
    app.app_to_launch = Some("browse, now".to_string());
    assert!(matches!(launch_plan(&app, true, true), Plan::Print(l) if l == "browse, now"));
    assert!(matches!(
        launch_plan(&app, false, true),
        Plan::Sway { recorded: Some(n), line: l } if n == "Browser" && l == "sh -c \"browse, now\""
    ));
    assert!(matches!(
        launch_plan(&app, false, false),
        Plan::Start { name: n, command: c } if n == "Browser" && c.args == vec!["-c", "browse, now"]
    ));
    app.app_to_launch = Some("mutt".to_string());
    assert!(matches!(launch_plan(&app, true, false), Plan::Print(l) if l == "foot mutt"));
    app.app_to_launch = Some("other".to_string());
    assert!(matches!(launch_plan(&app, true, false), Plan::Print(l) if l == "other"));
    assert!(matches!(
        launch_plan(&app, false, true),
        Plan::Sway { recorded: None, line: l } if l == "other"
    ));
    assert!(matches!(launch_plan(&app, false, false), Plan::Shell(l) if l == "other"));
}

#[test]
fn the_single_pane_describes_the_chosen_app() {
    let mut app = launcher(Mode::SinglePane);
    let shown = single_pane_contents(&app, 1);
    assert_eq!(shown.names, vec!["Browser", "Mail"]);
    assert_eq!(shown.description, "Reads mail");
    assert_eq!(single_pane_contents(&app, 2).description, "");
    app.input = tui_input::Input::new("mai".to_string());
    assert_eq!(single_pane_contents(&app, 0).names, vec!["Mail"]);
}
