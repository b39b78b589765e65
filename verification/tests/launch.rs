use bstl::app::AppEntry;
use bstl::config::{BstlConfig, CursorShape, LauncherTheme, SearchPosition, StartMode};
use bstl::launch::{build_command, build_sway_exec_string, quote_arg_for_sway, Command};

fn make_config(terminal: &str) -> BstlConfig {
    BstlConfig {
        dmenu: false,
        search_position: SearchPosition::Top,
        start_mode: StartMode::Single,
        focus_search_on_switch: true,
        colors: LauncherTheme {
            border: "".to_string(),
            focus: "".to_string(),
            unfocused: "".to_string(),
            highlight: "".to_string(),
            border_style: "".to_string(),
            highlight_type: "".to_string(),
            cursor_color: "".to_string(),
            cursor_shape: CursorShape::Block,
            cursor_blink_interval: 0,
        },
        terminal: terminal.to_string(),
        timeout: 0,
        max_recent_apps: 0,
        recent_first: false,
        print_selection: false,
        sway: false,
        history_window_days: 90,
        top_recent_count: 5,
        popularity_weight: 10,
    }
}

#[test]
fn test_build_command_terminal_simple() {
    let entry = AppEntry {
        name: "Vim".to_string(),
        category: "CLI".to_string(),
        exec_line: "vim".to_string(),
        terminal: true,
        comment: String::new(),
    };
    let config = make_config("alacritty");
    let cmd = build_command(&entry, &config);
    let debug_str = format!("{:?}", cmd);
    // Expect: "alacritty" "-e" "vim"
    assert!(debug_str.contains("alacritty"));
    assert!(debug_str.contains("-e"));
    assert!(debug_str.contains("vim"));
    assert_eq!(cmd.program, "alacritty");
    assert_eq!(cmd.args, vec!["-e", "vim"]);
}

#[test]
fn test_build_command_terminal_complex() {
    let entry = AppEntry {
        name: "Vim".to_string(),
        category: "CLI".to_string(),
        exec_line: "vim".to_string(),
        terminal: true,
        comment: String::new(),
    };
    let config = make_config("wezterm start");
    let cmd = build_command(&entry, &config);
    let debug_str = format!("{:?}", cmd);
    // Expect: "wezterm" "start" "vim"
    assert!(debug_str.contains("wezterm"));
    assert!(debug_str.contains("start"));
    assert!(debug_str.contains("vim"));
    assert_eq!(cmd.args, vec!["start", "vim"]);
}

#[test]
fn sway_exec_string_quotes_comma_path() {
    // A comma in the Exec path must not split the command.
    let entry = AppEntry {
        name: "Full Charge".to_string(),
        category: "My Scripts".to_string(),
        exec_line: "/home/bc/bin/,fullcharge".to_string(),
        terminal: false,
        comment: String::new(),
    };
    let cmd = build_command(&entry, &make_config("wezterm"));
    let s = build_sway_exec_string(&cmd);
    assert_eq!(s, r#"sh -c "/home/bc/bin/,fullcharge""#);
}

#[test]
fn sway_exec_string_quotes_semicolon_and_whitespace() {
    assert_eq!(quote_arg_for_sway("a;b"), r#""a;b""#);
    assert_eq!(quote_arg_for_sway("a b"), r#""a b""#);
    assert_eq!(quote_arg_for_sway("a,b"), r#""a,b""#);
}

#[test]
fn sway_exec_string_escapes_quotes_and_backslashes() {
    assert_eq!(quote_arg_for_sway(r#"a"b"#), r#""a\"b""#);
    assert_eq!(quote_arg_for_sway(r"a\b"), r#""a\\b""#);
}

#[test]
fn sway_exec_string_leaves_plain_args_alone() {
    assert_eq!(quote_arg_for_sway("plain"), "plain");
    assert_eq!(quote_arg_for_sway("/usr/bin/foo"), "/usr/bin/foo");
}

#[test]
fn an_empty_argument_stands_in_quotes() {
    assert_eq!(quote_arg_for_sway(""), "\"\"");
    let alone = Command { program: "a b".to_string(), args: vec![] };
    assert_eq!(build_sway_exec_string(&alone), "\"a b\"");
    let with = Command {
        program: "p".to_string(),
        args: vec!["".to_string(), "x\ty".to_string(), "z".to_string()],
    };
    assert_eq!(build_sway_exec_string(&with), "p \"\" \"x\ty\" z");
}

#[test]
fn without_a_terminal_a_shell_runs_the_line() {
    let entry = AppEntry {
        name: "Top".to_string(),
        category: "CLI".to_string(),
        exec_line: "top".to_string(),
        terminal: false,
        comment: String::new(),
    };
    let cmd = build_command(&entry, &make_config("  "));
    assert_eq!(cmd.program, "sh");
    assert_eq!(cmd.args, vec!["-c", "top"]);
}
