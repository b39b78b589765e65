//! What the user can configure, and the defaults.

use vstd::prelude::*;

use crate::color::{color_named, rgb_of, sliceable, Color};
use crate::text::{lowercase, same_text, to_lowercase, trim, trimmed};

verus! {

/// Where the search bar stands.
#[derive(Debug, Clone, Copy, PartialEq, Eq, Structural)]
pub enum SearchPosition {
    Top,
    Bottom,
}

/// The panes that the launcher starts with.
#[derive(Debug, Clone, Copy, PartialEq, Eq, Structural)]
pub enum StartMode {
    Single,
    Dual,
}

/// The shape of the cursor.
#[derive(Debug, Clone, Copy, PartialEq, Eq, Structural)]
pub enum CursorShape {
    Block,
    Underline,
    Pipe,
}

/// The lines of a border.
#[derive(Debug, Clone, Copy, PartialEq, Eq, Structural)]
pub enum BorderType {
    Plain,
    Rounded,
    Thick,
    Double,
}

/// Colours and shapes.
#[derive(Debug)]
pub struct LauncherTheme {
    pub border: String,
    pub focus: String,
    pub unfocused: String,
    pub highlight: String,
    pub border_style: String,
    pub highlight_type: String,
    /// Empty means "follow `focus`"; resolved at load time.
    pub cursor_color: String,
    pub cursor_shape: CursorShape,
    pub cursor_blink_interval: u64,
}

/// The whole configuration.
#[derive(Debug)]
pub struct BstlConfig {
    pub dmenu: bool,
    pub search_position: SearchPosition,
    pub start_mode: StartMode,
    pub focus_search_on_switch: bool,
    pub colors: LauncherTheme,
    pub terminal: String,
    pub timeout: u64,
    pub max_recent_apps: usize,
    pub recent_first: bool,
    pub print_selection: bool,
    pub sway: bool,
    pub history_window_days: u32,
    pub top_recent_count: usize,
    pub popularity_weight: i64,
}

impl Clone for LauncherTheme {
    fn clone(&self) -> (r: Self)
        ensures
            r == *self,
    {
        LauncherTheme {
            border: self.border.clone(),
            focus: self.focus.clone(),
            unfocused: self.unfocused.clone(),
            highlight: self.highlight.clone(),
            border_style: self.border_style.clone(),
            highlight_type: self.highlight_type.clone(),
            cursor_color: self.cursor_color.clone(),
            cursor_shape: self.cursor_shape,
            cursor_blink_interval: self.cursor_blink_interval,
        }
    }
}

impl Clone for BstlConfig {
    fn clone(&self) -> (r: Self)
        ensures
            r == *self,
    {
        BstlConfig {
            dmenu: self.dmenu,
            search_position: self.search_position,
            start_mode: self.start_mode,
            focus_search_on_switch: self.focus_search_on_switch,
            colors: self.colors.clone(),
            terminal: self.terminal.clone(),
            timeout: self.timeout,
            max_recent_apps: self.max_recent_apps,
            recent_first: self.recent_first,
            print_selection: self.print_selection,
            sway: self.sway,
            history_window_days: self.history_window_days,
            top_recent_count: self.top_recent_count,
            popularity_weight: self.popularity_weight,
        }
    }
}

impl LauncherTheme {
    /// Whether a theme is the one of a launcher that was not configured.
    pub open spec fn is_default(self) -> bool {
        &&& self.border@ == "#ffffff"@
        &&& self.focus@ == "#00ff00"@
        &&& self.unfocused@ == "#808080"@
        &&& self.highlight@ == "#0000ff"@
        &&& self.border_style@ == "plain"@
        &&& self.highlight_type@ == "background"@
        &&& self.cursor_color@ == Seq::<char>::empty()
        &&& self.cursor_shape == CursorShape::Block
        &&& self.cursor_blink_interval == 0
    }
}

impl BstlConfig {
    /// Whether a configuration is the one of a launcher that was not
    /// configured.
    pub open spec fn is_default(self) -> bool {
        &&& !self.dmenu
        &&& self.search_position == SearchPosition::Top
        &&& self.start_mode == StartMode::Single
        &&& self.focus_search_on_switch
        &&& self.colors.is_default()
        &&& self.terminal@ == "foot"@
        &&& self.timeout == 0
        &&& self.max_recent_apps == 15
        &&& !self.recent_first
        &&& !self.print_selection
        &&& !self.sway
        &&& self.history_window_days == 90
        &&& self.top_recent_count == 5
        &&& self.popularity_weight == 10
    }
}

impl Default for LauncherTheme {
    fn default() -> (r: Self)
        ensures
            r.is_default(),
    {
        LauncherTheme {
            border: "#ffffff".to_owned(),
            focus: "#00ff00".to_owned(),
            unfocused: "#808080".to_owned(),
            highlight: "#0000ff".to_owned(),
            border_style: "plain".to_owned(),
            highlight_type: "background".to_owned(),
            cursor_color: String::new(),
            cursor_shape: CursorShape::Block,
            cursor_blink_interval: 0,
        }
    }
}

impl Default for BstlConfig {
    fn default() -> (r: Self)
        ensures
            r.is_default(),
    {
        BstlConfig {
            dmenu: false,
            search_position: SearchPosition::Top,
            start_mode: StartMode::Single,
            focus_search_on_switch: true,
            colors: LauncherTheme::default(),
            terminal: "foot".to_owned(),
            timeout: 0,
            max_recent_apps: 15,
            recent_first: false,
            print_selection: false,
            sway: false,
            history_window_days: 90,
            top_recent_count: 5,
            popularity_weight: 10,
        }
    }
}

/// The border that a lower-case name stands for.
pub open spec fn border_of(name: Seq<char>) -> BorderType {
    if name == "rounded"@ {
        BorderType::Rounded
    } else if name == "thick"@ {
        BorderType::Thick
    } else if name == "double"@ {
        BorderType::Double
    } else {
        BorderType::Plain
    }
}

/// The border that a lower-case name stands for; an unknown name stands for a
/// plain one.
pub fn border_named(name: &str) -> (r: BorderType)
    ensures
        r == border_of(name@),
{
    if same_text(name, "rounded") {
        BorderType::Rounded
    } else if same_text(name, "thick") {
        BorderType::Thick
    } else if same_text(name, "double") {
        BorderType::Double
    } else {
        BorderType::Plain
    }
}

impl LauncherTheme {
    /// The colour that a text of the theme stands for.
    pub fn parse_color(color: &str) -> (r: Color)
        requires
            sliceable(color@),
        ensures
            r == match rgb_of(color@) {
                Some((red, green, blue)) => Color::Rgb(red as u8, green as u8, blue as u8),
                None => Color::Reset,
            },
    {
        color_named(color)
    }

    /// The border that a text of the theme stands for, whatever its case.
    pub fn parse_border_type(style: &str) -> (r: BorderType)
        ensures
            r == border_of(lowercase(style@)),
    {
        let lower = to_lowercase(style);
        border_named(lower.as_str())
    }
}

/// Fills in what a configuration leaves open: a cursor colour of white space
/// alone follows the colour of the focus.
pub fn with_fallbacks(cfg: BstlConfig) -> (r: BstlConfig)
    ensures
        r == (BstlConfig {
            colors: LauncherTheme { cursor_color: r.colors.cursor_color, ..cfg.colors },
            ..cfg
        }),
        r.colors.cursor_color@ == if trimmed(cfg.colors.cursor_color@).len() == 0 {
            cfg.colors.focus@
        } else {
            cfg.colors.cursor_color@
        },
{
    let mut cfg = cfg;
    let set = trim(cfg.colors.cursor_color.as_str());
    if set.as_str().is_empty() {
        cfg.colors.cursor_color = cfg.colors.focus.clone();
    }
    cfg
}

/// Where the configuration comes from.
#[derive(Debug, Clone, Copy, PartialEq, Eq, Structural)]
pub enum ConfigSource {
    /// The user's own file.
    User,
    /// The file that was installed with the launcher.
    System,
    /// No file.
    Defaults,
}

/// The file to read: the user's own one comes before the installed one.
pub fn config_source(user_exists: bool, system_exists: bool) -> (r: ConfigSource)
    ensures
        r == if user_exists {
            ConfigSource::User
        } else if system_exists {
            ConfigSource::System
        } else {
            ConfigSource::Defaults
        },
{
    if user_exists {
        ConfigSource::User
    } else if system_exists {
        ConfigSource::System
    } else {
        ConfigSource::Defaults
    }
}

} // verus!
