//! A run of the launcher: its arguments, its rounds, and what it launches at
//! the end.

use vstd::prelude::*;

use crate::app::{entries_shown, App, AppEntry, Entry, Focus, Mode, SinglePaneMode, State};
use crate::catalog::{names_of, picked};
use crate::config::{BstlConfig, CursorShape, StartMode};
use crate::desktop::text_in;
use crate::events::{can_take, can_take_mouse, handle_key, handle_mouse};
use crate::keys::{KeyEvent, MouseEvent};
use crate::launch::{
    build_command, build_sway_exec_string, entry_line, sway_line, sway_reads_the_command_back,
    Command, CommandLine, Reading,
};
use crate::storage::entries_of;
use crate::text::{
    begins, chars_of, concat, holds, lemma_texts_push, same_text, starts_with, string_of, texts,
};

verus! {

/// The value of an option: `--name value` or `--name=value`, the first one
/// that is given.
pub open spec fn option_value(args: Seq<Seq<char>>, name: Seq<char>) -> Option<Seq<char>>
    decreases args.len(),
{
    if args.len() == 0 {
        None
    } else if args[0] == name {
        if args.len() > 1 {
            Some(args[1])
        } else {
            None
        }
    } else if begins(args[0], name + "="@) {
        Some(args[0].skip((name + "="@).len() as int))
    } else {
        option_value(args.drop_first(), name)
    }
}

/// The value of an option among the arguments that follow the program's name.
pub fn arg_value(name: &str, args: &Vec<String>) -> (r: Option<String>)
    ensures
        text_in(r) == option_value(texts(args@), name@),
{
    let prefix = concat(name, "=");
    let ghost all = texts(args@);
    assert(all.skip(0) =~= all);
    for i in 0..args.len()
        invariant
            all == texts(args@),
            prefix@ == name@ + "="@,
            option_value(all, name@) == option_value(all.skip(i as int), name@),
    {
        let ghost rest = all.skip(i as int);
        assert(rest[0] == args@[i as int]@);
        assert(rest.drop_first() =~= all.skip(i + 1));
        assert(rest.len() > 1 ==> rest[1] == args@[i + 1]@);
        if same_text(args[i].as_str(), name) {
            return if i < args.len() - 1 {
                Some(args[i + 1].clone())
            } else {
                None
            };
        }
        if starts_with(args[i].as_str(), prefix.as_str()) {
            let chars = chars_of(args[i].as_str());
            let from = chars_of(prefix.as_str()).len();
            assert(chars@.subrange(from as int, chars@.len() as int) =~= chars@.skip(from as int));
            return Some(string_of(&chars, from, chars.len()));
        }
    }
    None
}

/// Whether an argument is given.
pub fn has_flag(args: &Vec<String>, flag: &str) -> (r: bool)
    ensures
        r == texts(args@).contains(flag@),
{
    holds(args, flag)
}

/// What the single pane lists at the start.
pub fn configured_single_pane(config: &BstlConfig) -> (r: SinglePaneMode)
    ensures
        r == if config.dmenu {
            SinglePaneMode::Dmenu
        } else {
            SinglePaneMode::DesktopApps
        },
{
    if config.dmenu {
        SinglePaneMode::Dmenu
    } else {
        SinglePaneMode::DesktopApps
    }
}

/// The number of panes at the start.
pub fn configured_mode(config: &BstlConfig) -> (r: Mode)
    ensures
        r == match config.start_mode {
            StartMode::Dual => Mode::DualPane,
            StartMode::Single => Mode::SinglePane,
        },
{
    match config.start_mode {
        StartMode::Dual => Mode::DualPane,
        StartMode::Single => Mode::SinglePane,
    }
}

/// The shapes that a terminal's cursor can have.
#[derive(Debug, Clone, Copy, PartialEq, Eq, Structural)]
pub enum CursorStyle {
    SteadyBlock,
    SteadyUnderScore,
    SteadyBar,
    BlinkingBlock,
    BlinkingUnderScore,
    BlinkingBar,
}

/// The style of the cursor: a steady one where the launcher itself shows and
/// hides it, and else one that the terminal lets blink.
pub open spec fn style_of(shape: CursorShape, interval: u64) -> CursorStyle {
    if interval > 0 {
        match shape {
            CursorShape::Block => CursorStyle::SteadyBlock,
            CursorShape::Underline => CursorStyle::SteadyUnderScore,
            CursorShape::Pipe => CursorStyle::SteadyBar,
        }
    } else {
        match shape {
            CursorShape::Block => CursorStyle::BlinkingBlock,
            CursorShape::Underline => CursorStyle::BlinkingUnderScore,
            CursorShape::Pipe => CursorStyle::BlinkingBar,
        }
    }
}

/// The style of the cursor.
pub fn cursor_style(shape: CursorShape, interval: u64) -> (r: CursorStyle)
    ensures
        r == style_of(shape, interval),
{
    if interval > 0 {
        match shape {
            CursorShape::Block => CursorStyle::SteadyBlock,
            CursorShape::Underline => CursorStyle::SteadyUnderScore,
            CursorShape::Pipe => CursorStyle::SteadyBar,
        }
    } else {
        match shape {
            CursorShape::Block => CursorStyle::BlinkingBlock,
            CursorShape::Underline => CursorStyle::BlinkingUnderScore,
            CursorShape::Pipe => CursorStyle::BlinkingBar,
        }
    }
}

/// What a round of the launcher does first.
#[derive(Debug, Clone, Copy, PartialEq, Eq, Structural)]
pub enum Frame {
    /// Nothing: the run is over.
    Stop,
    /// The launcher is drawn, with this style of the cursor, shown or hidden.
    Draw { style: CursorStyle, cursor: bool },
}

/// What happened while the launcher waited.
#[derive(Debug, Clone, Copy, PartialEq, Eq, Structural)]
pub enum Happening {
    Key(KeyEvent),
    Mouse(MouseEvent),
    /// Something else, or nothing at all.
    Nothing,
}

/// What a run of the launcher remembers between its rounds.
#[derive(Debug, Clone, Copy, PartialEq, Eq, Structural)]
pub struct Session {
    /// When the last key or mouse event came, in nanoseconds.
    pub last_input: u64,
}

impl State {
    /// Whether the cursor is shown: always where the terminal lets it blink.
    pub open spec fn shows_cursor(self) -> bool {
        self.config.colors.cursor_blink_interval > 0 ==> self.cursor_visible
    }

    /// The launcher after what happened, and whether it quits.
    pub open spec fn after_happening(
        self,
        happening: Happening,
        executables: Seq<Seq<char>>,
        tick: u64,
    ) -> (State, bool) {
        match happening {
            Happening::Key(key) => self.after_key(key, executables, tick),
            Happening::Mouse(event) => self.after_mouse(event),
            Happening::Nothing => (self, false),
        }
    }

    /// Whether the launcher can take what happened.
    pub open spec fn takes_happening(self, happening: Happening) -> bool {
        match happening {
            Happening::Key(key) => self.takes(key),
            Happening::Mouse(event) => self.takes_mouse(event),
            Happening::Nothing => true,
        }
    }

    /// What a round does first in this state of the cursor.
    pub open spec fn frame(self) -> Frame {
        Frame::Draw {
            style: style_of(
                self.config.colors.cursor_shape,
                self.config.colors.cursor_blink_interval,
            ),
            cursor: self.shows_cursor(),
        }
    }
}

impl Session {
    /// A run that starts now.
    pub fn new(tick: u64) -> (r: Session)
        ensures
            r.last_input == tick,
    {
        Session { last_input: tick }
    }

    /// Begins a round: the run is over where it was asked to end, and else the
    /// cursor blinks and the launcher is drawn.
    pub fn begin_round(&self, app: &mut App, asked_to_quit: bool, tick: u64) -> (r: Frame)
        ensures
            asked_to_quit ==> r == Frame::Stop && *final(app) == *old(app),
            !asked_to_quit ==> final(app)@ == old(app)@.blinked(tick) && r == final(app)@.frame(),
    {
        if asked_to_quit {
            return Frame::Stop;
        }
        app.update_cursor_blink(tick);
        let interval = app.config.colors.cursor_blink_interval;
        Frame::Draw {
            style: cursor_style(app.config.colors.cursor_shape, interval),
            cursor: !(interval > 0) || app.cursor_visible,
        }
    }

    /// Whether the run has waited too long for a key or the mouse.
    pub open spec fn waited_too_long(self, timeout: u64, tick: u64) -> bool {
        let elapsed = if tick >= self.last_input {
            tick - self.last_input
        } else {
            0
        };
        timeout > 0 && elapsed >= timeout * 1_000_000_000
    }

    /// Whether the run has waited too long for a key or the mouse; with a
    /// timeout of 0 seconds it waits for ever.
    pub fn timed_out(&self, timeout: u64, tick: u64) -> (r: bool)
        ensures
            r == self.waited_too_long(timeout, tick),
    {
        let elapsed = if tick >= self.last_input {
            tick - self.last_input
        } else {
            0
        };
        timeout > 0 && elapsed as u128 >= timeout as u128 * 1_000_000_000
    }

    /// Ends a round with what happened, and says whether the launcher quits.
    pub fn end_round(
        &mut self,
        app: &mut App,
        happening: Happening,
        executables: &Vec<String>,
        tick: u64,
    ) -> (r: bool)
        requires
            old(app)@.takes_happening(happening),
        ensures
            (final(app)@, r) == old(app)@.after_happening(happening, texts(executables@), tick),
            final(self).last_input == if happening is Nothing {
                old(self).last_input
            } else {
                tick
            },
    {
        match happening {
            Happening::Key(key) => {
                self.last_input = tick;
                handle_key(app, key, executables, tick)
            },
            Happening::Mouse(event) => {
                self.last_input = tick;
                handle_mouse(app, event)
            },
            Happening::Nothing => false,
        }
    }

    /// Ends a round with what happened, and says whether the launcher quits;
    /// says nothing, and changes nothing, where the launcher cannot take it.
    pub fn try_end_round(
        &mut self,
        app: &mut App,
        happening: Happening,
        executables: &Vec<String>,
        tick: u64,
    ) -> (r: Option<bool>)
        ensures
            r is Some <==> old(app)@.takes_happening(happening),
            r is Some ==> (final(app)@, r->0) == old(app)@.after_happening(
                happening,
                texts(executables@),
                tick,
            ),
            r is Some ==> final(self).last_input == if happening is Nothing {
                old(self).last_input
            } else {
                tick
            },
            r is None ==> *final(app) == *old(app) && *final(self) == *old(self),
    {
        let able = match happening {
            Happening::Key(key) => can_take(app, key),
            Happening::Mouse(event) => can_take_mouse(app, event),
            Happening::Nothing => true,
        };
        if able {
            Some(self.end_round(app, happening, executables, tick))
        } else {
            None
        }
    }
}

/// The panes that are drawn ahead of the first round, each with its focus.
pub open spec fn warmups(state: State) -> Seq<Focus> {
    if state.categories.len() == 0 {
        Seq::empty()
    } else if state.mode == Mode::DualPane {
        seq![Focus::Apps, Focus::Categories]
    } else {
        seq![Focus::Apps]
    }
}

/// The panes that are drawn ahead of the first round, each with its focus.
pub fn warmup_frames(app: &App) -> (r: Vec<Focus>)
    ensures
        r@ == warmups(app@),
{
    let mut r: Vec<Focus> = Vec::new();
    if app.categories.len() == 0 {
        return r;
    }
    r.push(Focus::Apps);
    if app.mode == Mode::DualPane {
        r.push(Focus::Categories);
    }
    assert(r@ =~= warmups(app@));
    r
}

/// The command that gives a window of the launcher its place again.
pub open spec fn placing_line(app_id: Seq<char>, size: Seq<char>) -> Seq<char> {
    "[app_id=\""@ + app_id + "\"] resize set "@ + size + " ppt "@ + size
        + " ppt, move position center, focus"@
}

/// The command of sway that gives a window of the launcher its place again.
pub fn placing_command(app_id: &str, size: &str) -> (r: String)
    ensures
        r@ == placing_line(app_id@, size@),
{
    let mut r = "[app_id=\"".to_owned();
    r.append(app_id);
    r.append("\"] resize set ");
    r.append(size);
    r.append(" ppt ");
    r.append(size);
    r.append(" ppt, move position center, focus");
    r
}

/// What is done at the end of a run.
#[verifier::ext_equal]
pub enum Ending {
    /// Nothing was chosen.
    Cancelled,
    /// A line is printed.
    Printed(Seq<char>),
    /// A line is handed to sway, as a launch of the app with the name if there
    /// is one.
    Swayed { recorded: Option<Seq<char>>, line: Seq<char> },
    /// A command is started, as a launch of the app with the name.
    Started { name: Seq<char>, command: CommandLine },
    /// A line is handed to a shell.
    Shelled(Seq<char>),
}

/// What is to be done at the end of a run, as the program holds it.
#[derive(Debug)]
pub enum Plan {
    Cancelled,
    Print(String),
    Sway { recorded: Option<String>, line: String },
    Start { name: String, command: Command },
    Shell(String),
}

impl View for Plan {
    type V = Ending;

    open spec fn view(&self) -> Ending {
        match self {
            Plan::Cancelled => Ending::Cancelled,
            Plan::Print(line) => Ending::Printed(line@),
            Plan::Sway { recorded, line } => Ending::Swayed {
                recorded: text_in(*recorded),
                line: line@,
            },
            Plan::Start { name, command } => Ending::Started { name: name@, command: command@ },
            Plan::Shell(line) => Ending::Shelled(line@),
        }
    }
}

/// The first of some entries with a command line.
pub open spec fn first_with_line(apps: Seq<Entry>, line: Seq<char>) -> Option<Entry>
    decreases apps.len(),
{
    if apps.len() == 0 {
        None
    } else if apps[0].exec_line == line {
        Some(apps[0])
    } else {
        first_with_line(apps.drop_first(), line)
    }
}

/// The first of some entries with a command line.
fn find_by_line<'a>(apps: &'a Vec<AppEntry>, line: &str) -> (r: Option<&'a AppEntry>)
    ensures
        match r {
            Some(entry) => first_with_line(entries_of(apps@), line@) == Some(entry@),
            None => first_with_line(entries_of(apps@), line@) is None,
        },
{
    let ghost all = entries_of(apps@);
    assert(all.skip(0) =~= all);
    for i in 0..apps.len()
        invariant
            all == entries_of(apps@),
            first_with_line(all, line@) == first_with_line(all.skip(i as int), line@),
    {
        assert(all.skip(i as int)[0] == apps@[i as int]@);
        assert(all.skip(i as int).drop_first() =~= all.skip(i + 1));
        if same_text(apps[i].exec_line.as_str(), line) {
            return Some(&apps[i]);
        }
    }
    None
}

impl State {
    /// What is done at the end of a run: the chosen line is printed, handed to
    /// sway or started, and an app that runs in a terminal gets one.
    pub open spec fn ending(self, print_only: bool, sway_mode: bool) -> Ending {
        match self.app_to_launch {
            None => Ending::Cancelled,
            Some(line) => match first_with_line(self.apps, line) {
                Some(entry) => if print_only {
                    if entry.terminal || entry.wants_terminal() {
                        Ending::Printed(self.config.terminal@ + " "@ + line)
                    } else {
                        Ending::Printed(line)
                    }
                } else if sway_mode {
                    Ending::Swayed {
                        recorded: Some(entry.name),
                        line: sway_line(entry_line(entry, self.config.terminal@)),
                    }
                } else {
                    Ending::Started {
                        name: entry.name,
                        command: entry_line(entry, self.config.terminal@),
                    }
                },
                None => if print_only {
                    Ending::Printed(line)
                } else if sway_mode {
                    Ending::Swayed { recorded: None, line }
                } else {
                    Ending::Shelled(line)
                },
            },
        }
    }
}

/// What is to be done at the end of a run.
pub fn launch_plan(app: &App, print_only: bool, sway_mode: bool) -> (r: Plan)
    ensures
        r@ == app@.ending(print_only, sway_mode),
{
    let line = match &app.app_to_launch {
        Some(line) => line,
        None => {
            return Plan::Cancelled;
        },
    };
    match find_by_line(&app.apps, line.as_str()) {
        Some(entry) => {
            if print_only {
                if entry.terminal || entry.needs_terminal() {
                    let mut whole = app.config.terminal.clone();
                    whole.append(" ");
                    whole.append(line.as_str());
                    Plan::Print(whole)
                } else {
                    Plan::Print(line.clone())
                }
            } else {
                let command = build_command(entry, &app.config);
                let name = entry.name.clone();
                if sway_mode {
                    Plan::Sway { recorded: Some(name), line: build_sway_exec_string(&command) }
                } else {
                    Plan::Start { name, command }
                }
            }
        },
        None => {
            if print_only {
                Plan::Print(line.clone())
            } else if sway_mode {
                Plan::Sway { recorded: None, line: line.clone() }
            } else {
                Plan::Shell(line.clone())
            }
        },
    }
}

/// What the single pane shows: the names of its apps, and the description of
/// the chosen one.
#[derive(Debug)]
pub struct PaneContents {
    pub names: Vec<String>,
    pub description: String,
}

/// The description of the chosen one of some entries.
pub open spec fn description_of(entries: Seq<Entry>, selected: int) -> Seq<char> {
    if 0 <= selected < entries.len() {
        entries[selected].comment
    } else {
        Seq::empty()
    }
}

/// What the single pane shows.
pub fn single_pane_contents(app: &App, selected: usize) -> (r: PaneContents)
    requires
        app@.can_search(app@.query()),
    ensures
        texts(r.names@) == names_of(picked(app@.apps, app@.visible())),
        r.description@ == description_of(picked(app@.apps, app@.visible()), selected as int),
{
    let visible = app.visible_apps();
    let ghost shown = picked(app@.apps, app@.visible());
    let ghost target = names_of(shown);
    let mut names: Vec<String> = Vec::new();
    assert(texts(names@) =~= target.take(0));
    for i in 0..visible.len()
        invariant
            entries_shown(visible@) == shown,
            target == names_of(shown),
            texts(names@) == target.take(i as int),
    {
        assert(entries_shown(visible@)[i as int] == visible@[i as int]@);
        let name = visible[i].name.clone();
        proof {
            lemma_texts_push(names@, name);
            assert(target.take(i + 1) =~= target.take(i as int).push(name@));
        }
        names.push(name);
    }
    assert(target.take(target.len() as int) == target);
    let description = if selected < visible.len() {
        assert(entries_shown(visible@)[selected as int] == visible@[selected as int]@);
        visible[selected].comment.clone()
    } else {
        let none = String::new();
        assert(none@ =~= Seq::<char>::empty());
        none
    };
    PaneContents { names, description }
}

/// What the single pane shows; nothing where a score cannot be computed.
pub fn try_single_pane_contents(app: &App, selected: usize) -> (r: Option<PaneContents>)
    ensures
        r is Some <==> app@.can_search(app@.query()),
        r is Some ==> texts(r->0.names@) == names_of(
            picked(app@.apps, app@.visible()),
        ),
        r is Some ==> r->0.description@ == description_of(
            picked(app@.apps, app@.visible()),
            selected as int,
        ),
{
    let query = app.query();
    if app.is_searchable(query.as_str()) {
        Some(single_pane_contents(app, selected))
    } else {
        None
    }
}

/// In the single pane, the enter key launches the app whose name is shown in
/// the chosen row.
pub proof fn the_chosen_row_shows_what_is_launched(state: State)
    requires
        state.mode == Mode::SinglePane,
        0 <= state.selected_app,
        state.selected() is Some,
    ensures
        names_of(picked(state.apps, state.visible()))[state.selected_app]
            == state.apps[state.selected()->0].name,
{
}

/// Whether an app of the launcher has a name and the chosen line.
pub open spec fn is_chosen(state: State, app: int, name: Seq<char>) -> bool {
    &&& 0 <= app < state.apps.len()
    &&& state.apps[app].name == name
    &&& state.app_to_launch == Some(state.apps[app].exec_line)
}

/// Nothing is done where nothing was chosen. What is started or handed to sway
/// as an app is an app of the list with the chosen line, with the command that
/// its entry stands for. Where only a line is to be printed, nothing is started.
pub proof fn what_is_launched_was_chosen(state: State, print_only: bool, sway_mode: bool)
    ensures
        state.ending(print_only, sway_mode) is Cancelled <==> state.app_to_launch is None,
        state.ending(print_only, sway_mode) matches Ending::Started { name, command } ==> exists|
            i: int,
        |
            (#[trigger] is_chosen(state, i, name)) && command == entry_line(
                state.apps[i],
                state.config.terminal@,
            ),
        state.ending(print_only, sway_mode) matches Ending::Swayed {
            recorded: Some(name),
            line,
        } ==> exists|i: int|
            (#[trigger] is_chosen(state, i, name)) && line == sway_line(
                entry_line(state.apps[i], state.config.terminal@),
            ),
        print_only && state.app_to_launch is Some ==> state.ending(
            print_only,
            sway_mode,
        ) is Printed,
{
    if let Some(line) = state.app_to_launch {
        lemma_first_with_line(state.apps, line);
        if let Some(entry) = first_with_line(state.apps, line) {
            let i = choose|i: int|
                0 <= i < state.apps.len() && #[trigger] state.apps[i] == entry
                    && state.apps[i].exec_line == line;
            let command = entry_line(state.apps[i], state.config.terminal@);
            let ending = state.ending(print_only, sway_mode);
            assert(ending is Started ==> is_chosen(state, i, ending->Started_name)
                && ending->command == command);
            assert(ending is Swayed ==> is_chosen(state, i, ending->recorded->0)
                && ending->Swayed_line == sway_line(command));
        }
    }
}

/// The first entry with a command line is one of the entries and has it.
proof fn lemma_first_with_line(apps: Seq<Entry>, line: Seq<char>)
    ensures
        first_with_line(apps, line) is Some ==> exists|i: int|
            0 <= i < apps.len() && #[trigger] apps[i] == first_with_line(apps, line)->0
                && apps[i].exec_line == line,
    decreases apps.len(),
{
    if apps.len() > 0 {
        if apps[0].exec_line == line {
            assert(apps[0] == first_with_line(apps, line)->0);
        } else {
            let rest = apps.drop_first();
            lemma_first_with_line(rest, line);
            if first_with_line(rest, line) is Some {
                let i = choose|i: int|
                    0 <= i < rest.len() && #[trigger] rest[i] == first_with_line(rest, line)->0
                        && rest[i].exec_line == line;
                assert(apps[i + 1] == rest[i]);
            }
        }
    }
}

/// Where a line was chosen that is the command line of an app, it is that app
/// that is launched, the first one of the list: where a line is to be printed
/// it is the command line, behind the terminal if the app runs in one; sway is
/// handed a line that it reads as the words of the app's command; and else the
/// app's command is started. The launch is recorded under the app's name.
pub proof fn the_first_app_with_the_line_is_launched(state: State, sway_mode: bool, first: int)
    requires
        state.app_to_launch is Some,
        0 <= first < state.apps.len(),
        state.apps[first].exec_line == state.app_to_launch->0,
        forall|j: int|
            0 <= j < first ==> (#[trigger] state.apps[j]).exec_line != state.app_to_launch->0,
    ensures
        ({
            let entry = state.apps[first];
            let line = state.app_to_launch->0;
            let command = entry_line(entry, state.config.terminal@);
            &&& state.ending(true, sway_mode) == Ending::Printed(
                if entry.terminal || entry.wants_terminal() {
                    state.config.terminal@ + " "@ + line
                } else {
                    line
                },
            )
            &&& state.ending(false, false) == (Ending::Started { name: entry.name, command })
            &&& state.ending(false, true) is Swayed
            &&& state.ending(false, true)->recorded == Some(entry.name)
            &&& Reading::start().read_all(state.ending(false, true)->Swayed_line).all_words()
                == seq![command.program] + command.args
        }),
{
    lemma_first_line(state.apps, state.app_to_launch->0, first);
    sway_reads_the_command_back(entry_line(state.apps[first], state.config.terminal@));
}

/// The first entry with a command line is found.
proof fn lemma_first_line(apps: Seq<Entry>, line: Seq<char>, first: int)
    requires
        0 <= first < apps.len(),
        apps[first].exec_line == line,
        forall|j: int| 0 <= j < first ==> (#[trigger] apps[j]).exec_line != line,
    ensures
        first_with_line(apps, line) == Some(apps[first]),
    decreases apps.len(),
{
    if first > 0 {
        let rest = apps.drop_first();
        assert(apps[0].exec_line != line);
        assert forall|j: int| 0 <= j < first - 1 implies (#[trigger] rest[j]).exec_line != line by {
            assert(rest[j] == apps[j + 1]);
        }
        lemma_first_line(rest, line, first - 1);
    }
}

/// Where no app has the chosen line, the line itself is printed, handed to sway
/// or run by a shell, and no launch is recorded. Where nothing was chosen,
/// nothing is done.
pub proof fn other_lines_are_run_as_they_are(state: State, print_only: bool, sway_mode: bool)
    requires
        state.app_to_launch is Some ==> forall|j: int|
            0 <= j < state.apps.len() ==> (#[trigger] state.apps[j]).exec_line
                != state.app_to_launch->0,
    ensures
        state.app_to_launch is None ==> state.ending(print_only, sway_mode) == Ending::Cancelled,
        state.app_to_launch is Some && print_only ==> state.ending(print_only, sway_mode)
            == Ending::Printed(state.app_to_launch->0),
        state.app_to_launch is Some && !print_only && sway_mode ==> state.ending(
            print_only,
            sway_mode,
        ) == (Ending::Swayed { recorded: None, line: state.app_to_launch->0 }),
        state.app_to_launch is Some && !print_only && !sway_mode ==> state.ending(
            print_only,
            sway_mode,
        ) == Ending::Shelled(state.app_to_launch->0),
{
    if let Some(line) = state.app_to_launch {
        lemma_first_with_line(state.apps, line);
    }
}

/// An option has the argument behind the first one that is its name, or what
/// stands behind `=` in the first one that begins with its name and `=`,
/// whichever comes first; without such an argument it has no value.
pub proof fn the_first_mention_of_an_option_counts(
    args: Seq<Seq<char>>,
    name: Seq<char>,
    at: int,
    value: Seq<char>,
)
    requires
        0 <= at <= args.len(),
        forall|j: int|
            0 <= j < at ==> (#[trigger] args[j]) != name && !begins(args[j], name + "="@),
    ensures
        at == args.len() ==> option_value(args, name) is None,
        at < args.len() && args[at] == name && at + 1 < args.len() ==> option_value(args, name)
            == Some(args[at + 1]),
        at < args.len() && args[at] == name && at + 1 == args.len() ==> option_value(
            args,
            name,
        ) is None,
        at < args.len() && args[at] == name + "="@ + value ==> option_value(args, name) == Some(
            value,
        ),
    decreases args.len(),
{
    if at > 0 {
        let rest = args.drop_first();
        assert(args[0] != name && !begins(args[0], name + "="@));
        assert forall|j: int| 0 <= j < at - 1 implies (#[trigger] rest[j]) != name && !begins(
            rest[j],
            name + "="@,
        ) by {
            assert(rest[j] == args[j + 1]);
        }
        the_first_mention_of_an_option_counts(rest, name, at - 1, value);
    } else if args.len() > 0 && args[0] == name + "="@ + value {
        reveal_strlit("=");
        let prefix = name + "="@;
        assert(args[0].len() > name.len());
        assert(args[0].take(prefix.len() as int) =~= prefix);
        assert(args[0].skip(prefix.len() as int) =~= value);
    }
}

/// A run waits for ever with a timeout of 0 seconds, and else until as many
/// seconds have passed since the last key or mouse event.
pub proof fn a_run_waits_for_its_timeout(session: Session, timeout: u64, passed: u64)
    requires
        session.last_input + passed <= u64::MAX,
    ensures
        session.waited_too_long(timeout, (session.last_input + passed) as u64) <==> timeout > 0
            && passed >= timeout * 1_000_000_000,
{
}

/// The cursor is steady where the launcher itself shows and hides it, and
/// blinks where that is left to the terminal; a change of that keeps its shape.
pub proof fn the_cursor_keeps_its_shape(shape: CursorShape, interval: u64)
    requires
        interval > 0,
    ensures
        match style_of(shape, interval) {
            CursorStyle::SteadyBlock => shape is Block && style_of(shape, 0)
                == CursorStyle::BlinkingBlock,
            CursorStyle::SteadyUnderScore => shape is Underline && style_of(shape, 0)
                == CursorStyle::BlinkingUnderScore,
            CursorStyle::SteadyBar => shape is Pipe && style_of(shape, 0)
                == CursorStyle::BlinkingBar,
            _ => false,
        },
{
}

/// The single pane shows the description of the chosen app below its list, and
/// none where no app is chosen.
pub proof fn the_chosen_app_is_described(entries: Seq<Entry>, selected: int)
    ensures
        0 <= selected < entries.len() ==> description_of(entries, selected)
            == entries[selected].comment,
        selected >= entries.len() ==> description_of(entries, selected).len() == 0,
{
}

/// What happens goes to the launcher as it is, and nothing changes where nothing
/// happens.
pub proof fn happenings_go_to_the_launcher(
    state: State,
    key: KeyEvent,
    event: MouseEvent,
    executables: Seq<Seq<char>>,
    tick: u64,
)
    ensures
        state.after_happening(Happening::Key(key), executables, tick) == state.after_key(
            key,
            executables,
            tick,
        ),
        state.after_happening(Happening::Mouse(event), executables, tick) == state.after_mouse(
            event,
        ),
        state.after_happening(Happening::Nothing, executables, tick) == (state, false),
{
}

} // verus!
