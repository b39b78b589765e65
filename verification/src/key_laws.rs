//! What each key and each movement of the mouse does, whatever the launcher
//! shows.

use vstd::prelude::*;
use vstd::utf8::{is_ascii_chars, is_ascii_chars_encode_utf8};

use crate::app::{kept, Focus, Mode, SinglePaneMode, State};
use crate::catalog::within;
use crate::event_laws::{lemma_place_of, plain_text_is_cut_at_the_cursor, steps_stop_at_the_ends};
use crate::events::{lemma_apps_step, lemma_categories_step};
use crate::input::{after_event, after_request, fresh_input, input_cursor, input_text, EditRequest};
use crate::keys::{KeyCode, KeyEvent, MouseEvent, MouseKind, Rect};
use crate::list_laws::{belongs, lemma_members};
use crate::search::can_score;
use crate::text::lowercase;

verus! {

/// Escape, and the control key with `c` or `g`, quit and change nothing.
pub proof fn escape_quits(
    state: State,
    key: KeyEvent,
    executables: Seq<Seq<char>>,
    tick: u64,
)
    requires
        key.code == KeyCode::Esc || key.modifiers == 2 && (key.code == KeyCode::Char('c')
            || key.code == KeyCode::Char('g')),
    ensures
        state.after_key(key, executables, tick) == (state, true),
{
}

/// No other key quits but enter, and enter only where it launches an app.
pub proof fn other_keys_do_not_quit(
    state: State,
    key: KeyEvent,
    executables: Seq<Seq<char>>,
    tick: u64,
)
    requires
        key.code != KeyCode::Esc,
        key.modifiers != 2 || key.code != KeyCode::Char('c') && key.code != KeyCode::Char('g'),
        key.code != KeyCode::Enter,
    ensures
        !state.after_key(key, executables, tick).1,
        state.after_key(key, executables, tick).0.app_to_launch == state.app_to_launch,
        state.after_key(key, executables, tick).0.should_quit == state.should_quit,
{
}

/// Tab, and the control key with `m` or `t`, change between one list and
/// categories beside their apps. The first pane has the focus then, and the
/// first items are chosen; the query stays.
pub proof fn tab_changes_the_panes(
    state: State,
    key: KeyEvent,
    executables: Seq<Seq<char>>,
    tick: u64,
)
    requires
        key.code == KeyCode::Tab || key.modifiers == 2 && (key.code == KeyCode::Char('m')
            || key.code == KeyCode::Char('t')),
    ensures
        ({
            let after = state.after_key(key, executables, tick);
            &&& !after.1
            &&& state.mode == Mode::SinglePane ==> after.0.mode == Mode::DualPane && after.0.focus
                == Focus::Categories && after.0.apps == state.storage.entries(
                state.category_overrides,
            )
            &&& state.mode == Mode::DualPane ==> after.0.mode == Mode::SinglePane && after.0.focus
                == Focus::Apps
            &&& after.0.selected_app == 0 && after.0.selected_category == 0
            &&& after.0.input == state.input
            &&& after.0.single_pane_mode == state.single_pane_mode
            &&& after.0.storage == state.storage
            &&& after.0.recent_apps == state.recent_apps
            &&& after.0.popularity == state.popularity
        }),
{
}

/// The control key with `x` changes what the single pane lists, and shows it
/// from its first item.
pub proof fn control_x_changes_what_is_listed(
    state: State,
    key: KeyEvent,
    executables: Seq<Seq<char>>,
    tick: u64,
)
    requires
        key.modifiers == 2,
        key.code == KeyCode::Char('x'),
    ensures
        ({
            let after = state.after_key(key, executables, tick);
            &&& !after.1
            &&& after.0.mode == Mode::SinglePane
            &&& state.single_pane_mode == SinglePaneMode::Dmenu ==> after.0.single_pane_mode
                == SinglePaneMode::DesktopApps
            &&& state.single_pane_mode == SinglePaneMode::DesktopApps
                ==> after.0.single_pane_mode == SinglePaneMode::Dmenu
            &&& after.0.focus == Focus::Apps
            &&& after.0.selected_app == 0 && after.0.selected_category == 0
            &&& after.0.input == state.input
            &&& after.0.storage == state.storage
        }),
{
}

/// Where the keys go through the apps, up chooses the app above and down the
/// app below, as far as there is one, and nothing else changes.
pub proof fn up_and_down_go_through_the_apps(
    state: State,
    key: KeyEvent,
    executables: Seq<Seq<char>>,
    tick: u64,
)
    requires
        state.mode == Mode::SinglePane || state.focus != Focus::Categories,
        key.code == KeyCode::Up || key.code == KeyCode::Down,
        0 <= state.selected_app,
    ensures
        ({
            let after = state.after_key(key, executables, tick);
            &&& !after.1
            &&& after.0 == (State { selected_app: after.0.selected_app, ..state })
            &&& key.code == KeyCode::Up ==> after.0.selected_app == if state.selected_app > 0 {
                state.selected_app - 1
            } else {
                0
            }
            &&& key.code == KeyCode::Down ==> after.0.selected_app == if state.selected_app + 1
                < state.listed().len() {
                state.selected_app + 1
            } else {
                state.selected_app
            }
        }),
{
}

/// Where the keys go through the categories, up chooses the listed category
/// above and down the one below; above the first stands the last, and below the
/// last the first. The first app of the category is chosen.
pub proof fn up_and_down_go_through_the_categories(
    state: State,
    key: KeyEvent,
    executables: Seq<Seq<char>>,
    tick: u64,
    at: int,
)
    requires
        state.mode == Mode::DualPane,
        state.focus == Focus::Categories,
        key.code == KeyCode::Up || key.code == KeyCode::Down,
        0 <= at < state.listed_categories().len(),
        state.listed_categories()[at] == state.selected_category,
        state.listed_categories().no_duplicates(),
    ensures
        ({
            let after = state.after_key(key, executables, tick);
            let listed = state.listed_categories();
            let next = if key.code == KeyCode::Up {
                if at > 0 {
                    at - 1
                } else {
                    listed.len() - 1
                }
            } else if at + 1 < listed.len() {
                at + 1
            } else {
                0
            };
            &&& !after.1
            &&& after.0 == (State {
                selected_category: listed[next],
                selected_app: 0,
                ..state
            })
        }),
{
    lemma_place_of(state.listed_categories(), at);
}

/// The left key goes from the apps to the categories and the right key back,
/// and nothing else changes.
pub proof fn left_and_right_change_the_focus(
    state: State,
    key: KeyEvent,
    executables: Seq<Seq<char>>,
    tick: u64,
)
    requires
        key.code == KeyCode::Left || key.code == KeyCode::Right,
    ensures
        ({
            let after = state.after_key(key, executables, tick);
            &&& !after.1
            &&& after.0 == (State { focus: after.0.focus, ..state })
            &&& after.0.focus == if state.mode == Mode::DualPane && key.code == KeyCode::Left
                && state.focus == Focus::Apps {
                Focus::Categories
            } else if state.mode == Mode::DualPane && key.code == KeyCode::Right && state.focus
                == Focus::Categories {
                Focus::Apps
            } else {
                state.focus
            }
        }),
{
}

/// With the control key, `a` and `e` go to the start and the end of the search
/// line, `b` and `f` a character back and forth, `w` deletes the word before the
/// cursor, `d` the character behind it and `h` the one before it. The cursor is
/// shown from now on, and the lists stay.
pub proof fn control_keys_edit_the_line(
    state: State,
    key: KeyEvent,
    executables: Seq<Seq<char>>,
    tick: u64,
    c: char,
)
    requires
        key.modifiers == 2,
        key.code == KeyCode::Char(c),
        c == 'a' || c == 'e' || c == 'b' || c == 'f' || c == 'w' || c == 'd' || c == 'h',
    ensures
        ({
            let after = state.after_key(key, executables, tick);
            let request = if c == 'a' {
                EditRequest::GoToStart
            } else if c == 'e' {
                EditRequest::GoToEnd
            } else if c == 'b' {
                EditRequest::GoToPrevChar
            } else if c == 'f' {
                EditRequest::GoToNextChar
            } else if c == 'w' {
                EditRequest::DeletePrevWord
            } else if c == 'd' {
                EditRequest::DeleteNextChar
            } else {
                EditRequest::DeletePrevChar
            };
            &&& !after.1
            &&& after.0.input == after_request(state.input, request)
            &&& after.0.cursor_visible
            &&& after.0.cursor_last_toggle == tick
            &&& after.0.apps == state.apps
            &&& after.0.mode == state.mode
        }),
{
}

/// With the control key, `u` deletes what stands before the cursor and puts the
/// cursor at the start, and `k` deletes what stands behind it, in a line of
/// ASCII characters. Where there is nothing to delete, nothing changes.
pub proof fn control_u_and_k_cut_the_line(
    state: State,
    key: KeyEvent,
    executables: Seq<Seq<char>>,
    tick: u64,
)
    requires
        key.modifiers == 2,
        key.code == KeyCode::Char('u') || key.code == KeyCode::Char('k'),
        is_ascii_chars(input_text(state.input)),
        0 <= input_cursor(state.input) <= input_text(state.input).len(),
    ensures
        ({
            let after = state.after_key(key, executables, tick);
            let text = input_text(state.input);
            let at = input_cursor(state.input);
            &&& !after.1
            &&& key.code == KeyCode::Char('u') && at == 0 ==> after.0 == state
            &&& key.code == KeyCode::Char('u') && at > 0 ==> after.0.input == after_request(
                fresh_input(text.skip(at)),
                EditRequest::GoToStart,
            )
            &&& key.code == KeyCode::Char('k') && at == text.len() ==> after.0 == state
            &&& key.code == KeyCode::Char('k') && at < text.len() ==> after.0.input == fresh_input(
                text.take(at),
            )
        }),
{
    let text = input_text(state.input);
    plain_text_is_cut_at_the_cursor(text, input_cursor(state.input));
    is_ascii_chars_encode_utf8(text);
}

/// A character without the control key goes to the search line, and the cursor
/// is shown from now on. In the single pane the first app is chosen then.
pub proof fn characters_go_to_the_line(
    state: State,
    key: KeyEvent,
    executables: Seq<Seq<char>>,
    tick: u64,
)
    requires
        key.code is Char || key.code is Backspace || key.code is Delete,
        key.modifiers != 2,
    ensures
        ({
            let after = state.after_key(key, executables, tick);
            &&& !after.1
            &&& after.0.input == after_event(state.input, key)
            &&& after.0.cursor_visible
            &&& after.0.cursor_last_toggle == tick
            &&& state.mode == Mode::SinglePane ==> after.0.selected_app == 0
            &&& after.0.apps == state.apps
            &&& after.0.mode == state.mode
        }),
{
}

/// A click on a row of the list of apps, inside its border, chooses the app in
/// that row, counted from the first row that is on the screen. If the app was
/// chosen and had the focus before, it is launched and the launcher quits.
pub proof fn a_click_chooses_the_app_under_it(state: State, event: MouseEvent, rect: Rect)
    requires
        event.kind == MouseKind::LeftDown,
        state.apps_rect == Some(rect),
        rect.x < event.column < rect.x + rect.width - 1,
        rect.y < event.row < rect.y + rect.height - 1,
        0 <= state.apps_offset,
        state.apps_offset + event.row - rect.y - 1 < state.listed().len(),
    ensures
        ({
            let after = state.after_mouse(event);
            let target = state.apps_offset + event.row - rect.y - 1;
            let again = state.focus == Focus::Apps && state.selected_app == target;
            &&& after.0.focus == Focus::Apps
            &&& after.0.selected_app == target
            &&& after.1 == again
            &&& after.0.app_to_launch == if again {
                Some(state.apps[state.listed()[target]].exec_line)
            } else {
                state.app_to_launch
            }
            &&& after.0.should_quit == (again || state.should_quit)
            &&& after.0.selected_category == state.selected_category
        }),
{
}

/// A click on the border of the list of apps, or below its last app, changes
/// nothing.
pub proof fn a_click_beside_the_apps_changes_nothing(state: State, event: MouseEvent, rect: Rect)
    requires
        event.kind == MouseKind::LeftDown,
        state.apps_rect == Some(rect),
        rect.x <= event.column < rect.x + rect.width,
        rect.y <= event.row < rect.y + rect.height,
        event.column == rect.x || event.column == rect.x + rect.width - 1 || event.row == rect.y
            || event.row == rect.y + rect.height - 1 || state.apps_offset + event.row - rect.y - 1
            >= state.listed().len(),
    ensures
        state.after_mouse(event) == (state, false),
{
}

/// A click on a row of the list of categories, inside its border, chooses the
/// listed category in that row and, if it is another one, its first app.
pub proof fn a_click_chooses_the_category_under_it(state: State, event: MouseEvent, rect: Rect)
    requires
        event.kind == MouseKind::LeftDown,
        state.apps_rect is None,
        state.categories_rect == Some(rect),
        rect.x < event.column < rect.x + rect.width - 1,
        rect.y < event.row < rect.y + rect.height - 1,
        0 <= state.categories_offset,
        state.categories_offset + event.row - rect.y - 1 < state.listed_categories().len(),
    ensures
        ({
            let after = state.after_mouse(event);
            let category = state.listed_categories()[state.categories_offset + event.row - rect.y
                - 1];
            &&& !after.1
            &&& after.0.focus == Focus::Categories
            &&& after.0.selected_category == category
            &&& after.0.selected_app == if category == state.selected_category {
                state.selected_app
            } else {
                0
            }
            &&& after.0.app_to_launch == state.app_to_launch
        }),
{
}

/// A click on the search line gives it the focus, and a click anywhere else,
/// as any other movement of the mouse, changes nothing.
pub proof fn a_click_on_the_line_gives_it_the_focus(state: State, event: MouseEvent, rect: Rect)
    requires
        event.kind == MouseKind::LeftDown,
        state.apps_rect is None,
        state.categories_rect is None,
        state.search_rect == Some(rect),
    ensures
        state.after_mouse(event) == if rect.x <= event.column < rect.x + rect.width && rect.y
            <= event.row < rect.y + rect.height {
            (State { focus: Focus::Search, ..state }, false)
        } else {
            (state, false)
        },
        state.after_mouse(MouseEvent { kind: MouseKind::Other, ..event }) == (state, false),
{
}

/// The wheel over the apps goes three apps up or down, but not beyond the ends
/// of the list, and gives them the focus.
pub proof fn the_wheel_goes_three_apps(state: State, event: MouseEvent, rect: Rect)
    requires
        event.kind == MouseKind::ScrollUp || event.kind == MouseKind::ScrollDown,
        state.categories_rect is None,
        state.apps_rect == Some(rect),
        rect.x <= event.column < rect.x + rect.width,
        rect.y <= event.row < rect.y + rect.height,
        0 <= state.selected_app < state.listed().len(),
    ensures
        ({
            let after = state.after_mouse(event);
            let last = state.listed().len() - 1;
            &&& !after.1
            &&& after.0.focus == Focus::Apps
            &&& event.kind == MouseKind::ScrollUp ==> after.0.selected_app
                == if state.selected_app >= 3 {
                state.selected_app - 3
            } else {
                0
            }
            &&& event.kind == MouseKind::ScrollDown ==> after.0.selected_app
                == if state.selected_app + 3 <= last {
                state.selected_app + 3
            } else {
                last
            }
            &&& after.0.app_to_launch == state.app_to_launch
        }),
{
    let focused = State { focus: Focus::Apps, ..state };
    assert(focused.shelf() =~= state.shelf());
    assert(focused.listed() == state.listed());
    steps_stop_at_the_ends(focused, 3);
    lemma_apps_step(focused, 3);
}

/// After a key that changes the search line, the choice is made anew: without a
/// query the first category and its first app are chosen, in the single pane
/// the first app, and in the dual pane the first category with a match and its
/// first app. Where no category has a match, the choice stays.
pub proof fn a_changed_line_chooses_anew(
    state: State,
    key: KeyEvent,
    executables: Seq<Seq<char>>,
    tick: u64,
)
    requires
        key.code is Char || key.code is Backspace || key.code is Delete,
        key.modifiers != 2,
    ensures
        ({
            let after = state.after_key(key, executables, tick).0;
            let query = input_text(after.input);
            &&& query.len() == 0 ==> after.selected_category == 0 && after.selected_app == 0
            &&& query.len() > 0 && state.mode == Mode::SinglePane ==> after.selected_app == 0
                && after.selected_category == state.selected_category
            &&& query.len() > 0 && state.mode == Mode::DualPane && after.listed_categories().len()
                > 0 ==> after.selected_category == after.listed_categories()[0]
                && after.selected_app == 0
            &&& query.len() > 0 && state.mode == Mode::DualPane && after.listed_categories().len()
                == 0 ==> after.selected_category == state.selected_category && after.selected_app
                == state.selected_app
            &&& after.focus == state.focus
        }),
{
    let changed = state.with_input(state.edited_line(key)).cursor_shown(tick);
    let after = state.after_key(key, executables, tick).0;
    assert(after.shelf() =~= changed.shelf());
}

/// The wheel over the categories goes three listed categories up or down, but
/// not beyond the ends of the list, and gives them the focus.
pub proof fn the_wheel_goes_three_categories(
    state: State,
    event: MouseEvent,
    rect: Rect,
    at: int,
)
    requires
        event.kind == MouseKind::ScrollUp || event.kind == MouseKind::ScrollDown,
        state.mode == Mode::DualPane,
        state.categories_rect == Some(rect),
        rect.x <= event.column < rect.x + rect.width,
        rect.y <= event.row < rect.y + rect.height,
        0 <= at < state.listed_categories().len(),
        state.listed_categories()[at] == state.selected_category,
        state.listed_categories().no_duplicates(),
    ensures
        ({
            let after = state.after_mouse(event);
            let listed = state.listed_categories();
            let last = listed.len() - 1;
            &&& !after.1
            &&& after.0.focus == Focus::Categories
            &&& event.kind == MouseKind::ScrollUp ==> after.0.selected_category == listed[if at
                >= 3 {
                at - 3
            } else {
                0
            }]
            &&& event.kind == MouseKind::ScrollDown ==> after.0.selected_category == listed[if at
                + 3 <= last {
                at + 3
            } else {
                last
            }]
        }),
{
    let focused = State { focus: Focus::Categories, ..state };
    assert(focused.shelf() =~= state.shelf());
    assert(focused.listed_categories() == state.listed_categories());
    lemma_categories_steps(focused, 3, at);
}

/// Where steps through the categories lead.
proof fn lemma_categories_steps(state: State, steps: nat, at: int)
    requires
        0 <= at < state.listed_categories().len(),
        state.listed_categories()[at] == state.selected_category,
        state.listed_categories().no_duplicates(),
    ensures
        ({
            let listed = state.listed_categories();
            let up = if at >= steps {
                at - steps
            } else {
                0
            };
            let down = if at + steps < listed.len() {
                at + steps
            } else {
                listed.len() - 1
            };
            &&& state.categories_up(steps).selected_category == listed[up]
            &&& state.categories_down(steps).selected_category == listed[down]
            &&& state.categories_up(steps).focus == state.focus
            &&& state.categories_down(steps).focus == state.focus
        }),
    decreases steps,
{
    if steps > 0 {
        let fewer = (steps - 1) as nat;
        lemma_categories_steps(state, fewer, at);
        lemma_categories_step(state, fewer);
        let listed = state.listed_categories();
        let above = state.categories_up(fewer);
        let below = state.categories_down(fewer);
        assert(above.listed_categories() == listed);
        assert(below.listed_categories() == listed);
        lemma_place_of(
            listed,
            if at >= fewer {
                at - fewer
            } else {
                0
            },
        );
        lemma_place_of(
            listed,
            if at + fewer < listed.len() {
                at + fewer
            } else {
                listed.len() - 1
            },
        );
    }
}

/// Where every app can be scored for every query, the launcher takes every key
/// but those that cut the search line, and those in a line of ASCII characters.
pub proof fn ordinary_keys_are_taken(state: State, key: KeyEvent)
    requires
        0 <= state.selected_category,
        forall|query: Seq<char>, i: int|
            0 <= i < state.apps.len() ==> #[trigger] state.shelf().can_score_app(i, query),
        key.modifiers == 2 && (key.code == KeyCode::Char('u') || key.code == KeyCode::Char('k'))
            ==> is_ascii_chars(input_text(state.input)) && 0 <= input_cursor(state.input)
            <= input_text(state.input).len(),
    ensures
        state.takes(key),
{
    let shelf = state.shelf();
    assert forall|query: Seq<char>| #[trigger] state.can_search(query) by {
        assert forall|i: int| 0 <= i < shelf.apps.len() implies can_score(
            shelf.popularity,
            shelf.config.popularity_weight,
            (#[trigger] shelf.apps[i]).name,
            query,
        ) by {
            assert(shelf.can_score_app(i, query));
        }
    }
    assert forall|category: int, query: Seq<char>|
        0 <= category implies #[trigger] shelf.can_list_in(category, query) by {
        if category < shelf.categories.len() {
            let members = shelf.members(shelf.categories[category]);
            lemma_members_within(state, shelf.categories[category]);
            assert forall|k: int| 0 <= k < members.len() implies shelf.can_score_app(
                #[trigger] members[k],
                query,
            ) by {
                assert(0 <= members[k] < state.apps.len());
            }
        }
    }
    assert forall|query: Seq<char>| #[trigger] shelf.can_list_categories(query) by {
        assert forall|c: int| 0 <= c < shelf.categories.len() implies shelf.can_find(
            shelf.members(#[trigger] shelf.categories[c]),
            lowercase(query),
        ) by {
            lemma_members_within(state, shelf.categories[c]);
            let members = shelf.members(shelf.categories[c]);
            assert forall|k: int|
                0 <= k < members.len() && kept(
                    members.take(k),
                    shelf.matches(lowercase(query)),
                ).len() == 0 implies shelf.can_score_app(
                #[trigger] members[k],
                lowercase(query),
            ) by {
                assert(0 <= members[k] < state.apps.len());
            }
        }
    }
    assert(shelf.can_list_in(state.selected_category, state.query()));
    if key.modifiers == 2 && (key.code == KeyCode::Char('u') || key.code == KeyCode::Char('k')) {
        plain_text_is_cut_at_the_cursor(input_text(state.input), input_cursor(state.input));
    }
    assert(shelf.can_list_categories(state.query()));
    assert(shelf.can_list_categories(input_text(state.edited_line(key))));
    assert(state.can_search(state.query()));
}

/// The apps of a category are apps of the list.
proof fn lemma_members_within(state: State, category: Seq<char>)
    ensures
        within(state.shelf().members(category), state.apps.len()),
{
    let members = state.shelf().members(category);
    lemma_members(state, category);
    assert forall|k: int| 0 <= k < members.len() implies 0 <= #[trigger] members[k]
        < state.apps.len() by {
        assert(members.contains(members[k]));
        assert(belongs(state, members[k], category));
    }
}

} // verus!
