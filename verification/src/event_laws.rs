//! What holds of the launcher, whatever keys are pressed and wherever the mouse
//! is clicked.

use vstd::prelude::*;

use vstd::utf8::{
    decode_utf8, encode_utf8, encode_utf8_decode_utf8, encode_utf8_valid_utf8, is_ascii_chars,
    is_ascii_chars_encode_utf8, is_char_boundary, is_char_boundary_iff_not_is_continuation_byte,
    is_char_boundary_start_end_of_seq,
};

use crate::app::{lemma_kept_within, Focus, Mode, State};
use crate::app_laws::lemma_kept;
use crate::catalog::{all_positions, within};
use crate::events::{
    lemma_apps_step, lemma_categories_step, place_of, quits, text_from, text_to, toggles,
};
use crate::keys::{KeyEvent, MouseEvent};
use crate::text::lowercase;

verus! {

/// The enter key launches the chosen app and quits if there is one, and else
/// does not quit.
pub proof fn enter_launches_the_chosen_app(
    state: State,
    key: KeyEvent,
    executables: Seq<Seq<char>>,
    tick: u64,
)
    requires
        key.code is Enter,
    ensures
        state.after_key(key, executables, tick).1 <==> state.selected() is Some,
        state.selected() is Some ==> state.after_key(key, executables, tick).0.app_to_launch
            == Some(state.apps[state.selected()->0].exec_line),
        state.selected() is None ==> state.after_key(key, executables, tick).0.app_to_launch
            == state.app_to_launch,
{
}

/// A key that quits changes nothing, so that nothing is launched that was not
/// to be launched before.
pub proof fn quitting_changes_nothing(
    state: State,
    key: KeyEvent,
    executables: Seq<Seq<char>>,
    tick: u64,
)
    requires
        quits(key),
    ensures
        state.after_key(key, executables, tick) == (state, true),
{
}

/// The names of the executables matter only to the keys that show them.
pub proof fn executables_matter_where_shown(
    state: State,
    key: KeyEvent,
    executables: Seq<Seq<char>>,
    others: Seq<Seq<char>>,
    tick: u64,
)
    requires
        !state.lists_executables(key),
    ensures
        state.after_key(key, executables, tick) == state.after_key(key, others, tick),
{
}

/// A key leaves the apps, the categories, the tables and the configuration as
/// they are, unless it changes what is listed.
pub proof fn keys_leave_the_lists(
    state: State,
    key: KeyEvent,
    executables: Seq<Seq<char>>,
    tick: u64,
)
    requires
        !toggles(key),
        !key.is_control('x'),
    ensures
        state.after_key(key, executables, tick).0.shelf() == state.shelf(),
        state.after_key(key, executables, tick).0.storage == state.storage,
        state.after_key(key, executables, tick).0.mode == state.mode,
{
    let after = state.after_key(key, executables, tick).0;
    assert(after.shelf() =~= state.shelf());
}

/// The mouse leaves the apps, the categories, the tables, the configuration
/// and the query as they are.
pub proof fn the_mouse_leaves_the_lists(state: State, event: MouseEvent)
    ensures
        state.after_mouse(event).0.shelf() == state.shelf(),
        state.after_mouse(event).0.storage == state.storage,
        state.after_mouse(event).0.mode == state.mode,
        state.after_mouse(event).0.input == state.input,
{
    let focused = State { focus: Focus::Apps, ..state };
    let on_categories = State { focus: Focus::Categories, ..state };
    lemma_apps_step(focused, 3);
    lemma_categories_step(on_categories, 3);
    let after = state.after_mouse(event).0;
    assert(after.shelf() =~= state.shelf());
}

/// Moving through the apps keeps the choice in the list, and a step up undoes
/// a step down that has moved.
pub proof fn moving_keeps_the_choice_in_the_list(state: State)
    requires
        0 <= state.selected_app < state.listed().len(),
    ensures
        state.app_up().selected() is Some,
        state.app_down().selected() is Some,
        state.selected_app + 1 < state.listed().len() ==> state.app_down().app_up() == state,
        state.selected_app > 0 ==> state.app_up().app_down() == state,
{
    assert(state.app_up().shelf() =~= state.shelf());
    assert(state.app_down().shelf() =~= state.shelf());
    assert(state.app_up().listed() == state.listed());
    assert(state.app_down().listed() == state.listed());
}

/// Where steps through the apps lead: as far as asked for, but not beyond the
/// ends of the list.
pub proof fn steps_stop_at_the_ends(state: State, steps: nat)
    requires
        0 <= state.selected_app < state.listed().len(),
    ensures
        state.apps_up(steps).selected_app == if steps <= state.selected_app {
            state.selected_app - steps
        } else {
            0
        },
        state.apps_down(steps).selected_app == if state.selected_app + steps
            < state.listed().len() {
            state.selected_app + steps
        } else {
            state.listed().len() - 1
        },
    decreases steps,
{
    if steps > 0 {
        steps_stop_at_the_ends(state, (steps - 1) as nat);
        lemma_apps_step(state, (steps - 1) as nat);
        let down = state.apps_down((steps - 1) as nat);
        assert(down.shelf() =~= state.shelf());
        assert(down.listed() == state.listed());
    }
}

/// The place of a number in a list that holds no number twice.
pub proof fn lemma_place_of(s: Seq<int>, at: int)
    requires
        0 <= at < s.len(),
        s.no_duplicates(),
    ensures
        place_of(s, s[at]) == Some(at),
    decreases s.len(),
{
    let rest = s.drop_last();
    assert forall|i: int, j: int| 0 <= i < rest.len() && 0 <= j < rest.len() && i
        != j implies rest[i] != rest[j] by {
        assert(rest[i] == s[i] && rest[j] == s[j]);
    }
    if at < rest.len() {
        assert(rest[at] == s[at]);
        lemma_place_of(rest, at);
    } else {
        assert forall|i: int| 0 <= i < rest.len() implies rest[i] != s[at] by {
            assert(rest[i] == s[i]);
        }
        lemma_no_place(rest, s[at]);
    }
}

/// A number that is not in a list has no place in it.
proof fn lemma_no_place(s: Seq<int>, n: int)
    requires
        forall|i: int| 0 <= i < s.len() ==> s[i] != n,
    ensures
        place_of(s, n) is None,
    decreases s.len(),
{
    if s.len() > 0 {
        let rest = s.drop_last();
        assert forall|i: int| 0 <= i < rest.len() implies rest[i] != n by {
            assert(rest[i] == s[i]);
        }
        lemma_no_place(rest, n);
        assert(s[s.len() - 1] != n);
    }
}

/// The place of a number is where it stands.
proof fn lemma_place_holds(s: Seq<int>, n: int)
    ensures
        place_of(s, n) is Some ==> 0 <= place_of(s, n)->0 < s.len() && s[place_of(s, n)->0] == n,
    decreases s.len(),
{
    if s.len() > 0 {
        lemma_place_holds(s.drop_last(), n);
    }
}

/// No category is listed twice.
proof fn lemma_listed_categories(state: State)
    ensures
        state.listed_categories().no_duplicates(),
        within(state.listed_categories(), state.categories.len()),
{
    let all = all_positions(state.categories.len());
    let keep = state.shelf().has_match(lowercase(state.query()));
    lemma_kept(all, keep);
    lemma_kept_within(all, keep, state.categories.len());
}

/// With the keys, the category behind the last is the first, and a step up
/// undoes a step down, from every category that is listed.
pub proof fn categories_go_round(state: State)
    requires
        place_of(state.listed_categories(), state.selected_category) is Some,
    ensures
        state.category_down(true).category_up(true) == state.at_app(0),
        state.category_up(true).category_down(true) == state.at_app(0),
        place_of(
            state.listed_categories(),
            state.category_down(true).selected_category,
        ) is Some,
        place_of(state.listed_categories(), state.category_up(true).selected_category) is Some,
{
    let listed = state.listed_categories();
    let at = place_of(listed, state.selected_category)->0;
    lemma_listed_categories(state);
    lemma_place_holds(listed, state.selected_category);
    let last = listed.len() - 1;
    let below = if at + 1 < listed.len() {
        at + 1
    } else {
        0
    };
    let above = if at > 0 {
        at - 1
    } else {
        last
    };
    lemma_place_of(listed, below);
    lemma_place_of(listed, above);
    assert(listed[last] == listed.last());
    assert(state.category_down(true).shelf() =~= state.shelf());
    assert(state.category_up(true).shelf() =~= state.shelf());
    assert(state.category_down(true).listed_categories() == listed);
    assert(state.category_up(true).listed_categories() == listed);
}

/// After a change of the query the first app is chosen, and in the dual pane
/// the first category that is listed, unless none is: then all stays as it is.
pub proof fn a_new_query_chooses_the_first(state: State)
    requires
        state.mode == Mode::SinglePane || state.query().len() == 0
            || state.listed_categories().len() > 0,
    ensures
        state.reselected().selected_app == 0,
        state.mode == Mode::DualPane && state.listed_categories().len() > 0
            ==> state.reselected().selected_category == state.listed_categories()[0],
{
}

/// In the dual pane, the left and the right key undo each other.
pub proof fn left_and_right_undo_each_other(state: State)
    requires
        state.mode == Mode::DualPane,
    ensures
        state.focus == Focus::Apps ==> state.left().right() == state,
        state.focus == Focus::Categories ==> state.right().left() == state,
{
}

/// A second click on a row of the list of apps launches its app.
pub proof fn a_second_click_launches(state: State, visible_row: int)
    requires
        0 <= state.apps_offset + visible_row < state.listed().len(),
        !state.after_app_click(visible_row).1,
    ensures
        state.after_app_click(visible_row).0.after_app_click(visible_row).1,
        state.after_app_click(visible_row).0.after_app_click(visible_row).0.app_to_launch == Some(
            state.apps[state.listed()[state.apps_offset + visible_row]].exec_line,
        ),
{
    let once = state.after_app_click(visible_row).0;
    assert(once.shelf() =~= state.shelf());
    assert(once.listed() == state.listed());
}

/// A click launches exactly the app that is then chosen.
pub proof fn a_click_launches_the_chosen_app(state: State, visible_row: int)
    requires
        0 <= state.apps_offset + visible_row,
        state.after_app_click(visible_row).1,
    ensures
        state.after_app_click(visible_row).0.selected() is Some,
        state.after_app_click(visible_row).0.app_to_launch == Some(
            state.apps[state.after_app_click(visible_row).0.selected()->0].exec_line,
        ),
{
    let after = state.after_app_click(visible_row).0;
    assert(after.shelf() =~= state.shelf());
    assert(after.listed() == state.listed());
}

/// In a text of ASCII characters a cut at a byte is one at the character with
/// that number.
pub proof fn plain_text_is_cut_at_the_cursor(text: Seq<char>, at: int)
    requires
        is_ascii_chars(text),
        0 <= at <= text.len(),
    ensures
        is_char_boundary(encode_utf8(text), at),
        text_from(text, at) == text.skip(at),
        text_to(text, at) == text.take(at),
{
    let bytes = encode_utf8(text);
    is_ascii_chars_encode_utf8(text);
    lemma_plain_part(text, 0, at);
    lemma_plain_part(text, at, text.len() as int);
    assert(text.subrange(0, at) =~= text.take(at));
    assert(text.subrange(at, text.len() as int) =~= text.skip(at));
    encode_utf8_valid_utf8(text);
    if at < text.len() {
        is_char_boundary_iff_not_is_continuation_byte(bytes, at);
        assert(bytes[at] == text[at] as u8);
        let b = bytes[at];
        assert(b < 128 ==> b & 0xc0 != 0x80) by (bit_vector);
    } else {
        is_char_boundary_start_end_of_seq(bytes);
    }
}

/// Part of a text of ASCII characters has part of its bytes.
proof fn lemma_plain_part(text: Seq<char>, from: int, to: int)
    requires
        is_ascii_chars(text),
        0 <= from <= to <= text.len(),
    ensures
        decode_utf8(encode_utf8(text).subrange(from, to)) == text.subrange(from, to),
{
    let part = text.subrange(from, to);
    is_ascii_chars_encode_utf8(text);
    assert(is_ascii_chars(part)) by {
        assert forall|i: int| 0 <= i < part.len() implies 0 <= #[trigger] part[i] < 128 by {
            assert(part[i] == text[from + i]);
        }
    }
    is_ascii_chars_encode_utf8(part);
    assert(encode_utf8(text).subrange(from, to) =~= encode_utf8(part));
    encode_utf8_decode_utf8(part);
}

} // verus!
