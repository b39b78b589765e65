//! The search line: a line of text with a cursor, kept by `tui_input`.

use crossterm::event::{
    Event, KeyCode as Code, KeyEvent as Pressed, KeyEventKind as Kind, KeyModifiers as Modifiers,
};
use tui_input::backend::crossterm::EventHandler;
use tui_input::Input;
use vstd::prelude::*;

use crate::keys::{KeyCode, KeyEvent, KeyKind};

verus! {

/// The line of text of `tui_input`.
#[verifier::external_type_specification]
#[verifier::external_body]
pub struct ExInput(tui_input::Input);

/// The text of a line.
pub uninterp spec fn input_text(input: Input) -> Seq<char>;

/// The number of characters before the cursor of a line.
pub uninterp spec fn input_cursor(input: Input) -> int;

/// The line that `Input::new` makes of a text.
pub uninterp spec fn fresh_input(text: Seq<char>) -> Input;

/// The line that `Input::handle` makes of a line.
pub uninterp spec fn after_request(input: Input, request: EditRequest) -> Input;

/// The line that `EventHandler::handle_event` makes of a line.
pub uninterp spec fn after_event(input: Input, key: KeyEvent) -> Input;

/// A change of a line.
#[derive(Debug, Clone, Copy, PartialEq, Eq, Structural)]
pub enum EditRequest {
    GoToStart,
    GoToEnd,
    GoToPrevChar,
    GoToNextChar,
    DeletePrevWord,
    DeleteNextChar,
    DeletePrevChar,
}

/// What is known of a line that a request has changed. How far the cursor
/// moves by one step, and how much one step deletes, is left to `tui_input`,
/// which goes by what a reader takes for one character or word.
pub open spec fn edited(before: Input, request: EditRequest, after: Input) -> bool {
    let text = input_text(before);
    let at = input_cursor(before);
    let new_text = input_text(after);
    let new_at = input_cursor(after);
    match request {
        EditRequest::GoToStart => new_text == text && new_at == 0,
        EditRequest::GoToEnd => new_text == text && new_at == text.len(),
        EditRequest::GoToPrevChar => new_text == text && new_at <= at,
        EditRequest::GoToNextChar => new_text == text && at <= new_at,
        EditRequest::DeletePrevWord | EditRequest::DeletePrevChar => {
            &&& new_at <= at
            &&& new_text == text.take(new_at) + text.skip(at)
        },
        EditRequest::DeleteNextChar => {
            &&& new_at == at
            &&& text.len() >= new_text.len()
            &&& new_text == text.take(at) + text.skip(at + text.len() - new_text.len())
        },
    }
}

/// What is known of a line that a key has changed: a typed character goes in
/// at the cursor, the keys that edit a line do what the requests of that name
/// do, and some keys do nothing.
pub open spec fn keyed(before: Input, key: KeyEvent, after: Input) -> bool {
    &&& key.types() ==> input_text(after) == input_text(before).insert(
        input_cursor(before),
        key.code->Char_0,
    ) && input_cursor(after) == input_cursor(before) + 1
    &&& key.presses(KeyCode::Backspace) ==> after == after_request(
        before,
        EditRequest::DeletePrevChar,
    ) && edited(before, EditRequest::DeletePrevChar, after)
    &&& key.presses(KeyCode::Delete) ==> after == after_request(before, EditRequest::DeleteNextChar)
        && edited(before, EditRequest::DeleteNextChar, after)
    &&& key.presses(KeyCode::Home) ==> after == after_request(before, EditRequest::GoToStart)
        && edited(before, EditRequest::GoToStart, after)
    &&& key.presses(KeyCode::End) ==> after == after_request(before, EditRequest::GoToEnd)
        && edited(before, EditRequest::GoToEnd, after)
    &&& key.leaves_text() ==> after == before
}

/// A copy of a line, as the derived `Clone` of `tui_input::Input` makes it.
pub assume_specification[ <Input as Clone>::clone ](input: &Input) -> (r: Input)
    ensures
        r == *input,
;

/// `tui_input::Input::new`: a line with the given text and the cursor behind
/// it, which depends on the text alone.
#[verifier::external_body]
pub(crate) fn new_input(text: String) -> (r: Input)
    ensures
        r == fresh_input(text@),
        input_text(r) == text@,
        input_cursor(r) == text@.len(),
{
    Input::new(text)
}

/// `tui_input::Input::value`: the text of a line.
#[verifier::external_body]
pub(crate) fn value(input: &Input) -> (r: &str)
    ensures
        r@ == input_text(*input),
{
    input.value()
}

/// `tui_input::Input::cursor`: the number of characters before the cursor,
/// which never stands behind the end of the text.
#[verifier::external_body]
pub(crate) fn cursor(input: &Input) -> (r: usize)
    ensures
        r == input_cursor(*input),
        r <= input_text(*input).len(),
{
    input.cursor()
}

/// `tui_input::Input::handle`: the new line depends on the line and the
/// request alone.
#[verifier::external_body]
pub(crate) fn handle(input: &mut Input, request: EditRequest)
    ensures
        *final(input) == after_request(*old(input), request),
        edited(*old(input), request, *final(input)),
{
    let request = match request {
        EditRequest::GoToStart => tui_input::InputRequest::GoToStart,
        EditRequest::GoToEnd => tui_input::InputRequest::GoToEnd,
        EditRequest::GoToPrevChar => tui_input::InputRequest::GoToPrevChar,
        EditRequest::GoToNextChar => tui_input::InputRequest::GoToNextChar,
        EditRequest::DeletePrevWord => tui_input::InputRequest::DeletePrevWord,
        EditRequest::DeleteNextChar => tui_input::InputRequest::DeleteNextChar,
        EditRequest::DeletePrevChar => tui_input::InputRequest::DeletePrevChar,
    };
    let _ = input.handle(request);
}

/// `tui_input::backend::crossterm::EventHandler::handle_event` with a key: the
/// new line depends on the line and the key alone.
#[verifier::external_body]
pub(crate) fn handle_event(input: &mut Input, key: KeyEvent)
    ensures
        *final(input) == after_event(*old(input), key),
        keyed(*old(input), key, *final(input)),
{
    let code = match key.code {
        KeyCode::Char(c) => Code::Char(c),
        KeyCode::Esc => Code::Esc, KeyCode::Enter => Code::Enter, KeyCode::Tab => Code::Tab,
        KeyCode::Up => Code::Up, KeyCode::Down => Code::Down,
        KeyCode::Left => Code::Left, KeyCode::Right => Code::Right,
        KeyCode::Backspace => Code::Backspace, KeyCode::Delete => Code::Delete,
        KeyCode::Home => Code::Home, KeyCode::End => Code::End, KeyCode::Other => Code::Null,
    };
    let kind = match key.kind {
        KeyKind::Press => Kind::Press, KeyKind::Repeat => Kind::Repeat,
        KeyKind::Release => Kind::Release,
    };
    let event = Pressed::new_with_kind(code, Modifiers::from_bits_truncate(key.modifiers), kind);
    let _ = input.handle_event(&Event::Key(event));
}

} // verus!
