//! What the keys do.
use crate::ids::random_uuid;
use crate::text::{
    byte_count, byte_len, char_byte_count, char_bytes, chars_of, lemma_byte_len_part,
    lemma_byte_len_push, string_of,
};
use crate::tui::app::{
    after_accepting, after_answer, after_choosing, after_completing, after_input, menu,
    menu_closed, one_down, one_up, with_input, ActionView, AgentState, App, AppMode, AppView,
    TuiAction,
};
use vstd::prelude::*;

verus! {

/// A key.
#[derive(Debug, Clone, Copy, PartialEq, Eq, Structural)]
pub enum KeyCode {
    Enter,
    Esc,
    Up,
    Down,
    Left,
    Right,
    Home,
    End,
    Backspace,
    Delete,
    Tab,
    Char(char),
    Other,
}

/// A key that was pressed, alone or with the control key.
#[derive(Debug, Clone, Copy, PartialEq, Eq, Structural)]
pub struct KeyEvent {
    pub code: KeyCode,
    pub control: bool,
}

/// How many characters of a text begin before a place, which counts bytes.
pub open spec fn caret(text: Seq<char>, bytes: int) -> int
    decreases text.len(),
{
    if text.len() == 0 || bytes <= 0 {
        0
    } else {
        1 + caret(text.drop_first(), bytes - char_bytes(text[0]))
    }
}

/// A place lies between two characters, or at an end.
pub open spec fn boundary(text: Seq<char>, bytes: int) -> bool {
    byte_len(text.take(caret(text, bytes))) == bytes
}

/// The last boundary before a place; the beginning where there is none.
pub open spec fn boundary_before(text: Seq<char>, bytes: int) -> nat {
    let k = caret(text, bytes);
    if k == 0 {
        0
    } else {
        byte_len(text.take(k - 1))
    }
}

/// The first boundary behind a place; the end where there is none.
pub open spec fn boundary_behind(text: Seq<char>, bytes: int) -> nat {
    byte_len(text.take(caret(text, bytes + 1)))
}

/// The state after the input was edited with a key.
pub open spec fn after_edit(v: AppView, code: KeyCode) -> AppView {
    let text = v.input;
    let k = caret(text, v.cursor as int);
    match code {
        KeyCode::Backspace => if k > 0 {
            AppView {
                input: text.take(k - 1) + text.skip(k),
                cursor: byte_len(text.take(k - 1)) as usize,
                ..v
            }
        } else {
            v
        },
        KeyCode::Delete => if k < text.len() {
            AppView { input: text.take(k) + text.skip(k + 1), ..v }
        } else {
            v
        },
        KeyCode::Left => AppView {
            cursor: boundary_before(text, v.cursor as int) as usize,
            ..v
        },
        KeyCode::Right => AppView {
            cursor: boundary_behind(text, v.cursor as int) as usize,
            ..v
        },
        KeyCode::Home => AppView { cursor: 0, ..v },
        KeyCode::End => AppView { cursor: byte_len(text) as usize, ..v },
        KeyCode::Char(c) => AppView {
            input: text.take(k).push(c) + text.skip(k),
            cursor: byte_len(text.take(k).push(c)) as usize,
            ..v
        },
        _ => v,
    }
}

/// The state with the menu open at its top where a key has changed the input.
pub open spec fn reopened(v: AppView, code: KeyCode) -> AppView {
    let k = caret(v.input, v.cursor as int);
    let changes = match code {
        KeyCode::Backspace => k > 0,
        KeyCode::Delete => k < v.input.len(),
        KeyCode::Char(_) => true,
        _ => false,
    };
    if changes {
        AppView { selection: 0, dismissed: false, ..after_edit(v, code) }
    } else {
        after_edit(v, code)
    }
}

/// The state and what is wanted after a key together with the control key.
pub open spec fn after_control(v: AppView, code: KeyCode) -> (AppView, ActionView) {
    if code == KeyCode::Char('c') && v.state != AgentState::Idle {
        (v, ActionView::Cancel)
    } else if code == KeyCode::Char('c') || code == KeyCode::Char('d') {
        (AppView { quit: true, ..v }, ActionView::Quit)
    } else {
        (v, ActionView::Nothing)
    }
}

/// The state and what is wanted after a key while a model is set up.
pub open spec fn after_setup_key(v: AppView, code: KeyCode) -> (AppView, ActionView) {
    match code {
        KeyCode::Enter => match v.setup {
            Some(s) => after_answer(v, s),
            None => (v, ActionView::Nothing),
        },
        KeyCode::Esc => (menu_closed(with_input(v, Seq::empty())), ActionView::Nothing),
        _ => (after_edit(v, code), ActionView::Nothing),
    }
}

/// The state and what is wanted after a key while a model is selected.
pub open spec fn after_selection_key(v: AppView, code: KeyCode) -> (AppView, ActionView) {
    let count = v.choices.len();
    match code {
        KeyCode::Up => (
            if count == 0 {
                v
            } else {
                AppView { model_selection: one_up(v.model_selection, count), ..v }
            },
            ActionView::Nothing,
        ),
        KeyCode::Down => (
            if count == 0 {
                v
            } else {
                AppView { model_selection: one_down(v.model_selection, count), ..v }
            },
            ActionView::Nothing,
        ),
        KeyCode::Enter => after_choosing(v),
        KeyCode::Esc => (menu_closed(v), ActionView::Nothing),
        _ => (v, ActionView::Nothing),
    }
}

/// The state and what is wanted after a key while a message or a command is
/// typed; `id` is the identifier that a new message gets.
pub open spec fn after_typing_key(v: AppView, code: KeyCode, id: u128) -> (AppView, ActionView) {
    let count = menu(v).len();
    match code {
        KeyCode::Enter => match after_accepting(v, id) {
            Some(outcome) => outcome,
            None => after_input(v, id),
        },
        KeyCode::Up => (
            if count == 0 {
                v
            } else {
                AppView { selection: one_up(v.selection, count), ..v }
            },
            ActionView::Nothing,
        ),
        KeyCode::Down => (
            if count == 0 {
                v
            } else {
                AppView { selection: one_down(v.selection, count), ..v }
            },
            ActionView::Nothing,
        ),
        KeyCode::Esc => (
            if count == 0 {
                v
            } else {
                AppView { dismissed: true, ..v }
            },
            ActionView::Nothing,
        ),
        KeyCode::Tab => (after_completing(v), ActionView::Nothing),
        _ => (reopened(v, code), ActionView::Nothing),
    }
}

/// The state and what is wanted after a key; `id` is the identifier that a new
/// message gets.
pub open spec fn after_key(v: AppView, key: KeyEvent, id: u128) -> (AppView, ActionView) {
    if key.control {
        after_control(v, key.code)
    } else if v.mode == AppMode::ConfiguringModel {
        after_setup_key(v, key.code)
    } else if v.mode == AppMode::SelectingModel {
        after_selection_key(v, key.code)
    } else {
        after_typing_key(v, key.code, id)
    }
}

/// The cursor stands between two characters of the input, or at an end.
pub open spec fn cursor_fits(v: AppView) -> bool {
    boundary(v.input, v.cursor as int)
}

pub proof fn lemma_caret_range(text: Seq<char>, bytes: int)
    ensures
        0 <= caret(text, bytes) <= text.len(),
        bytes >= byte_len(text) ==> caret(text, bytes) == text.len(),
    decreases text.len(),
{
    if text.len() > 0 {
        if bytes > 0 {
            lemma_caret_range(text.drop_first(), bytes - char_bytes(text[0]));
        }
    }
}

/// A boundary is the beginning of the character that its caret names.
pub proof fn lemma_caret_of_boundary(text: Seq<char>, k: int)
    requires
        0 <= k <= text.len(),
    ensures
        caret(text, byte_len(text.take(k)) as int) == k,
        boundary(text, byte_len(text.take(k)) as int),
    decreases k,
{
    if k > 0 {
        let rest = text.drop_first();
        lemma_caret_of_boundary(rest, k - 1);
        assert(text.take(k).drop_first() =~= rest.take(k - 1));
        assert(text.take(k)[0] == text[0]);
    }
}

/// One byte behind a boundary, the next character has begun.
proof fn lemma_caret_behind(text: Seq<char>, k: int)
    requires
        0 <= k <= text.len(),
    ensures
        caret(text, byte_len(text.take(k)) as int + 1) == (if k < text.len() {
            k + 1
        } else {
            k
        }),
    decreases k,
{
    if k > 0 {
        let rest = text.drop_first();
        lemma_caret_behind(rest, k - 1);
        assert(text.take(k).drop_first() =~= rest.take(k - 1));
        assert(text.take(k)[0] == text[0]);
    } else if text.len() > 0 {
        assert(text.take(0) =~= Seq::<char>::empty());
        assert(byte_len(text.take(0)) == 0);
        assert(caret(text.drop_first(), 1 - char_bytes(text[0])) == 0);
    } else {
        assert(text.take(0) =~= Seq::<char>::empty());
    }
}

/// An editing key leaves the cursor between two characters, or at an end.
pub proof fn editing_keeps_the_cursor_in_place(v: AppView, code: KeyCode)
    requires
        cursor_fits(v),
        byte_len(after_edit(v, code).input) <= usize::MAX,
        byte_len(v.input) <= usize::MAX,
    ensures
        cursor_fits(after_edit(v, code)),
{
    if let KeyCode::Char(c) = code {
        let text = v.input;
        let k = caret(text, v.cursor as int);
        let next = after_edit(v, code);
        lemma_caret_range(text, v.cursor as int);
        assert(next.input.take(k + 1) =~= text.take(k).push(c));
        lemma_byte_len_part(next.input, k + 1);
    }
    lemma_edit_fits(v, code);
}

proof fn lemma_edit_fits(v: AppView, code: KeyCode)
    requires
        cursor_fits(v),
        byte_len(v.input) <= usize::MAX,
        code matches KeyCode::Char(c) ==> byte_len(
            v.input.take(caret(v.input, v.cursor as int)).push(c),
        ) <= usize::MAX,
    ensures
        cursor_fits(after_edit(v, code)),
{
    let text = v.input;
    let k = caret(text, v.cursor as int);
    lemma_caret_range(text, v.cursor as int);
    let next = after_edit(v, code);
    match code {
        KeyCode::Backspace => {
            if k > 0 {
                lemma_byte_len_part(text, k - 1);
                assert(next.input.take(k - 1) =~= text.take(k - 1));
                lemma_caret_of_boundary(next.input, k - 1);
            }
        },
        KeyCode::Delete => {
            if k < text.len() {
                assert(next.input.take(k) =~= text.take(k));
                lemma_caret_of_boundary(next.input, k);
            }
        },
        KeyCode::Left => {
            if k > 0 {
                lemma_byte_len_part(text, k - 1);
                lemma_caret_of_boundary(text, k - 1);
            } else {
                lemma_caret_of_boundary(text, 0);
                assert(text.take(0) =~= Seq::<char>::empty());
            }
        },
        KeyCode::Right => {
            lemma_caret_range(text, v.cursor + 1);
            lemma_byte_len_part(text, caret(text, v.cursor + 1));
            lemma_caret_of_boundary(text, caret(text, v.cursor + 1));
        },
        KeyCode::Home => {
            lemma_caret_of_boundary(text, 0);
            assert(text.take(0) =~= Seq::<char>::empty());
        },
        KeyCode::End => {
            lemma_caret_of_boundary(text, text.len() as int);
            assert(text.take(text.len() as int) =~= text);
        },
        KeyCode::Char(c) => {
            assert(next.input.take(k + 1) =~= text.take(k).push(c));
            lemma_caret_of_boundary(next.input, k + 1);
        },
        _ => {},
    }
}

/// A character that is typed and taken back at once leaves the input and the
/// cursor as they were.
pub proof fn a_typed_character_is_taken_back(v: AppView, c: char)
    requires
        cursor_fits(v),
        byte_len(after_edit(v, KeyCode::Char(c)).input) <= usize::MAX,
    ensures
        after_edit(after_edit(v, KeyCode::Char(c)), KeyCode::Backspace) == v,
{
    let text = v.input;
    let k = caret(text, v.cursor as int);
    lemma_caret_range(text, v.cursor as int);
    let typed = after_edit(v, KeyCode::Char(c));
    assert(typed.input.take(k + 1) =~= text.take(k).push(c));
    lemma_byte_len_part(typed.input, k + 1);
    lemma_caret_of_boundary(typed.input, k + 1);
    assert(typed.input.take(k) =~= text.take(k));
    assert(typed.input.skip(k + 1) =~= text.skip(k));
    assert(text.take(k) + text.skip(k) =~= text);
}

/// Moving right and back left leaves the cursor where it was, except at the
/// end.
pub proof fn right_and_left_cancel_out(v: AppView)
    requires
        cursor_fits(v),
        byte_len(v.input) <= usize::MAX,
        v.cursor < byte_len(v.input),
    ensures
        after_edit(after_edit(v, KeyCode::Right), KeyCode::Left) == v,
{
    let text = v.input;
    let k = caret(text, v.cursor as int);
    lemma_caret_range(text, v.cursor as int);
    lemma_caret_behind(text, k);
    assert(text.take(text.len() as int) =~= text);
    assert(k < text.len());
    lemma_byte_len_part(text, k + 1);
    lemma_caret_of_boundary(text, k + 1);
}

/// The boundary before another is the nearest one, and the boundary behind it
/// is the other again.
pub proof fn boundaries_are_neighbours(text: Seq<char>, position: int)
    requires
        0 <= position <= byte_len(text),
        boundary(text, position),
    ensures
        position == 0 ==> boundary_before(text, position) == 0,
        position > 0 ==> {
            let before = boundary_before(text, position) as int;
            &&& before < position
            &&& boundary(text, before)
            &&& forall|p: int| before < p < position ==> !(#[trigger] boundary(text, p))
            &&& boundary_behind(text, before) == position
        },
{
    let k = caret(text, position);
    lemma_caret_range(text, position);
    if position > 0 {
        assert(text.take(0) =~= Seq::<char>::empty());
        let before = boundary_before(text, position) as int;
        lemma_caret_of_boundary(text, k - 1);
        lemma_caret_behind(text, k - 1);
        assert(text.take(k) =~= text.take(k - 1).push(text[k - 1]));
        lemma_byte_len_push(text.take(k - 1), text[k - 1]);
        assert forall|p: int| before < p < position implies !(#[trigger] boundary(text, p)) by {
            if boundary(text, p) {
                let j = caret(text, p);
                lemma_caret_range(text, p);
                if j < k {
                    assert(text.take(k - 1).take(j) =~= text.take(j));
                    lemma_byte_len_part(text.take(k - 1), j);
                } else {
                    assert(text.take(j).take(k) =~= text.take(k));
                    lemma_byte_len_part(text.take(j), k);
                }
            }
        }
    }
}

/// How many characters of a text begin before a place.
pub fn caret_of(text: &str, chars: &Vec<char>, bytes: usize) -> (r: usize)
    requires
        chars@ == text@,
    ensures
        r == caret(text@, bytes as int),
        r <= chars@.len(),
        byte_len(text@) <= usize::MAX,
{
    let total: usize = byte_count(text);
    let ghost all = text@;
    let mut passed: usize = 0;
    let mut i: usize = 0;
    proof {
        assert(all.skip(0) =~= all);
        assert(all.take(0) =~= Seq::<char>::empty());
    }
    while i < chars.len() && passed < bytes
        invariant
            i <= chars.len(),
            chars@ == all,
            total == byte_len(all),
            passed == byte_len(all.take(i as int)),
            caret(all, bytes as int) == i + caret(all.skip(i as int), bytes - passed),
        decreases chars.len() - i,
    {
        proof {
            assert(all.take(i + 1) =~= all.take(i as int).push(all[i as int]));
            lemma_byte_len_push(all.take(i as int), all[i as int]);
            lemma_byte_len_part(all, i + 1);
            assert(all.skip(i as int).drop_first() =~= all.skip(i + 1));
        }
        passed = passed + char_byte_count(chars[i]);
        i += 1;
    }
    i
}

/// How many bytes stand before a character.
fn bytes_before(chars: &Vec<char>, k: usize) -> (r: usize)
    requires
        k <= chars@.len(),
    ensures
        r == byte_len(chars@.take(k as int)),
{
    let before = string_of(chars, 0, k);
    assert(chars@.subrange(0, k as int) =~= chars@.take(k as int));
    byte_count(before.as_str())
}

/// The last boundary before a place; the beginning where there is none.
pub fn prev_char_boundary(value: &str, position: usize) -> (r: usize)
    ensures
        r == boundary_before(value@, position as int),
{
    let chars = chars_of(value);
    let k: usize = caret_of(value, &chars, position);
    if k == 0 {
        return 0;
    }
    bytes_before(&chars, k - 1)
}

/// The first boundary behind a place; the end where there is none.
pub fn next_char_boundary(value: &str, position: usize) -> (r: usize)
    ensures
        r == boundary_behind(value@, position as int),
{
    let chars = chars_of(value);
    if position == usize::MAX {
        proof {
            lemma_caret_range(value@, position + 1);
            assert(value@.take(value@.len() as int) =~= value@);
        }
        let total: usize = byte_count(value);
        return total;
    }
    let k: usize = caret_of(value, &chars, position + 1);
    bytes_before(&chars, k)
}

/// Edits the input with a key.
fn handle_editing_key(code: KeyCode, app: &mut App) -> (r: TuiAction)
    requires
        cursor_fits(old(app)@),
    ensures
        (final(app)@, r@) == (after_edit(old(app)@, code), ActionView::Nothing),
        cursor_fits(final(app)@),
{
    let ghost v = app@;
    let chars = chars_of(app.input.as_str());
    let k: usize = caret_of(app.input.as_str(), &chars, app.cursor_position);
    let ghost all = chars@;
    match code {
        KeyCode::Backspace => {
            if k > 0 {
                let start: usize = prev_char_boundary(app.input.as_str(), app.cursor_position);
                let mut input = string_of(&chars, 0, k - 1);
                let tail = string_of(&chars, k, chars.len());
                input.append(tail.as_str());
                app.input = input;
                app.cursor_position = start;
                assert(app@.input =~= after_edit(v, code).input);
            }
        },
        KeyCode::Delete => {
            if k < chars.len() {
                let mut input = string_of(&chars, 0, k);
                let tail = string_of(&chars, k + 1, chars.len());
                input.append(tail.as_str());
                app.input = input;
                assert(app@.input =~= after_edit(v, code).input);
            }
        },
        KeyCode::Left => {
            app.cursor_position = prev_char_boundary(app.input.as_str(), app.cursor_position);
        },
        KeyCode::Right => {
            app.cursor_position = next_char_boundary(app.input.as_str(), app.cursor_position);
        },
        KeyCode::Home => {
            app.cursor_position = 0;
        },
        KeyCode::End => {
            app.cursor_position = byte_count(app.input.as_str());
        },
        KeyCode::Char(c) => {
            let mut input = string_of(&chars, 0, k);
            input.push(c);
            let cursor: usize = byte_count(input.as_str());
            let tail = string_of(&chars, k, chars.len());
            input.append(tail.as_str());
            assert(all.subrange(0, k as int) =~= all.take(k as int));
            app.input = input;
            app.cursor_position = cursor;
            assert(app@.input =~= after_edit(v, code).input);
        },
        _ => {},
    }
    assert(app@ =~= after_edit(v, code));
    proof {
        lemma_edit_fits(v, code);
    }
    TuiAction::Nothing
}

/// The cursor fits at the end of an input, and at its places only.
proof fn lemma_places(v: AppView)
    requires
        cursor_fits(v),
    ensures
        caret(v.input, v.cursor as int) > 0 <==> v.cursor > 0,
        caret(v.input, v.cursor as int) < v.input.len() <==> v.cursor < byte_len(v.input),
{
    let k = caret(v.input, v.cursor as int);
    lemma_caret_range(v.input, v.cursor as int);
    lemma_byte_len_part(v.input, k);
    assert(v.input.take(v.input.len() as int) =~= v.input);
    if k == 0 {
        assert(v.input.take(0) =~= Seq::<char>::empty());
    }
    if k < v.input.len() {
        assert(v.input.skip(k)[0] == v.input[k]);
    }
}

/// The cursor fits behind an input.
proof fn lemma_end_fits(text: Seq<char>)
    ensures
        boundary(text, byte_len(text) as int),
{
    lemma_caret_of_boundary(text, text.len() as int);
    assert(text.take(text.len() as int) =~= text);
}

/// What a key does together with the control key.
fn handle_control_key(code: KeyCode, app: &mut App) -> (r: TuiAction)
    ensures
        (final(app)@, r@) == after_control(old(app)@, code),
{
    match code {
        KeyCode::Char(c) => {
            if c == 'c' && app.agent_state != AgentState::Idle {
                return TuiAction::Cancel;
            }
            if c == 'c' || c == 'd' {
                app.should_quit = true;
                return TuiAction::Quit;
            }
            TuiAction::Nothing
        },
        _ => TuiAction::Nothing,
    }
}

/// What a key does: what is wanted then.
pub fn handle_key_event(key: KeyEvent, app: &mut App) -> (r: TuiAction)
    requires
        cursor_fits(old(app)@),
    ensures
        exists|id: u128| #[trigger] after_key(old(app)@, key, id) == (final(app)@, r@),
        cursor_fits(final(app)@),
{
    let id: u128 = random_uuid();
    let action = handle_key_event_as(key, app, id);
    assert(after_key(old(app)@, key, id) == (app@, action@));
    action
}

/// What a key does, with a given identifier for a new message.
pub fn handle_key_event_as(key: KeyEvent, app: &mut App, id: u128) -> (r: TuiAction)
    requires
        cursor_fits(old(app)@),
    ensures
        after_key(old(app)@, key, id) == (final(app)@, r@),
        cursor_fits(final(app)@),
{
    let ghost v = app@;
    if key.control {
        return handle_control_key(key.code, app);
    }
    proof {
        lemma_places(v);
        lemma_end_fits(Seq::empty());
    }
    if app.mode == AppMode::ConfiguringModel {
        return match key.code {
            KeyCode::Enter => app.submit_model_setup_input(),
            KeyCode::Esc => {
                app.cancel_model_setup();
                TuiAction::Nothing
            },
            _ => handle_editing_key(key.code, app),
        };
    }
    if app.mode == AppMode::SelectingModel {
        return match key.code {
            KeyCode::Up => {
                app.select_previous_model();
                TuiAction::Nothing
            },
            KeyCode::Down => {
                app.select_next_model();
                TuiAction::Nothing
            },
            KeyCode::Enter => app.accept_selected_model(),
            KeyCode::Esc => {
                app.close_model_menu();
                TuiAction::Nothing
            },
            _ => TuiAction::Nothing,
        };
    }
    match key.code {
        KeyCode::Enter => match app.accept_selected_command_as(id) {
            Some(action) => {
                proof {
                    lemma_end_fits(app@.input);
                }
                action
            },
            None => app.submit_input_as(id),
        },
        KeyCode::Up => {
            let _shown = app.select_previous_command();
            TuiAction::Nothing
        },
        KeyCode::Down => {
            let _shown = app.select_next_command();
            TuiAction::Nothing
        },
        KeyCode::Esc => {
            let _shown = app.dismiss_command_menu();
            TuiAction::Nothing
        },
        KeyCode::Tab => {
            app.complete_selected_command();
            proof {
                lemma_end_fits(app@.input);
            }
            TuiAction::Nothing
        },
        KeyCode::Backspace => {
            let changes = app.cursor_position > 0;
            let action = handle_editing_key(key.code, app);
            if changes {
                app.input_changed();
            }
            action
        },
        KeyCode::Delete => {
            let changes = app.cursor_position < byte_count(app.input.as_str());
            let action = handle_editing_key(key.code, app);
            if changes {
                app.input_changed();
            }
            action
        },
        KeyCode::Char(_) => {
            let action = handle_editing_key(key.code, app);
            app.input_changed();
            action
        },
        _ => handle_editing_key(key.code, app),
    }
}

} // verus!
