//! What holds of what the interface lists, offers and lets go.
use crate::agent::runtime::is_active;
use crate::ids::hyphenated;
use crate::model::{default_of, name_of, ModelStatus};
use crate::paths::place;
use crate::pieces::{
    joined_parts_stand_in_order, lemma_behind, lemma_both, lemma_itself, lemma_more, lemma_within,
    stand_in_order,
};
use crate::seqs::picked;
use crate::session::model::{SkillView, SummaryView};
use crate::skills::{source_name, SkillInfoView};
use crate::text::{
    begins, char_bytes, decimal, first, joined, number, padded, padded_left, repeated,
};
use crate::tui::app::{
    ActionView, AppMode, AppView, ChoiceView, DecisionView, MessageKind, MessageView,
};
use crate::tui::command::{is_offered, offered, CommandScope, CommandView};
use crate::tui::event::{after_edit, caret, cursor_fits, KeyCode};
use crate::tui::host::{
    after_action, after_decision, status_in, status_label, EffectView, WorkersView,
};
use crate::tui::listing::{
    catalog_choices, offered_ids, project_line, project_list_text, session_line, session_list_text,
    skill_line, skill_list_text, target_of, TargetView, SESSION_ID_SHOWN,
};
use crate::tui::style::LineView;
use crate::tui::transcript::{flush_all, flush_one, progress, RuntimeView};
use crate::tui::ui::{body_lines, shown_message, text_lines, TOOL_MESSAGE_MAX_LINES};
use vstd::prelude::*;

verus! {

/// A key changes one character of the line, at the cursor: what is typed comes in there,
/// backspace takes out the one before it and delete the one behind it. Every other
/// key leaves the text as it is.
pub proof fn a_key_changes_one_character(v: AppView, code: KeyCode)
    requires
        cursor_fits(v),
    ensures
        ({
            let k = caret(v.input, v.cursor as int);
            let n = after_edit(v, code).input;
            match code {
                KeyCode::Char(c) => {
                    &&& n.len() == v.input.len() + 1
                    &&& 0 <= k <= v.input.len()
                    &&& n[k] == c
                    &&& n.take(k) == v.input.take(k)
                    &&& n.skip(k + 1) == v.input.skip(k)
                },
                KeyCode::Backspace => {
                    &&& k == 0 ==> n == v.input
                    &&& k > 0 ==> n.len() == v.input.len() - 1 && n.take(k - 1) == v.input.take(
                        k - 1,
                    ) && n.skip(k - 1) == v.input.skip(k)
                },
                KeyCode::Delete => {
                    &&& k >= v.input.len() ==> n == v.input
                    &&& k < v.input.len() ==> n.len() == v.input.len() - 1 && n.take(k)
                        == v.input.take(k) && n.skip(k) == v.input.skip(k + 1)
                },
                _ => n == v.input,
            }
        }),
{
    let k = caret(v.input, v.cursor as int);
    lemma_caret(v.input, v.cursor as int);
    let n = after_edit(v, code).input;
    match code {
        KeyCode::Char(c) => {
            assert(n.take(k) =~= v.input.take(k));
            assert(n.skip(k + 1) =~= v.input.skip(k));
        },
        KeyCode::Backspace => {
            if k > 0 {
                assert(n.take(k - 1) =~= v.input.take(k - 1));
                assert(n.skip(k - 1) =~= v.input.skip(k));
            }
        },
        KeyCode::Delete => {
            if k < v.input.len() {
                assert(n.take(k) =~= v.input.take(k));
                assert(n.skip(k) =~= v.input.skip(k + 1));
            }
        },
        _ => {},
    }
}

proof fn lemma_caret(text: Seq<char>, bytes: int)
    ensures
        0 <= caret(text, bytes) <= text.len(),
    decreases text.len(),
{
    if text.len() > 0 && bytes > 0 {
        lemma_caret(text.drop_first(), bytes - char_bytes(text[0]));
    }
}

/// The commands of a list that are offered are, in its order, those whose name begins
/// with what was typed: all of them, but those that answer a question only while there
/// is one.
pub proof fn every_command_that_fits_is_offered(
    list: Seq<CommandView>,
    prefix: Seq<char>,
    mode: AppMode,
) -> (places: Seq<int>)
    ensures
        picked(list, offered(list, prefix, mode), places),
        forall|k: int|
            0 <= k < list.len() && begins(list[k].name, prefix) && (list[k].scope
                == CommandScope::Always || mode == AppMode::Confirming)
                <==> #[trigger] places.contains(k),
    decreases list.len(),
{
    if list.len() == 0 {
        Seq::empty()
    } else {
        let t = list.drop_last();
        let before = every_command_that_fits_is_offered(t, prefix, mode);
        let n = list.len() - 1;
        assert(list[n] == list.last());
        let places = if is_offered(list.last(), prefix, mode) {
            before.push(n)
        } else {
            before
        };
        assert forall|k: int|
            0 <= k < list.len() && begins(list[k].name, prefix) && (list[k].scope
                == CommandScope::Always || mode == AppMode::Confirming)
                <==> #[trigger] places.contains(k) by {
            if k == n {
                if is_offered(list.last(), prefix, mode) {
                    assert(places[places.len() - 1] == n);
                } else if places.contains(k) {
                    let i = choose|i: int| 0 <= i < before.len() && before[i] == k;
                    assert(before.contains(k));
                }
            } else {
                assert(places.contains(k) <==> before.contains(k)) by {
                    if before.contains(k) {
                        let i = choose|i: int| 0 <= i < before.len() && before[i] == k;
                        assert(places[i] == k);
                    }
                    if places.contains(k) {
                        let i = choose|i: int| 0 <= i < places.len() && places[i] == k;
                        assert(before[i] == k);
                    }
                }
                if 0 <= k < n {
                    assert(t[k] == list[k]);
                }
            }
        }
        assert forall|i: int, j: int| 0 <= i < j < places.len() implies (
        #[trigger] places[i]) < (#[trigger] places[j]) by {
            if j == before.len() {
                assert(0 <= before[i] < t.len());
            }
        }
        places
    }
}

/// An answer to a question goes to the agent as it was given, once, and only to the
/// question that is shown; without an open question nothing is sent.
pub proof fn an_answer_goes_to_the_open_question(h: WorkersView, v: AppView, decision: DecisionView)
    ensures
        ({
            let (n, w, effect) = after_decision(h, v, decision);
            let fits = h.open_request is Some && (v.pending is None || v.pending->0.request_id
                == h.open_request->0);
            &&& fits ==> effect == EffectView::Answer(decision) && n.open_request is None
            &&& !fits ==> effect == EffectView::Nothing && n == h
            &&& after_action(h, v, ActionView::Approval(decision)) == (n, w, effect)
            &&& n.workers == h.workers && n.active == h.active && n.waiting == h.waiting
            &&& w.messages == v.messages
        }),
{
}

/// A task, a change of model or of session, and every other request to the agent is
/// handed on as it is.
pub proof fn a_request_is_handed_on(h: WorkersView, v: AppView, action: ActionView)
    requires
        action is Submit || action is SwitchModel || action is ResumeSession || action
            is RenameSession || action is Branch || action is ConfigureModel || action is Cancel
            || action is Reset || action is Compact || action is Retry || action is NewSession,
    ensures
        after_action(h, v, action).2 == EffectView::Send(action),
        after_action(h, v, action).0 == h,
        after_action(h, v, action).1.messages == v.messages,
{
}

/// A whole message that has not left the interface leaves it with all its lines, in
/// order, but those that left while it was coming in; and a message that has left
/// leaves no line again.
pub proof fn every_line_leaves_once(r: RuntimeView, m: MessageView, width: usize)
    requires
        !m.is_streaming,
    ensures
        ({
            let s = progress(r, m.id, width);
            let lines = shown_message(m, s.render_width);
            let (n, out) = flush_one(r, m, width);
            &&& r.rendered.contains(m.id) ==> out.len() == 0
            &&& !r.rendered.contains(m.id) && s.committed_lines <= lines.len() ==> out
                == lines.skip(s.committed_lines as int)
            &&& n.rendered.contains(m.id)
        }),
{
    let s = progress(r, m.id, width);
    let lines = shown_message(m, s.render_width);
    let (n, out) = flush_one(r, m, width);
    if !r.rendered.contains(m.id) {
        assert(n.rendered.last() == m.id);
        if s.committed_lines <= lines.len() {
            assert(out =~= lines.skip(s.committed_lines as int));
        }
    }
}

/// The lines of some messages leave in the order of the messages.
pub proof fn messages_leave_in_order(
    r: RuntimeView,
    a: Seq<MessageView>,
    b: Seq<MessageView>,
    width: usize,
)
    ensures
        ({
            let first = flush_all(r, a, width);
            let second = flush_all(first.0, b, width);
            flush_all(r, a + b, width) == (second.0, first.1 + second.1)
        }),
    decreases b.len(),
{
    let first = flush_all(r, a, width);
    if b.len() == 0 {
        assert(a + b =~= a);
        assert(first.1 + Seq::<LineView>::empty() =~= first.1);
    } else {
        messages_leave_in_order(r, a, b.drop_last(), width);
        assert((a + b).drop_last() =~= a + b.drop_last());
        assert((a + b).last() == b.last());
        let second = flush_all(first.0, b, width);
        assert(flush_all(r, a + b, width).1 =~= first.1 + second.1);
    }
}

/// A project is named by its place in the list, counted from one, or by its path.
pub proof fn a_project_is_named_by_place_or_path(
    target: Seq<char>,
    list: Seq<SummaryView>,
    home: Option<Seq<char>>,
)
    ensures
        number(target, usize::MAX as nat) matches Some(index) ==> {
            &&& 1 <= index <= list.len() ==> target_of(target, list, home) == Ok::<
                TargetView,
                Seq<char>,
            >(TargetView::Listed(list[index - 1].workspace))
            &&& !(1 <= index <= list.len()) ==> target_of(target, list, home) is Err
        },
        number(target, usize::MAX as nat) is None && !begins(target, "~/"@) ==> target_of(
            target,
            list,
            home,
        ) == Ok::<TargetView, Seq<char>>(TargetView::Path(target)),
{
}

proof fn lemma_padded(s: Seq<char>, width: nat)
    ensures
        stand_in_order(padded(s, width), seq![s]),
        stand_in_order(padded_left(s, width), seq![s]),
{
    let none = Seq::<char>::empty();
    lemma_itself(s);
    if s.len() < width {
        let gap = repeated(seq![' '], (width - s.len()) as nat);
        lemma_within(none, s, gap);
        lemma_within(gap, s, none);
        assert(none + s + gap =~= padded(s, width));
        assert(gap + s + none =~= padded_left(s, width));
    }
}

/// The list of sessions has a line for each session, in order, with how its identifier
/// begins, how many turns it completed and its whole title.
pub proof fn every_session_has_its_line(list: Seq<SummaryView>)
    requires
        list.len() > 0,
    ensures
        exists|rows: Seq<Seq<char>>|
            {
                &&& #[trigger] stand_in_order(session_list_text(list), rows)
                &&& rows.len() == list.len() + 1
                &&& forall|i: int|
                    0 <= i < list.len() ==> stand_in_order(
                        rows[i + 1],
                        seq![
                            first(
                                hyphenated((#[trigger] list[i]).session_id.0),
                                SESSION_ID_SHOWN as nat,
                            ),
                            decimal(list[i].completed_turns as nat),
                            list[i].title,
                        ],
                    )
            },
{
    let rows = seq!["Sessions:"@] + list.map_values(|s: SummaryView| session_line(s));
    joined_parts_stand_in_order(rows, "\n"@);
    assert(stand_in_order(session_list_text(list), rows)) by {
        assert(session_list_text(list) == joined(rows, "\n"@));
    }
    assert forall|i: int| 0 <= i < list.len() implies stand_in_order(
        rows[i + 1],
        seq![
            first(hyphenated((#[trigger] list[i]).session_id.0), SESSION_ID_SHOWN as nat),
            decimal(list[i].completed_turns as nat),
            list[i].title,
        ],
    ) by {
        let s = list[i];
        let id = first(hyphenated(s.session_id.0), SESSION_ID_SHOWN as nat);
        let turns = decimal(s.completed_turns as nat);
        lemma_itself(id);
        lemma_more(id, seq![id], "  "@);
        lemma_padded(turns, 3);
        lemma_more(padded_left(turns, 3), seq![turns], " turns  "@);
        let a = id + "  "@;
        let b = padded_left(turns, 3) + " turns  "@;
        lemma_both(a, seq![id], b, seq![turns]);
        lemma_itself(s.title);
        lemma_both(a + b, seq![id] + seq![turns], s.title, seq![s.title]);
        assert(seq![id] + seq![turns] + seq![s.title] =~= seq![id, turns, s.title]);
        assert(a + b + s.title =~= session_line(s));
        assert(rows[i + 1] == session_line(s));
    }
}

/// The list of projects has a line for each project, in order and numbered from one, with
/// its whole path.
pub proof fn every_project_has_its_line(h: WorkersView, list: Seq<SummaryView>)
    requires
        list.len() > 0,
    ensures
        exists|rows: Seq<Seq<char>>|
            {
                &&& #[trigger] stand_in_order(project_list_text(h, list), rows)
                &&& rows.len() == list.len() + 2
                &&& forall|i: int|
                    0 <= i < list.len() ==> stand_in_order(
                        rows[i + 1],
                        seq![decimal((i + 1) as nat), (#[trigger] list[i]).workspace],
                    )
            },
{
    let rows = (seq!["Projects:"@] + Seq::new(
        list.len(),
        |i: int| project_line(h, list[i], (i + 1) as nat),
    )).push("Use /project <index|path> to switch."@);
    joined_parts_stand_in_order(rows, "\n"@);
    assert(stand_in_order(project_list_text(h, list), rows)) by {
        assert(project_list_text(h, list) == joined(rows, "\n"@));
    }
    assert forall|i: int| 0 <= i < list.len() implies stand_in_order(
        rows[i + 1],
        seq![decimal((i + 1) as nat), (#[trigger] list[i]).workspace],
    ) by {
        lemma_project_line(h, list[i], (i + 1) as nat);
        assert(rows[i + 1] == project_line(h, list[i], (i + 1) as nat));
    }
}

proof fn lemma_project_line(h: WorkersView, s: SummaryView, index: nat)
    ensures
        stand_in_order(project_line(h, s, index), seq![decimal(index), s.workspace]),
{
    let mark = if place(s.workspace) == place(h.active) {
        "*"@
    } else {
        " "@
    };
    let state = padded(
        match status_in(h.workers, s.workspace) {
            Some(status) => status_label(status),
            None => "stopped"@,
        },
        16,
    );
    let number = padded_left(decimal(index), 2);
    lemma_padded(decimal(index), 2);
    lemma_row(mark, " "@, number, ". ["@, state, "] "@, s.workspace, decimal(index));
    assert(project_line(h, s, index) == mark + " "@ + number + ". ["@ + state + "] "@
        + s.workspace);
}

proof fn lemma_row(
    mark: Seq<char>,
    space: Seq<char>,
    number: Seq<char>,
    open: Seq<char>,
    state: Seq<char>,
    close: Seq<char>,
    path: Seq<char>,
    index: Seq<char>,
)
    requires
        stand_in_order(number, seq![index]),
    ensures
        stand_in_order(
            mark + space + number + open + state + close + path,
            seq![index, path],
        ),
{
    lemma_behind(mark + space, number, seq![index]);
    lemma_more(mark + space + number, seq![index], open);
    lemma_more(mark + space + number + open, seq![index], state);
    lemma_more(mark + space + number + open + state, seq![index], close);
    lemma_itself(path);
    lemma_both(mark + space + number + open + state + close, seq![index], path, seq![path]);
    assert(seq![index] + seq![path] =~= seq![index, path]);
}

/// The list of Skills has a line for each Skill, in order, with its name, its source and
/// its whole description, and behind them every warning.
pub proof fn every_skill_has_its_line(
    skills: Seq<SkillInfoView>,
    active: Seq<SkillView>,
    warnings: Seq<Seq<char>>,
)
    requires
        skills.len() > 0,
    ensures
        exists|rows: Seq<Seq<char>>|
            {
                &&& #[trigger] stand_in_order(
                    skill_list_text(skills, active, warnings),
                    rows + warnings,
                )
                &&& rows.len() == skills.len()
                &&& forall|i: int|
                    0 <= i < skills.len() ==> stand_in_order(
                        rows[i],
                        seq![
                            (#[trigger] skills[i]).name,
                            source_name(skills[i].source),
                            skills[i].description,
                        ],
                    )
            },
{
    let rows = skills.map_values(|s: SkillInfoView| skill_line(s, active));
    let listed = joined(rows, "\n"@);
    joined_parts_stand_in_order(rows, "\n"@);
    if warnings.len() == 0 {
        assert(rows + warnings =~= rows);
        assert(stand_in_order(skill_list_text(skills, active, warnings), rows + warnings));
    } else {
        joined_parts_stand_in_order(warnings, "\n"@);
        lemma_more(listed, rows, "\n\nWarnings:\n"@);
        lemma_both(
            listed + "\n\nWarnings:\n"@,
            rows,
            joined(warnings, "\n"@),
            warnings,
        );
        assert(stand_in_order(skill_list_text(skills, active, warnings), rows + warnings));
    }
    assert forall|i: int| 0 <= i < skills.len() implies stand_in_order(
        rows[i],
        seq![
            (#[trigger] skills[i]).name,
            source_name(skills[i].source),
            skills[i].description,
        ],
    ) by {
        let s = skills[i];
        let none = Seq::<char>::empty();
        let mark = (if is_active(active, s.name) {
            "*"@
        } else {
            " "@
        }) + " "@;
        let source = source_name(s.source);
        lemma_padded(s.name, 24);
        lemma_behind(mark, padded(s.name, 24), seq![s.name]);
        lemma_within(" ["@, source, "] "@);
        let a = mark + padded(s.name, 24);
        let b = " ["@ + source + "] "@;
        lemma_both(a, seq![s.name], b, seq![source]);
        lemma_itself(s.description);
        lemma_both(a + b, seq![s.name] + seq![source], s.description, seq![s.description]);
        assert(seq![s.name] + seq![source] + seq![s.description] =~= seq![
            s.name,
            source,
            s.description,
        ]);
        assert(a + b + s.description =~= skill_line(s, active));
    }
}

/// Of a service that one is logged in to every listed model can be chosen, and else its
/// default model; a choice is the current one exactly where it is the session's.
pub proof fn every_listed_model_can_be_chosen(
    statuses: Seq<ModelStatus>,
    listed: Seq<Seq<Seq<char>>>,
    model: Seq<char>,
    model_id: Seq<char>,
    i: int,
    id: Seq<char>,
)
    requires
        0 <= i < statuses.len(),
        if statuses[i].logged_in && listed[i].len() > 0 {
            listed[i].contains(id)
        } else {
            id == default_of(statuses[i].model)
        },
    ensures
        catalog_choices(statuses, listed, model, model_id).contains(
            (ChoiceView {
                model: name_of(statuses[i].model),
                model_id: id,
                current: model == name_of(statuses[i].model) && model_id == id,
            }),
        ),
    decreases statuses.len(),
{
    let c = ChoiceView {
        model: name_of(statuses[i].model),
        model_id: id,
        current: model == name_of(statuses[i].model) && model_id == id,
    };
    let all = catalog_choices(statuses, listed, model, model_id);
    let t = statuses.drop_last();
    let before = catalog_choices(t, listed, model, model_id);
    if i < t.len() {
        assert(t[i] == statuses[i]);
        every_listed_model_can_be_chosen(t, listed, model, model_id, i, id);
        let k = choose|k: int| 0 <= k < before.len() && before[k] == c;
        assert(all[k] == c);
    } else {
        let ids = offered_ids(statuses[i], listed[i]);
        assert(ids.contains(id)) by {
            if !(statuses[i].logged_in && listed[i].len() > 0) {
                assert(ids[0] == id);
            }
        }
        let k = choose|k: int| 0 <= k < ids.len() && ids[k] == id;
        assert(all[before.len() + k] == c);
    }
}

/// A message is shown with a heading, then with all lines of its text, in order, and with
/// an empty line at the end; only what a tool says may be cut. Of a text each line is
/// broken for itself.
pub proof fn every_line_of_a_message_is_shown(
    m: MessageView,
    width: usize,
    a: Seq<Seq<char>>,
    b: Seq<Seq<char>>,
)
    ensures
        m.kind != MessageKind::Tool ==> {
            &&& shown_message(m, width).len() == body_lines(m, width).len() + 2
            &&& shown_message(m, width).last().spans.len() == 0
            &&& forall|i: int|
                0 <= i < body_lines(m, width).len() ==> shown_message(m, width)[i + 1].spans == (
                #[trigger] body_lines(m, width)[i]).spans
        },
        m.kind == MessageKind::Tool && body_lines(m, width).len() < TOOL_MESSAGE_MAX_LINES ==> {
            &&& shown_message(m, width).len() == body_lines(m, width).len() + 2
            &&& forall|i: int|
                0 <= i < body_lines(m, width).len() ==> shown_message(m, width)[i + 1].spans == (
                #[trigger] body_lines(m, width)[i]).spans
        },
        text_lines(m.kind, a + b, width) == text_lines(m.kind, a, width) + text_lines(
            m.kind,
            b,
            width,
        ),
    decreases b.len(),
{
    if b.len() == 0 {
        assert(a + b =~= a);
        assert(text_lines(m.kind, a, width) + Seq::<LineView>::empty() =~= text_lines(
            m.kind,
            a,
            width,
        ));
    } else {
        every_line_of_a_message_is_shown(m, width, a, b.drop_last());
        assert((a + b).drop_last() =~= a + b.drop_last());
        assert((a + b).last() == b.last());
        assert(text_lines(m.kind, a + b, width) =~= text_lines(m.kind, a, width) + text_lines(
            m.kind,
            b,
            width,
        ));
    }
}

} // verus!
