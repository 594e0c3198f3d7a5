//! What holds of an agent's work as a whole.
use crate::agent::autonomous::{kept_output, listed, listed_parts, setting};
use crate::agent::event::AgentEventView;
use crate::agent::prompt::{documents_text, skills_text, Document, SkillPromptView, BASE};
use crate::agent::result::{
    error_json, fitting, limited, preview_json, shortened, timeout_json, told, ToolRun,
    PREVIEW_MARGIN,
};
use crate::agent::runtime::{
    by_order, compacted, model_changed, prompt_text, prompts_of, put_by_order, AgentView,
};
use crate::agent::turn::{
    answered, at_limit, concluded_well, ended_badly, finished, rejected_after, request_of,
    response_outcome, CurrentView, Progress, RunView, FINAL_RESPONSE_INSTRUCTION,
    TOOL_LIMIT_FALLBACK,
};
use crate::json::json_string;
use crate::llm::protocol::{call_views, CallView, MessageView};
use crate::pieces::{lemma_both, lemma_none, lemma_within, stand_in_order};
use crate::seqs::{lemma_filter_picks, picked};
use crate::session::compaction::saturated;
use crate::session::durable::SessionView;
use crate::session::model::{CompactionPlan, SkillView, TurnId};
use crate::session::projection::{context_messages, StoredView};
use crate::session::record::{
    a_bad_ending_can_be_read, a_compaction_sends_its_summary_first, a_completed_turn_is_kept_whole,
    a_result_is_sent_as_it_was_given, a_silent_event_sends_nothing,
    an_answer_is_sent_as_it_was_given, says_only, says_result,
};
use crate::skills::{skill_named, source_name, LoadedView};
use crate::text::{blank, byte_len, char_bytes, decimal, first, split_on, trimmed};
use crate::text_laws::a_number_is_read_as_it_was_written;
use vstd::prelude::*;

verus! {

/// The context of a session is what it was and one message more.
pub open spec fn one_message_more(before: SessionView, after: SessionView) -> bool {
    let sent = context_messages(after.projection);
    sent.len() == context_messages(before.projection).len() + 1 && sent.drop_last()
        == context_messages(before.projection)
}

/// What the model answered is what it is sent from then on: its words, its reasoning
/// and its calls, after everything that it was sent before. Only at the limit its
/// calls are left out, and where it then said nothing, something is said for it.
pub proof fn the_model_is_sent_what_it_answered(
    run: RunView,
    next: RunView,
    before: SessionView,
    after: SessionView,
    reports: Seq<AgentEventView>,
    message_id: u128,
    content: Seq<char>,
    reasoning: Option<Seq<char>>,
    calls: Seq<CallView>,
    progress: Option<Progress>,
)
    requires
        before.last_seq > 0,
        response_outcome(
            run,
            next,
            before,
            after,
            reports,
            message_id,
            content,
            reasoning,
            calls,
            progress,
            None,
        ),
    ensures
        one_message_more(before, after),
        ({
            let cut = run.tool_loops >= run.max_tool_loops && calls.len() > 0;
            let sent = context_messages(after.projection).last();
            &&& sent.role == "assistant"@
            &&& sent.reasoning_content == reasoning
            &&& sent.tool_call_id is None
            &&& !cut || !blank(content) ==> sent.content == content
            &&& cut && blank(content) ==> sent.content == TOOL_LIMIT_FALLBACK@
            &&& cut || calls.len() == 0 ==> sent.tool_calls is None
            &&& !cut && calls.len() > 0 ==> sent.tool_calls == Some(calls) && next.calls == calls
                && next.tool_loops == run.tool_loops + 1
            &&& progress == Some(Progress::CallTools) <==> !cut && calls.len() > 0
            &&& progress == Some(Progress::Finished) <==> cut || calls.len() == 0
        }),
{
    let cut = at_limit(run) && calls.len() > 0;
    if cut {
        let text = if blank(content) {
            TOOL_LIMIT_FALLBACK@
        } else {
            content
        };
        lemma_answered(before, after, message_id, text, reasoning, Seq::empty());
    } else {
        lemma_answered(before, after, message_id, content, reasoning, calls);
    }
}

proof fn lemma_answered(
    before: SessionView,
    after: SessionView,
    message_id: u128,
    content: Seq<char>,
    reasoning: Option<Seq<char>>,
    calls: Seq<CallView>,
)
    requires
        before.last_seq > 0,
        answered(before, after, message_id, content, reasoning, calls, None),
    ensures
        one_message_more(before, after),
        ({
            let sent = context_messages(after.projection).last();
            &&& sent.role == "assistant"@
            &&& sent.content == content
            &&& sent.reasoning_content == reasoning
            &&& sent.tool_call_id is None
            &&& calls.len() == 0 ==> sent.tool_calls is None
            &&& calls.len() > 0 ==> sent.tool_calls == Some(calls)
        }),
{
    let e = after.unsaved.last();
    an_answer_is_sent_as_it_was_given(before.projection, e);
    let a = e.event->AssistantCompleted_0;
    assert(call_views(a.tool_calls@) == calls);
    let sent = context_messages(after.projection).last();
    if calls.len() > 0 {
        assert(sent.tool_calls->0 =~= calls) by {
            assert forall|i: int| 0 <= i < calls.len() implies sent.tool_calls->0[i]
                == calls[i] by {
                assert(calls[i] == a.tool_calls@[i]@);
            }
        }
    }
}

/// What a tool gave back is what the model is sent of it, under the identifier of the
/// call, after everything that it was sent before.
pub proof fn the_model_is_sent_what_its_tools_gave(
    before: SessionView,
    after: SessionView,
    c: CurrentView,
    result: Seq<char>,
    success: bool,
    duration_ms: u64,
)
    requires
        before.last_seq > 0,
        before.projection.active is Some,
        finished(before, after, c, result, success, duration_ms, None),
    ensures
        one_message_more(before, after),
        says_result(context_messages(after.projection).last(), c.call_id, result),
{
    a_result_is_sent_as_it_was_given(before.projection, after.unsaved.last());
}

/// A request begins with the whole system prompt and holds the whole context behind
/// it, in order; at the limit the prompt ends with the word that no tools may be
/// called, and nothing else differs.
pub proof fn a_request_holds_the_whole_context(
    run: RunView,
    system: Seq<char>,
    context: Seq<MessageView>,
)
    ensures
        ({
            let sent = request_of(run, system, context);
            &&& sent.len() == context.len() + 1
            &&& sent.drop_first() == context
            &&& says_only(sent[0], "system"@, sent[0].content)
            &&& sent[0].content.len() >= system.len()
            &&& sent[0].content.take(system.len() as int) == system
            &&& run.tool_loops < run.max_tool_loops ==> sent[0].content == system
            &&& run.tool_loops >= run.max_tool_loops ==> sent[0].content.skip(system.len() as int)
                == "\n\n"@ + FINAL_RESPONSE_INSTRUCTION@
        }),
{
    let sent = request_of(run, system, context);
    assert(sent.drop_first() =~= context);
    assert(sent[0].content.take(system.len() as int) =~= system);
    assert(run.tool_loops >= run.max_tool_loops ==> sent[0].content.skip(system.len() as int)
        =~= "\n\n"@ + FINAL_RESPONSE_INSTRUCTION@);
}

/// A result within its limit is told as it is. A longer one is told by how long it
/// was and by how it begins: what is told is a part of the result from its start on,
/// and as much of it as fits beside the frame, where that keeps to the limit.
pub proof fn a_long_result_is_told_by_its_beginning(rendered: Seq<char>, max: nat)
    ensures
        byte_len(rendered) <= max ==> limited(rendered, max) == rendered,
        byte_len(rendered) > max ==> exists|k: int|
            0 <= k <= rendered.len() && stand_in_order(
                limited(rendered, max),
                seq![
                    decimal(byte_len(rendered)),
                    #[trigger] json_string(rendered.take(k)),
                    ",\"truncated\":true}"@,
                ],
            ),
        forall|k: int|
            #![trigger rendered.take(k)]
            byte_len(rendered) > max && max >= 128 && 0 < k < rendered.len() && byte_len(
                rendered.take(k),
            ) <= max - 128 && byte_len(rendered.take(k + 1)) > max - 128 && byte_len(
                preview_json(byte_len(rendered), rendered.take(k)),
            ) <= max ==> limited(rendered, max) == preview_json(
                byte_len(rendered),
                rendered.take(k),
            ),
{
    if byte_len(rendered) > max {
        let room = if max >= PREVIEW_MARGIN {
            (max - PREVIEW_MARGIN) as nat
        } else {
            0
        };
        let k = lemma_told_part(rendered, max, room);
        lemma_preview(byte_len(rendered), rendered.take(k));
        assert forall|k: int|
            #![trigger rendered.take(k)]
            max >= 128 && 0 < k < rendered.len() && byte_len(rendered.take(k)) <= max - 128
                && byte_len(rendered.take(k + 1)) > max - 128 && byte_len(
                preview_json(byte_len(rendered), rendered.take(k)),
            ) <= max implies limited(rendered, max) == preview_json(
            byte_len(rendered),
            rendered.take(k),
        ) by {
            lemma_fitting_is(rendered, room, k);
        }
    }
}

proof fn lemma_told_part(rendered: Seq<char>, max: nat, room: nat) -> (k: int)
    ensures
        0 <= k <= rendered.len(),
        shortened(rendered, max, room) == preview_json(byte_len(rendered), rendered.take(k)),
    decreases room,
{
    lemma_fitting_bound(rendered, room);
    let preview = rendered.take(fitting(rendered, room) as int);
    let used = byte_len(preview);
    if byte_len(preview_json(byte_len(rendered), preview)) <= max || used == 0 || used > room {
        fitting(rendered, room) as int
    } else {
        let less = (saturated(used as int, 3) / 4) as nat;
        assert(less < room);
        lemma_told_part(rendered, max, less)
    }
}

proof fn lemma_fitting_bound(s: Seq<char>, room: nat)
    ensures
        fitting(s, room) <= s.len(),
    decreases s.len(),
{
    if s.len() > 0 && char_bytes(s[0]) <= room {
        lemma_fitting_bound(s.drop_first(), (room - char_bytes(s[0])) as nat);
    }
}

proof fn lemma_fitting_is(s: Seq<char>, room: nat, k: int)
    requires
        0 <= k < s.len(),
        byte_len(s.take(k)) <= room,
        byte_len(s.take(k + 1)) > room,
    ensures
        fitting(s, room) == k,
    decreases s.len(),
{
    let t = s.take(k + 1);
    assert(t.drop_first() =~= s.drop_first().take(k));
    assert(t[0] == s[0]);
    assert(byte_len(t) == char_bytes(s[0]) + byte_len(s.drop_first().take(k)));
    if k == 0 {
        assert(byte_len(s.drop_first().take(0)) == 0);
    } else {
        let u = s.take(k);
        assert(u.drop_first() =~= s.drop_first().take(k - 1));
        assert(u[0] == s[0]);
        assert(byte_len(u) == char_bytes(s[0]) + byte_len(s.drop_first().take(k - 1)));
        lemma_fitting_is(s.drop_first(), (room - char_bytes(s[0])) as nat, k - 1);
    }
}

proof fn lemma_preview(original_bytes: nat, preview: Seq<char>)
    ensures
        stand_in_order(
            preview_json(original_bytes, preview),
            seq![decimal(original_bytes), json_string(preview), ",\"truncated\":true}"@],
        ),
{
    let none = Seq::<char>::empty();
    let number = decimal(original_bytes);
    let text = json_string(preview);
    let end = ",\"truncated\":true}"@;
    lemma_within("{\"original_bytes\":"@, number, none);
    lemma_within(",\"preview\":"@, text, none);
    lemma_within(none, end, none);
    let a = "{\"original_bytes\":"@ + number + none;
    let b = ",\"preview\":"@ + text + none;
    let c = none + end + none;
    lemma_both(a, seq![number], b, seq![text]);
    lemma_both(a + b, seq![number] + seq![text], c, seq![end]);
    assert(a + b + c =~= preview_json(original_bytes, preview));
    assert(seq![number] + seq![text] + seq![end] =~= seq![number, text, end]);
}

/// A call went well exactly where its tool gave a result. What the model is told of
/// any other end is an error that names what went wrong: the tool that there is not
/// or that is blocked, the message of the failure, or the time after which it was
/// given up.
pub proof fn every_end_of_a_call_is_told(run: ToolRun, max: nat)
    ensures
        told(run, max).1 <==> run is Done,
        match run {
            ToolRun::Done(result) => byte_len(result@) <= max ==> told(run, max).0 == result@,
            ToolRun::Unknown(name) => stand_in_order(
                told(run, max).0,
                seq!["\"error\":"@, json_string("unknown tool: "@ + name@)],
            ),
            ToolRun::Blocked(name) => stand_in_order(
                told(run, max).0,
                seq!["\"error\":"@, json_string("tool is blocked by policy: "@ + name@)],
            ),
            ToolRun::Failed(message) => byte_len(error_json(message@)) <= max ==> stand_in_order(
                told(run, max).0,
                seq!["\"error\":"@, json_string(message@)],
            ),
            ToolRun::TimedOut(ms) => byte_len(timeout_json(ms as nat)) <= max ==> stand_in_order(
                told(run, max).0,
                seq!["\"error\":"@, decimal(ms as nat)],
            ),
        },
{
    match run {
        ToolRun::Unknown(name) => {
            lemma_error("unknown tool: "@ + name@);
        },
        ToolRun::Blocked(name) => {
            lemma_error("tool is blocked by policy: "@ + name@);
        },
        ToolRun::Failed(message) => {
            lemma_error(message@);
        },
        ToolRun::TimedOut(ms) => {
            lemma_timeout(ms as nat);
        },
        _ => {},
    }
}

proof fn lemma_error_key(rest: Seq<char>)
    ensures
        stand_in_order("{\"error\":"@ + rest, seq!["\"error\":"@]),
{
    reveal_strlit("{\"error\":");
    reveal_strlit("\"error\":");
    lemma_within(seq!['{'], "\"error\":"@, rest);
    assert(seq!['{'] + "\"error\":"@ + rest =~= "{\"error\":"@ + rest);
}

proof fn lemma_error(message: Seq<char>)
    ensures
        stand_in_order(error_json(message), seq!["\"error\":"@, json_string(message)]),
{
    let none = Seq::<char>::empty();
    let text = json_string(message);
    lemma_error_key(none);
    lemma_within(none, text, "}"@);
    let a = "{\"error\":"@ + none;
    let b = none + text + "}"@;
    lemma_both(a, seq!["\"error\":"@], b, seq![text]);
    assert(a + b =~= error_json(message));
    assert(seq!["\"error\":"@] + seq![text] =~= seq!["\"error\":"@, text]);
}

proof fn lemma_timeout(ms: nat)
    ensures
        stand_in_order(timeout_json(ms), seq!["\"error\":"@, decimal(ms)]),
{
    let text = json_string("tool timed out after "@ + decimal(ms) + " ms"@);
    lemma_error_key(text);
    lemma_within(",\"timeout_ms\":"@, decimal(ms), "}"@);
    let a = "{\"error\":"@ + text;
    let b = ",\"timeout_ms\":"@ + decimal(ms) + "}"@;
    lemma_both(a, seq!["\"error\":"@], b, seq![decimal(ms)]);
    assert(a + b =~= timeout_json(ms));
    assert(seq!["\"error\":"@] + seq![decimal(ms)] =~= seq!["\"error\":"@, decimal(ms)]);
}

/// What the documents of a workspace bring into the prompt: of each its name and how
/// it begins.
pub open spec fn words_of_documents(documents: Seq<Document>) -> Seq<Seq<char>>
    decreases documents.len(),
{
    if documents.len() == 0 {
        Seq::empty()
    } else {
        let d = documents.last();
        words_of_documents(documents.drop_last()) + seq![
            d.name@,
            if d.content@.len() <= 8000 {
                d.content@
            } else {
                d.content@.take(8000)
            },
        ]
    }
}

/// What Skills bring into the prompt: of each its name, its source, its digest and
/// its whole body.
pub open spec fn words_of_skills(skills: Seq<SkillPromptView>) -> Seq<Seq<char>>
    decreases skills.len(),
{
    if skills.len() == 0 {
        Seq::empty()
    } else {
        let s = skills.last();
        words_of_skills(skills.drop_last()) + seq![s.name, s.source, s.digest, s.body]
    }
}

/// The prompt holds, in order, the rules, the workspace, each document by its name
/// and how it begins, and each Skill with its whole body.
pub proof fn the_prompt_holds_everything(
    workspace: Seq<char>,
    documents: Seq<Document>,
    shown: Seq<SkillPromptView>,
)
    ensures
        stand_in_order(
            prompt_text(workspace, documents, shown),
            seq![BASE@, workspace] + words_of_documents(documents) + words_of_skills(shown),
        ),
{
    let none = Seq::<char>::empty();
    lemma_within(none, BASE@, "\nWorkspace: "@);
    lemma_within(none, workspace, "\n"@);
    let a = none + BASE@ + "\nWorkspace: "@;
    let b = none + workspace + "\n"@;
    lemma_both(a, seq![BASE@], b, seq![workspace]);
    assert(seq![BASE@] + seq![workspace] =~= seq![BASE@, workspace]);
    lemma_documents(documents);
    lemma_both(
        a + b,
        seq![BASE@, workspace],
        documents_text(documents),
        words_of_documents(documents),
    );
    lemma_skills(shown);
    lemma_both(
        a + b + documents_text(documents),
        seq![BASE@, workspace] + words_of_documents(documents),
        skills_text(shown),
        words_of_skills(shown),
    );
    assert(a + b + documents_text(documents) + skills_text(shown) =~= prompt_text(
        workspace,
        documents,
        shown,
    ));
}

proof fn lemma_documents(documents: Seq<Document>)
    ensures
        stand_in_order(documents_text(documents), words_of_documents(documents)),
    decreases documents.len(),
{
    if documents.len() == 0 {
        lemma_none(documents_text(documents));
    } else {
        let none = Seq::<char>::empty();
        let t = documents.drop_last();
        let d = documents.last();
        let start = first(d.content@, 8000);
        lemma_documents(t);
        lemma_within("\n## "@, d.name@, "\n"@);
        lemma_within(none, start, "\n"@);
        let a = "\n## "@ + d.name@ + "\n"@;
        let b = none + start + "\n"@;
        lemma_both(a, seq![d.name@], b, seq![start]);
        assert(seq![d.name@] + seq![start] =~= seq![d.name@, start]);
        lemma_both(documents_text(t), words_of_documents(t), a + b, seq![d.name@, start]);
        assert(documents_text(t) + (a + b) =~= documents_text(documents));
    }
}

proof fn lemma_skills(skills: Seq<SkillPromptView>)
    ensures
        stand_in_order(skills_text(skills), words_of_skills(skills)),
    decreases skills.len(),
{
    if skills.len() == 0 {
        lemma_none(skills_text(skills));
    } else {
        let none = Seq::<char>::empty();
        let t = skills.drop_last();
        let s = skills.last();
        lemma_skills(t);
        lemma_within("\n<skill name=\""@, s.name, "\" source=\""@);
        lemma_within(none, s.source, "\" digest=\""@);
        lemma_within(none, s.digest, "\">\n"@);
        lemma_within(none, s.body, "\n</skill>\n"@);
        let a = "\n<skill name=\""@ + s.name + "\" source=\""@;
        let b = none + s.source + "\" digest=\""@;
        let c = none + s.digest + "\">\n"@;
        let d = none + s.body + "\n</skill>\n"@;
        lemma_both(a, seq![s.name], b, seq![s.source]);
        lemma_both(a + b, seq![s.name] + seq![s.source], c, seq![s.digest]);
        lemma_both(
            a + b + c,
            seq![s.name] + seq![s.source] + seq![s.digest],
            d,
            seq![s.body],
        );
        let words = seq![s.name] + seq![s.source] + seq![s.digest] + seq![s.body];
        assert(words =~= seq![s.name, s.source, s.digest, s.body]);
        lemma_both(skills_text(t), words_of_skills(t), a + b + c + d, words);
        assert(skills_text(t) + (a + b + c + d) =~= skills_text(skills));
    }
}

/// The Skills in the prompt are the active ones, one for one and in order: each by the
/// body of the Skill of that name, which still has the digest under which it was
/// switched on. One that is gone or has changed is refused.
pub proof fn the_prompt_shows_the_active_skills(skills: Seq<LoadedView>, ordered: Seq<SkillView>)
    ensures
        prompts_of(skills, ordered) matches Ok(shown) ==> {
            &&& shown.len() == ordered.len()
            &&& forall|i: int|
                0 <= i < ordered.len() ==> {
                    &&& skill_named(skills, (#[trigger] ordered[i]).name) matches Some(skill)
                    &&& skill.info.digest == ordered[i].digest
                    &&& shown[i].digest == ordered[i].digest
                    &&& shown[i].name == skill.info.name
                    &&& shown[i].body == skill.body
                    &&& shown[i].source == source_name(skill.info.source)
                }
        },
        prompts_of(skills, ordered) is Err <==> exists|i: int|
            0 <= i < ordered.len() && match skill_named(skills, (#[trigger] ordered[i]).name) {
                None => true,
                Some(skill) => skill.info.digest != ordered[i].digest,
            },
    decreases ordered.len(),
{
    if ordered.len() > 0 {
        let t = ordered.drop_last();
        the_prompt_shows_the_active_skills(skills, t);
        assert(ordered[ordered.len() - 1] == ordered.last());
        if prompts_of(skills, t) is Err {
            let i = choose|i: int|
                0 <= i < t.len() && match skill_named(skills, (#[trigger] t[i]).name) {
                    None => true,
                    Some(skill) => skill.info.digest != t[i].digest,
                };
            assert(ordered[i] == t[i]);
        } else {
            assert forall|i: int| 0 <= i < t.len() implies (match skill_named(
                skills,
                (#[trigger] ordered[i]).name,
            ) {
                None => false,
                Some(skill) => skill.info.digest == ordered[i].digest,
            }) by {
                assert(t[i] == ordered[i]);
            }
            if prompts_of(skills, ordered) is Ok {
                let shown = prompts_of(skills, ordered)->Ok_0;
                assert forall|i: int| 0 <= i < ordered.len() implies {
                    &&& skill_named(skills, (#[trigger] ordered[i]).name) matches Some(skill)
                    &&& skill.info.digest == ordered[i].digest
                    &&& shown[i].digest == ordered[i].digest
                    &&& shown[i].name == skill.info.name
                    &&& shown[i].body == skill.body
                    &&& shown[i].source == source_name(skill.info.source)
                } by {
                    if i < t.len() {
                        assert(t[i] == ordered[i]);
                    }
                }
            }
        }
    }
}

/// A summary that was taken in stands before what is left of the context, whole; of
/// the context no message is left that the plan covers, and none is lost that it
/// does not cover.
pub proof fn a_summary_takes_the_place_of_the_turns(
    old: AgentView,
    new: AgentView,
    plan: CompactionPlan,
    summary: Seq<char>,
)
    requires
        old.session.last_seq > 0,
        compacted(old, new, plan, Some(summary), None),
    ensures
        ({
            let sent = context_messages(new.session.projection);
            &&& !blank(summary)
            &&& sent.len() > 0
            &&& says_only(
                sent.first(),
                "system"@,
                "Summary of earlier session context:\n"@ + summary,
            )
            &&& forall|i: int|
                0 <= i < new.session.projection.committed.len() ==> (
                #[trigger] new.session.projection.committed[i]).seq > plan.through_seq
            &&& sent.len() == new.session.projection.committed.len() + 1
            &&& new.session.projection.transcript.len()
                == old.session.projection.transcript.len() + 1
        }),
{
    let e = new.session.unsaved.last();
    let p = old.session.projection;
    a_compaction_sends_its_summary_first(p, e);
    let n = new.session.projection;
    let later = |m: StoredView| m.seq > plan.through_seq;
    let places = lemma_filter_picks(p.committed, later);
    assert(n.committed == p.committed.filter(later));
    assert forall|i: int| 0 <= i < n.committed.len() implies (
    #[trigger] n.committed[i]).seq > plan.through_seq by {
        assert(places.contains(places[i]));
    }
}

/// A session that changed its model has the one that was asked for, and its context is
/// what it was.
pub proof fn a_changed_model_is_the_one_asked_for(
    old: SessionView,
    new: SessionView,
    model: Seq<char>,
    model_id: Seq<char>,
)
    requires
        old.last_seq > 0,
        model_changed(old, new, model, model_id, None),
    ensures
        new.projection.meta.model == model,
        new.projection.meta.model_id == model_id,
        context_messages(new.projection) == context_messages(old.projection),
{
    if new != old {
        a_silent_event_sends_nothing(old.projection, new.unsaved.last());
    }
}

/// The active Skills in their order are the active Skills, none more and none fewer.
pub proof fn active_skills_are_ordered(s: Seq<SkillView>)
    ensures
        by_order(s).to_multiset() == s.to_multiset(),
        by_order(s).len() == s.len(),
        forall|i: int, j: int|
            0 <= i < j < by_order(s).len() ==> (#[trigger] by_order(s)[i]).order <= (
            #[trigger] by_order(s)[j]).order,
    decreases s.len(),
{
    broadcast use vstd::seq_lib::group_to_multiset_ensures;

    if s.len() > 0 {
        active_skills_are_ordered(s.drop_last());
        lemma_put_by_order(by_order(s.drop_last()), s.last());
        assert(s =~= s.drop_last().push(s.last()));
    }
}

proof fn lemma_put_by_order(sorted: Seq<SkillView>, new: SkillView)
    requires
        forall|i: int, j: int|
            0 <= i < j < sorted.len() ==> (#[trigger] sorted[i]).order <= (
            #[trigger] sorted[j]).order,
    ensures
        put_by_order(sorted, new).to_multiset() == sorted.push(new).to_multiset(),
        put_by_order(sorted, new).len() == sorted.len() + 1,
        forall|i: int, j: int|
            0 <= i < j < put_by_order(sorted, new).len() ==> (#[trigger] put_by_order(
                sorted,
                new,
            )[i]).order <= (#[trigger] put_by_order(sorted, new)[j]).order,
        forall|i: int|
            0 <= i <= sorted.len() ==> (#[trigger] put_by_order(sorted, new)[i]) == new
                || sorted.contains(put_by_order(sorted, new)[i]),
    decreases sorted.len(),
{
    broadcast use vstd::seq_lib::group_to_multiset_ensures;

    let out = put_by_order(sorted, new);
    if sorted.len() == 0 || sorted.last().order <= new.order {
        assert forall|i: int| 0 <= i <= sorted.len() implies (#[trigger] out[i]) == new
            || sorted.contains(out[i]) by {
            if i < sorted.len() {
                assert(sorted[i] == out[i]);
            }
        }
        assert forall|i: int, j: int| 0 <= i < j < out.len() implies (#[trigger] out[i]).order <= (
        #[trigger] out[j]).order by {
            if j == sorted.len() && i < sorted.len() - 1 {
                assert(sorted[i].order <= sorted[sorted.len() - 1].order);
            }
        }
    } else {
        let t = sorted.drop_last();
        lemma_put_by_order(t, new);
        let u = put_by_order(t, new);
        assert(out == u.push(sorted.last()));
        assert(sorted =~= t.push(sorted.last()));
        assert(out.to_multiset() =~= sorted.push(new).to_multiset());
        assert forall|i: int| 0 <= i <= sorted.len() implies (#[trigger] out[i]) == new
            || sorted.contains(out[i]) by {
            if i < u.len() {
                assert(u[i] == out[i]);
                if u[i] != new {
                    let k = choose|k: int| 0 <= k < t.len() && t[k] == u[i];
                    assert(sorted[k] == out[i]);
                }
            } else {
                assert(sorted[sorted.len() - 1] == out[i]);
            }
        }
        assert forall|i: int, j: int| 0 <= i < j < out.len() implies (#[trigger] out[i]).order <= (
        #[trigger] out[j]).order by {
            if j < u.len() {
                assert(u[i].order <= u[j].order);
            } else {
                assert(out[i] == u[i]);
                if u[i] != new {
                    let k = choose|k: int| 0 <= k < t.len() && t[k] == u[i];
                    assert(sorted[k].order <= sorted[sorted.len() - 1].order);
                }
            }
        }
    }
}

/// Texts without the space around them.
pub open spec fn trimmed_all(parts: Seq<Seq<char>>) -> Seq<Seq<char>> {
    parts.map_values(|p: Seq<char>| trimmed(p))
}

/// A list with commas between its parts holds, in order, every part that is not blank,
/// without the space around it.
pub proof fn a_list_holds_its_parts(text: Seq<char>)
    ensures
        exists|places: Seq<int>|
            {
                &&& #[trigger] picked(trimmed_all(split_on(text, ',')), listed(text), places)
                &&& forall|k: int|
                    0 <= k < split_on(text, ',').len() && trimmed(split_on(text, ',')[k]).len() > 0
                        <==> #[trigger] places.contains(k)
            },
{
    let parts = split_on(text, ',');
    let all = trimmed_all(parts);
    let full = |p: Seq<char>| p.len() > 0;
    lemma_listed(parts);
    let places = lemma_filter_picks(all, full);
    assert(picked(all, listed(text), places));
    assert forall|k: int|
        0 <= k < parts.len() && trimmed(parts[k]).len() > 0 <==> #[trigger] places.contains(k) by {
        if 0 <= k < parts.len() {
            assert(all[k] == trimmed(parts[k]));
        }
    }
}

proof fn lemma_listed(parts: Seq<Seq<char>>)
    ensures
        listed_parts(parts) == trimmed_all(parts).filter(|p: Seq<char>| p.len() > 0),
    decreases parts.len(),
{
    reveal(Seq::filter);
    let all = trimmed_all(parts);
    if parts.len() > 0 {
        lemma_listed(parts.drop_last());
        assert(all.drop_last() =~= trimmed_all(parts.drop_last()));
        assert(all.last() == trimmed(parts.last()));
    }
}

/// A setting is the number that was given, as long as it can be held, and the default
/// where nothing was given.
pub proof fn a_setting_is_the_number_given(n: nat, limit: nat, default: nat)
    requires
        n <= limit,
    ensures
        setting(Some(decimal(n)), limit, default) == n,
        setting(None, limit, default) == default,
{
    a_number_is_read_as_it_was_written(n);
    let s = decimal(n);
    assert('0' <= s[0] <= '9');
    assert(s[0] != '+');
}

/// What a check put out is kept without the space around it, or, where it is too long,
/// by how it begins and with a note that it was cut.
pub proof fn an_output_is_kept_by_its_beginning(output: Seq<char>)
    ensures
        output.len() <= 6000 ==> kept_output(output) == trimmed(output),
        output.len() > 6000 ==> {
            &&& kept_output(output).len() > 6000
            &&& kept_output(output).take(6000) == output.take(6000)
            &&& kept_output(output).skip(6000) == "\n[output truncated]"@
        },
{
    if output.len() > 6000 {
        reveal_strlit("\n[output truncated]");
        assert(kept_output(output).take(6000) =~= output.take(6000));
        assert(kept_output(output).skip(6000) =~= "\n[output truncated]"@);
    }
}

/// A call that the user refused is told to the model as refused: a result that says so
/// is sent under the identifier of the call, and the call is not carried out.
pub proof fn a_refused_call_is_told_as_refused(
    run: RunView,
    next: RunView,
    middle: SessionView,
    after: SessionView,
    old_reports: Seq<AgentEventView>,
    reports: Seq<AgentEventView>,
    on: Option<bool>,
)
    requires
        middle.last_seq > 0,
        middle.projection.active is Some,
        rejected_after(run, next, middle, after, old_reports, reports, on, None),
    ensures
        on == Some(false),
        one_message_more(middle, after),
        context_messages(after.projection).last().tool_call_id == Some(run.current->0.call_id),
        stand_in_order(
            context_messages(after.projection).last().content,
            seq!["\"error\":"@, json_string("tool execution rejected by user"@)],
        ),
        next.current is None,
        next.calls == run.calls,
{
    let result = error_json("tool execution rejected by user"@);
    the_model_is_sent_what_its_tools_gave(middle, after, run.current->0, result, false, 0);
    lemma_error("tool execution rejected by user"@);
}

/// A turn that ended well stays: what the model is sent is what it was, the turn is kept
/// with all its messages, and its end is reported.
pub proof fn a_turn_that_ended_well_stays(
    before: SessionView,
    after: SessionView,
    turn_id: TurnId,
    old_reports: Seq<AgentEventView>,
    reports: Seq<AgentEventView>,
)
    requires
        before.last_seq > 0,
        before.projection.active is Some,
        before.projection.active->0.id == turn_id,
        concluded_well(before, after, turn_id, old_reports, reports, None),
    ensures
        context_messages(after.projection) == context_messages(before.projection),
        after.projection.active is None,
        after.projection.completed.len() == before.projection.completed.len() + 1,
        after.projection.completed.last().id == turn_id,
        after.projection.completed.last().messages == before.projection.active->0.messages,
        reports.len() == old_reports.len() + 1,
        reports.last() == (AgentEventView::TurnCompleted { turn_id }),
{
    let e = after.unsaved.last();
    a_silent_event_sends_nothing(before.projection, e);
    a_completed_turn_is_kept_whole(before.projection, e);
}

/// A turn that failed or was cancelled can be tried again with the same question. Nothing
/// of it is sent to the model, and people can read what went wrong.
pub proof fn a_turn_that_ended_badly_can_be_tried_again(
    before: SessionView,
    after: SessionView,
    turn_id: TurnId,
    cancelled: bool,
    message: Seq<char>,
)
    requires
        before.last_seq > 0,
        before.projection.active is Some,
        before.projection.active->0.id == turn_id,
        ended_badly(before, after, turn_id, cancelled, message, None),
    ensures
        after.projection.active is None,
        after.projection.retry_input == Some(before.projection.active->0.input),
        after.projection.committed == before.projection.committed,
        after.projection.completed == before.projection.completed,
        after.projection.transcript.len() == before.projection.transcript.len() + 1,
        after.projection.transcript.last().interrupted,
        cancelled ==> after.projection.transcript.last().content == "Turn cancelled: "@ + message,
        !cancelled ==> after.projection.transcript.last().content == message,
{
    let e = after.unsaved.last();
    a_bad_ending_can_be_read(before.projection, e);
}

} // verus!
