//! The agent: a session, the tools and Skills that it is worked on with, and
//! the model that works on it.
use crate::agent::prompt::{
    build, documents_text, skill_prompt_views, skills_text, Document, SkillPrompt,
    SkillPromptView, BASE,
};
use crate::agent::result::MIN_OUTPUT_BYTES;
use crate::agent::turn::{check_setup, switched_off};
use crate::error::{fail, fail_about, Error};
use crate::model::{model_named, window_of, Model};
use crate::paths::{is_same_path, same_path};
use crate::session::compaction::saturated;
use crate::session::durable::{
    logged, next_seq, outcome, refusal, renamed, run_begun, withdrawn, Session, SessionView,
};
use crate::session::event::SessionEvent;
use crate::session::model::{
    skill_views, ActiveSkillRecord, CompactionPlan, CompactionRecord, RunId, RuntimeSnapshot,
    SessionSummary, SkillView, Transcript,
};
use crate::session::projection::{context_messages, held, total_tokens};
use crate::skills::{skill_named, source_name, LoadedView, SkillInfo, SkillRegistry, SkillsView};
use crate::text::{blank, copy_list, is_blank, maybe, same, texts};
use crate::tools::{tool_names, RegistryView, ToolApprovalMode, ToolRegistry};
use vstd::prelude::*;

verus! {

/// How an agent is set up. The temperature is kept as the bits of its
/// floating-point form.
#[derive(Debug)]
pub struct AgentConfig {
    pub workspace: String,
    pub max_tool_loops: usize,
    pub tool_timeout_nanos: u128,
    pub max_tool_output_bytes: usize,
    pub temperature_bits: u32,
}

/// The agent.
#[derive(Debug)]
pub struct Agent {
    pub(crate) config: AgentConfig,
    pub(crate) version: String,
    pub(crate) model_id: String,
    pub(crate) tools: ToolRegistry,
    pub(crate) skills: SkillRegistry,
    pub(crate) session: Session,
    pub(crate) system_prompt: String,
    pub(crate) run_id: RunId,
}

/// The view of an agent.
pub struct AgentView {
    pub config: AgentConfig,
    pub version: Seq<char>,
    pub model_id: Seq<char>,
    pub tools: RegistryView,
    pub skills: SkillsView,
    pub session: SessionView,
    pub system_prompt: Seq<char>,
    pub run: RunId,
}

impl View for Agent {
    type V = AgentView;

    closed spec fn view(&self) -> AgentView {
        AgentView {
            config: self.config,
            version: self.version@,
            model_id: self.model_id@,
            tools: self.tools@,
            skills: self.skills@,
            session: self.session@,
            system_prompt: self.system_prompt@,
            run: self.run_id,
        }
    }
}

/// An active Skill put behind all that do not come after it.
pub open spec fn put_by_order(sorted: Seq<SkillView>, new: SkillView) -> Seq<SkillView>
    decreases sorted.len(),
{
    if sorted.len() == 0 || sorted.last().order <= new.order {
        sorted.push(new)
    } else {
        put_by_order(sorted.drop_last(), new).push(sorted.last())
    }
}

/// Active Skills in the order in which they were switched on.
pub open spec fn by_order(s: Seq<SkillView>) -> Seq<SkillView>
    decreases s.len(),
{
    if s.len() == 0 {
        Seq::empty()
    } else {
        put_by_order(by_order(s.drop_last()), s.last())
    }
}

/// Active Skills in the order in which they were switched on.
fn sort_skills(active: &Vec<ActiveSkillRecord>) -> (r: Vec<ActiveSkillRecord>)
    ensures
        skill_views(r@) == by_order(skill_views(active@)),
{
    let mut out: Vec<ActiveSkillRecord> = Vec::new();
    let ghost all = skill_views(active@);
    let mut i: usize = 0;
    assert(skill_views(out@) =~= by_order(all.take(0)));
    while i < active.len()
        invariant
            i <= active.len(),
            all == skill_views(active@),
            skill_views(out@) == by_order(all.take(i as int)),
        decreases active.len() - i,
    {
        let item = active[i].clone();
        let ghost before = skill_views(out@);
        let mut at: usize = out.len();
        assert(before.take(at as int) =~= before);
        assert(before.skip(at as int) =~= Seq::empty());
        while at > 0 && out[at - 1].order > item.order
            invariant
                at <= out.len(),
                before == skill_views(out@),
                put_by_order(before, item@) == put_by_order(before.take(at as int), item@)
                    + before.skip(at as int),
            decreases at,
        {
            proof {
                let part = before.take(at as int);
                assert(part.last() == out@[at - 1]@);
                assert(part.drop_last() =~= before.take(at - 1));
                assert(put_by_order(part, item@) + before.skip(at as int) =~= put_by_order(
                    before.take(at - 1),
                    item@,
                ) + before.skip(at - 1));
            }
            at -= 1;
        }
        let ghost view = item@;
        proof {
            let part = before.take(at as int);
            if at > 0 {
                assert(part.last() == out@[at - 1]@);
            }
            assert(put_by_order(part, view) == part.push(view));
            assert(part.push(view) + before.skip(at as int) =~= before.insert(at as int, view));
        }
        out.insert(at, item);
        assert(skill_views(out@) =~= before.insert(at as int, view));
        i += 1;
        assert(all.take(i as int).drop_last() =~= all.take(i - 1));
        assert(all.take(i as int).last() == view);
    }
    assert(all.take(i as int) =~= all);
    out
}

/// What the prompt shows of an active Skill, or why it can no longer be shown.
pub open spec fn prompt_of(skills: Seq<LoadedView>, record: SkillView) -> Result<
    SkillPromptView,
    Seq<char>,
> {
    match skill_named(skills, record.name) {
        None => Err("active Skill '"@ + record.name + "' is no longer available"@),
        Some(skill) => if skill.info.digest != record.digest {
            Err(
                "active Skill '"@ + record.name + "' changed on disk (expected "@ + record.digest
                    + ", found "@ + skill.info.digest + ")"@,
            )
        } else {
            Ok(
                SkillPromptView {
                    name: skill.info.name,
                    source: source_name(skill.info.source),
                    digest: skill.info.digest,
                    body: skill.body,
                },
            )
        },
    }
}

/// What the prompt shows of active Skills, or the first reason why one can no
/// longer be shown.
pub open spec fn prompts_of(skills: Seq<LoadedView>, ordered: Seq<SkillView>) -> Result<
    Seq<SkillPromptView>,
    Seq<char>,
>
    decreases ordered.len(),
{
    if ordered.len() == 0 {
        Ok(Seq::empty())
    } else {
        match prompts_of(skills, ordered.drop_last()) {
            Err(m) => Err(m),
            Ok(shown) => match prompt_of(skills, ordered.last()) {
                Err(m) => Err(m),
                Ok(p) => Ok(shown.push(p)),
            },
        }
    }
}

proof fn lemma_prompts_fail(skills: Seq<LoadedView>, ordered: Seq<SkillView>, k: int)
    requires
        0 <= k <= ordered.len(),
        prompts_of(skills, ordered.take(k)) is Err,
    ensures
        prompts_of(skills, ordered) == prompts_of(skills, ordered.take(k)),
    decreases ordered.len() - k,
{
    if k < ordered.len() {
        assert(ordered.take(k + 1).drop_last() =~= ordered.take(k));
        lemma_prompts_fail(skills, ordered, k + 1);
    } else {
        assert(ordered.take(k) =~= ordered);
    }
}

/// What the prompt shows of the active Skills.
pub fn active_skill_prompts(registry: &SkillRegistry, active: &Vec<ActiveSkillRecord>) -> (r: Result<
    Vec<SkillPrompt>,
    Error,
>)
    ensures
        match prompts_of(registry@.skills, by_order(skill_views(active@))) {
            Ok(shown) => r matches Ok(v) && skill_prompt_views(v@) == shown,
            Err(m) => r matches Err(e) && e@ == m,
        },
{
    let ordered = sort_skills(active);
    let ghost all = skill_views(ordered@);
    let mut out: Vec<SkillPrompt> = Vec::new();
    let mut i: usize = 0;
    assert(skill_prompt_views(out@) =~= Seq::empty());
    while i < ordered.len()
        invariant
            i <= ordered.len(),
            all == skill_views(ordered@),
            all == by_order(skill_views(active@)),
            prompts_of(registry@.skills, all.take(i as int)) == Ok::<
                Seq<SkillPromptView>,
                Seq<char>,
            >(skill_prompt_views(out@)),
        decreases ordered.len() - i,
    {
        let record = &ordered[i];
        proof {
            assert(all.take(i + 1).drop_last() =~= all.take(i as int));
            assert(all.take(i + 1).last() == record@);
            if prompts_of(registry@.skills, all.take(i + 1)) is Err {
                lemma_prompts_fail(registry@.skills, all, i + 1);
            }
        }
        let info = match registry.get(record.name.as_str()) {
            Some(info) => info,
            None => {
                return Err(
                    fail_about(
                        "active Skill '",
                        record.name.as_str(),
                        "' is no longer available",
                    ),
                );
            },
        };
        if !same(info.digest.as_str(), record.digest.as_str()) {
            let mut message: String = "active Skill '".to_owned();
            message.append(record.name.as_str());
            message.append("' changed on disk (expected ");
            message.append(record.digest.as_str());
            message.append(", found ");
            message.append(info.digest.as_str());
            message.append(")");
            return Err(Error { message });
        }
        let body = match registry.body(record.name.as_str()) {
            Some(body) => body,
            None => "",
        };
        let prompt = SkillPrompt {
            name: info.name.clone(),
            source: info.source.to_text().to_owned(),
            digest: info.digest.clone(),
            body: body.to_owned(),
        };
        assert(skill_prompt_views(out@.push(prompt)) =~= skill_prompt_views(out@).push(prompt@));
        out.push(prompt);
        i += 1;
    }
    assert(all.take(i as int) =~= all);
    Ok(out)
}

/// The system prompt.
pub open spec fn prompt_text(
    workspace: Seq<char>,
    documents: Seq<Document>,
    shown: Seq<SkillPromptView>,
) -> Seq<char> {
    BASE@ + "\nWorkspace: "@ + workspace + "\n"@ + documents_text(documents) + skills_text(shown)
}

/// A timeout in whole milliseconds.
pub open spec fn whole_millis(nanos: u128) -> u64 {
    if nanos / 1_000_000 <= u64::MAX {
        (nanos / 1_000_000) as u64
    } else {
        u64::MAX
    }
}

/// The name of an approval mode.
pub open spec fn mode_name(mode: ToolApprovalMode) -> Seq<char> {
    match mode {
        ToolApprovalMode::Never => "never"@,
        ToolApprovalMode::Mutating => "mutating"@,
        ToolApprovalMode::Always => "always"@,
    }
}

/// How an agent is set up, as it is logged.
pub open spec fn is_snapshot(
    s: RuntimeSnapshot,
    config: AgentConfig,
    version: Seq<char>,
    tools: RegistryView,
    system_prompt: Seq<char>,
    model: Seq<char>,
    model_id: Seq<char>,
    active: Seq<SkillView>,
) -> bool {
    &&& s.noya_version@ == version
    &&& s.workspace@ == config.workspace@
    &&& s.model@ == model
    &&& s.model_id@ == model_id
    &&& s.system_prompt@ == system_prompt
    &&& texts(s.tool_names@) == tool_names(tools.tools)
    &&& s.max_tool_loops == config.max_tool_loops
    &&& s.tool_timeout_ms == whole_millis(config.tool_timeout_nanos)
    &&& s.max_tool_output_bytes == config.max_tool_output_bytes
    &&& s.temperature_bits == Some(config.temperature_bits)
    &&& s.tool_approval_mode@ == mode_name(tools.mode)
    &&& texts(s.blocked_tools@) == tools.blocked
    &&& skill_views(s.active_skills@) == active
}

/// The outcome of beginning a run with an agent's setup, on a session.
pub open spec fn run_started(
    config: AgentConfig,
    version: Seq<char>,
    tools: RegistryView,
    system_prompt: Seq<char>,
    model: Seq<char>,
    model_id: Seq<char>,
    old: SessionView,
    new: SessionView,
    run: Option<RunId>,
    error: Option<Seq<char>>,
) -> bool {
    exists|s: RuntimeSnapshot| #[trigger]
        is_snapshot(
            s,
            config,
            version,
            tools,
            system_prompt,
            model,
            model_id,
            old.projection.meta.active_skills,
        ) && run_begun(old, new, s, run, error)
}

/// The names of the tools.
fn names_of_tools(tools: &ToolRegistry) -> (r: Vec<String>)
    ensures
        texts(r@) == tool_names(tools@.tools),
{
    let definitions = tools.definitions();
    let mut out: Vec<String> = Vec::new();
    let ghost names = tool_names(tools@.tools);
    let mut i: usize = 0;
    while i < definitions.len()
        invariant
            i <= definitions.len(),
            definitions@.len() == names.len(),
            names == tool_names(tools@.tools),
            forall|k: int|
                0 <= k < definitions@.len() ==> (#[trigger] definitions@[k]).function.name@
                    == tools@.tools[k].name,
            texts(out@) == names.take(i as int),
        decreases definitions.len() - i,
    {
        let name = definitions[i].function.name.clone();
        proof {
            crate::text::lemma_texts_push(out@, name);
            assert(names[i as int] == name@);
        }
        out.push(name);
        i += 1;
        assert(names.take(i as int) =~= names.take(i - 1).push(names[i - 1]));
    }
    assert(names.take(i as int) =~= names);
    out
}

/// Begins a run with an agent's setup, on a session.
fn start_runtime(
    session: &mut Session,
    config: &AgentConfig,
    version: &str,
    tools: &ToolRegistry,
    system_prompt: &str,
    model: &str,
    model_id: &str,
) -> (r: Result<RunId, Error>)
    requires
        old(session).wf(),
    ensures
        final(session).wf(),
        run_started(
            *config,
            version@,
            tools@,
            system_prompt@,
            model@,
            model_id@,
            old(session)@,
            final(session)@,
            outcome(r),
            refusal(r),
        ),
{
    let millis: u128 = config.tool_timeout_nanos / 1_000_000;
    let tool_timeout_ms: u64 = if millis <= u64::MAX as u128 {
        millis as u64
    } else {
        u64::MAX
    };
    let snapshot = RuntimeSnapshot {
        noya_version: version.to_owned(),
        workspace: config.workspace.clone(),
        model: model.to_owned(),
        model_id: model_id.to_owned(),
        system_prompt: system_prompt.to_owned(),
        tool_names: names_of_tools(tools),
        max_tool_loops: config.max_tool_loops,
        tool_timeout_ms,
        max_tool_output_bytes: config.max_tool_output_bytes,
        temperature_bits: Some(config.temperature_bits),
        tool_approval_mode: tools.policy().approval_mode.as_str().to_owned(),
        blocked_tools: copy_list(&tools.policy().blocked_tools),
        active_skills: session.active_skills(),
    };
    let ghost given = snapshot;
    assert(is_snapshot(
        given,
        *config,
        version@,
        tools@,
        system_prompt@,
        model@,
        model_id@,
        session@.projection.meta.active_skills,
    ));
    session.start_runtime(snapshot)
}

/// The event of a model that is changed.
pub open spec fn is_model_event(event: SessionEvent, model: Seq<char>, model_id: Seq<char>) -> bool {
    event matches SessionEvent::ModelChanged { model: m, model_id: i } && m@ == model && i@ == model_id
}

/// The outcome of making a session use a model.
pub open spec fn model_changed(
    old: SessionView,
    new: SessionView,
    model: Seq<char>,
    model_id: Seq<char>,
    error: Option<Seq<char>>,
) -> bool {
    let p = old.projection;
    if p.active is Some {
        error == Some("cannot change model during an active turn"@) && new == old
    } else if p.meta.model == model && p.meta.model_id == model_id {
        error is None && new == old
    } else {
        exists|event: SessionEvent| #[trigger]
            is_model_event(event, model, model_id) && logged(old, new, event, None, error)
    }
}

/// Makes a session use a model.
fn change_model(session: &mut Session, model: &str, model_id: &str) -> (r: Result<(), Error>)
    requires
        old(session).wf(),
    ensures
        final(session).wf(),
        model_changed(old(session)@, final(session)@, model@, model_id@, refusal(r)),
{
    let model = model.to_owned();
    let model_id = model_id.to_owned();
    let ghost event = SessionEvent::ModelChanged { model, model_id };
    assert(is_model_event(event, model@, model_id@));
    session.change_model(model, model_id)
}

/// What taking a session up gives, once its model is set: the prompt, the run
/// and the session, or what went wrong.
pub open spec fn entered(
    config: AgentConfig,
    version: Seq<char>,
    tools: RegistryView,
    skills: SkillsView,
    documents: Seq<Document>,
    model: Seq<char>,
    model_id: Seq<char>,
    old: SessionView,
    new: SessionView,
    prompt: Option<Seq<char>>,
    run: Option<RunId>,
    error: Option<Seq<char>>,
) -> bool {
    match prompts_of(skills.skills, by_order(old.projection.meta.active_skills)) {
        Err(m) => error == Some(m) && new == old,
        Ok(shown) => {
            let text = prompt_text(config.workspace@, documents, shown);
            &&& run_started(config, version, tools, text, model, model_id, old, new, run, error)
            &&& error is None ==> prompt == Some(text)
        },
    }
}

/// The outcome of taking a session up.
pub open spec fn taken_up(
    config: AgentConfig,
    version: Seq<char>,
    tools: RegistryView,
    skills: SkillsView,
    documents: Seq<Document>,
    model: Seq<char>,
    model_id: Seq<char>,
    old: SessionView,
    new: SessionView,
    prompt: Option<Seq<char>>,
    run: Option<RunId>,
    error: Option<Seq<char>>,
) -> bool {
    ||| (error is Some && model_changed(old, new, model, model_id, error))
    ||| exists|mid: SessionView| #[trigger]
        model_changed(old, mid, model, model_id, None) && entered(
            config,
            version,
            tools,
            skills,
            documents,
            model,
            model_id,
            mid,
            new,
            prompt,
            run,
            error,
        )
}

/// Takes a session up: its model is set, the prompt is made and a run begins.
fn take_up(
    config: &AgentConfig,
    version: &str,
    tools: &ToolRegistry,
    skills: &SkillRegistry,
    documents: &Vec<Document>,
    model: &str,
    model_id: &str,
    session: &mut Session,
) -> (r: Result<(String, RunId), Error>)
    requires
        old(session).wf(),
    ensures
        final(session).wf(),
        taken_up(
            *config,
            version@,
            tools@,
            skills@,
            documents@,
            model@,
            model_id@,
            old(session)@,
            final(session)@,
            entry_prompt(r),
            entry_run(r),
            refusal(r),
        ),
{
    match change_model(session, model, model_id) {
        Ok(()) => {},
        Err(e) => {
            return Err(e);
        },
    }
    let ghost mid = session@;
    assert(model_changed(old(session)@, mid, model@, model_id@, None));
    let shown = match active_skill_prompts(skills, &session.active_skills()) {
        Ok(shown) => shown,
        Err(e) => {
            return Err(e);
        },
    };
    let prompt = build(config.workspace.as_str(), documents, &shown);
    match start_runtime(session, config, version, tools, prompt.as_str(), model, model_id) {
        Ok(run) => Ok((prompt, run)),
        Err(e) => Err(e),
    }
}

/// The prompt of an outcome.
pub open spec fn entry_prompt(r: Result<(String, RunId), Error>) -> Option<Seq<char>> {
    match r {
        Ok(entry) => Some(entry.0@),
        Err(_) => None,
    }
}

/// The run of an outcome.
pub open spec fn entry_run(r: Result<(String, RunId), Error>) -> Option<RunId> {
    match r {
        Ok(entry) => Some(entry.1),
        Err(_) => None,
    }
}

/// The agent of an outcome.
pub open spec fn agent_of(r: Result<Agent, Error>) -> Option<AgentView> {
    match r {
        Ok(a) => Some(a@),
        Err(_) => None,
    }
}

/// What is wrong with an agent's setup.
pub open spec fn setup_fault(config: AgentConfig, session: SessionView) -> Option<Seq<char>> {
    if config.tool_timeout_nanos == 0 {
        Some("tool timeout must be greater than zero"@)
    } else if config.max_tool_output_bytes < MIN_OUTPUT_BYTES {
        Some("max tool output must be at least 256 bytes"@)
    } else if !same_path(session.projection.meta.workspace, config.workspace@) {
        Some("session workspace does not match agent workspace"@)
    } else {
        None
    }
}

/// The outcome of making an agent for a session.
pub open spec fn agent_made(
    config: AgentConfig,
    version: Seq<char>,
    tools: RegistryView,
    skills: SkillsView,
    documents: Seq<Document>,
    model: Seq<char>,
    model_id: Seq<char>,
    session: SessionView,
    agent: Option<AgentView>,
    error: Option<Seq<char>>,
) -> bool {
    match setup_fault(config, session) {
        Some(m) => error == Some(m),
        None => exists|new: SessionView, prompt: Option<Seq<char>>, run: Option<RunId>| #[trigger]
            taken_up(
                config,
                version,
                tools,
                skills,
                documents,
                model,
                model_id,
                session,
                new,
                prompt,
                run,
                error,
            ) && (error is None ==> prompt is Some && run is Some && agent == Some(
                AgentView {
                    config,
                    version,
                    model_id,
                    tools,
                    skills,
                    session: new,
                    system_prompt: prompt->0,
                    run: run->0,
                },
            )),
    }
}

/// The event of a Skill that is switched on.
pub open spec fn is_activation(
    event: SessionEvent,
    name: Seq<char>,
    source: Seq<char>,
    digest: Seq<char>,
    order: int,
) -> bool {
    event matches SessionEvent::SkillActivated { name: n, source: s, digest: d, order: o } && n@
        == name && s@ == source && d@ == digest && o == order
}

/// The event of a Skill that is switched off.
pub open spec fn is_deactivation(event: SessionEvent, name: Seq<char>) -> bool {
    event matches SessionEvent::SkillDeactivated { name: n } && n@ == name
}

/// The Skill is switched on.
pub open spec fn is_active(active: Seq<SkillView>, name: Seq<char>) -> bool {
    exists|i: int| 0 <= i < active.len() && #[trigger] active[i].name == name
}

/// What the list of active Skills becomes when one is switched on.
pub open spec fn with_skill(active: Seq<SkillView>, skill: LoadedView) -> Seq<SkillView> {
    active.push(
        SkillView {
            name: skill.info.name,
            source: source_name(skill.info.source),
            digest: skill.info.digest,
            order: active.len() as usize,
        },
    )
}

/// The agent with another session, prompt and run.
pub open spec fn moved(a: AgentView, session: SessionView, prompt: Seq<char>, run: RunId) -> AgentView {
    AgentView { session, system_prompt: prompt, run, ..a }
}

/// The outcome of beginning another run on an agent's session, after which the
/// agent has a given prompt whether or not the run began.
pub open spec fn restarted(
    old: AgentView,
    mid: SessionView,
    new: AgentView,
    prompt: Seq<char>,
    error: Option<Seq<char>>,
) -> bool {
    &&& new == moved(old, new.session, prompt, new.run)
    &&& run_started(
        old.config,
        old.version,
        old.tools,
        prompt,
        mid.projection.meta.model,
        old.model_id,
        mid,
        new.session,
        if error is None {
            Some(new.run)
        } else {
            None
        },
        error,
    )
    &&& error is Some ==> new.run == old.run
}

/// The outcome of switching on a Skill that is there and not on yet, and can
/// be shown.
pub open spec fn switched_on(
    old: AgentView,
    new: AgentView,
    skill: LoadedView,
    prompt: Seq<char>,
    event: SessionEvent,
    mid: SessionView,
    error: Option<Seq<char>>,
) -> bool {
    &&& is_activation(
        event,
        skill.info.name,
        source_name(skill.info.source),
        skill.info.digest,
        old.session.projection.meta.active_skills.len() as int,
    )
    &&& ({
        ||| (error is Some && new == old && logged(old.session, mid, event, None, error))
        ||| (logged(old.session, mid, event, None, None) && restarted(
            old,
            mid,
            new,
            prompt,
            error,
        ))
    })
}

/// The outcome of switching on a Skill.
pub open spec fn activated(
    old: AgentView,
    new: AgentView,
    name: Seq<char>,
    documents: Seq<Document>,
    error: Option<Seq<char>>,
) -> bool {
    let active = old.session.projection.meta.active_skills;
    match skill_named(old.skills.skills, name) {
        None => error == Some("Skill '"@ + name + "' was not found"@) && new == old,
        Some(skill) => if is_active(active, name) {
            error is None && new == old
        } else {
            match prompts_of(old.skills.skills, by_order(with_skill(active, skill))) {
                Err(m) => error == Some(m) && new == old,
                Ok(shown) => exists|event: SessionEvent, mid: SessionView| #[trigger]
                    switched_on(
                        old,
                        new,
                        skill,
                        prompt_text(old.config.workspace@, documents, shown),
                        event,
                        mid,
                        error,
                    ),
            }
        },
    }
}

/// What follows once a Skill is switched off in the session.
pub open spec fn after_switching_off(
    old: AgentView,
    mid: SessionView,
    new: AgentView,
    documents: Seq<Document>,
    error: Option<Seq<char>>,
) -> bool {
    match prompts_of(old.skills.skills, by_order(mid.projection.meta.active_skills)) {
        Err(m) => error == Some(m) && new == moved(old, mid, old.system_prompt, old.run),
        Ok(shown) => restarted(
            old,
            mid,
            new,
            prompt_text(old.config.workspace@, documents, shown),
            error,
        ),
    }
}

/// An agent whose session went back to what its log has.
pub open spec fn taken_back(a: AgentView, documents: Seq<Document>) -> AgentView {
    let s = withdrawn(a.session);
    AgentView {
        session: s,
        model_id: s.projection.meta.model_id,
        run: match s.run {
            Some(run) => run,
            None => a.run,
        },
        system_prompt: match prompts_of(
            a.skills.skills,
            by_order(s.projection.meta.active_skills),
        ) {
            Ok(shown) => prompt_text(a.config.workspace@, documents, shown),
            Err(_) => a.system_prompt,
        },
        ..a
    }
}

/// The outcome of switching off a Skill that is on.
pub open spec fn switched_off_outcome(
    old: AgentView,
    new: AgentView,
    name: Seq<char>,
    documents: Seq<Document>,
    event: SessionEvent,
    mid: SessionView,
    error: Option<Seq<char>>,
) -> bool {
    &&& is_deactivation(event, name)
    &&& ({
        ||| (error is Some && new == old && logged(old.session, mid, event, None, error))
        ||| (logged(old.session, mid, event, None, None) && after_switching_off(
            old,
            mid,
            new,
            documents,
            error,
        ))
    })
}

/// The outcome of switching off a Skill.
pub open spec fn deactivated(
    old: AgentView,
    new: AgentView,
    name: Seq<char>,
    documents: Seq<Document>,
    error: Option<Seq<char>>,
) -> bool {
    if !is_active(old.session.projection.meta.active_skills, name) {
        error == Some("Skill '"@ + name + "' is not active"@) && new == old
    } else {
        exists|event: SessionEvent, mid: SessionView| #[trigger]
            switched_off_outcome(old, new, name, documents, event, mid, error)
    }
}

/// Whether a Skill is switched on.
pub fn lists_skill(active: &Vec<ActiveSkillRecord>, name: &str) -> (r: bool)
    ensures
        r == is_active(skill_views(active@), name@),
{
    let ghost all = skill_views(active@);
    let mut i: usize = 0;
    while i < active.len()
        invariant
            i <= active.len(),
            all == skill_views(active@),
            forall|j: int| 0 <= j < i ==> #[trigger] all[j].name != name@,
        decreases active.len() - i,
    {
        if same(active[i].name.as_str(), name) {
            assert(all[i as int].name == name@);
            return true;
        }
        i += 1;
    }
    false
}

/// Whether to compact by itself: where that is not switched off, the model is
/// one whose window is known, and the context fills enough of it.
pub open spec fn compaction_is_due(setting: Option<Seq<char>>, s: SessionView) -> bool {
    &&& (setting matches Some(text) ==> !switched_off(text))
    &&& model_named(s.projection.meta.model) matches Some(m) && window_of(m) matches Some(window)
        && saturated(held(total_tokens(context_messages(s.projection))) as int, 4) >= saturated(
        window as int,
        3,
    )
}

/// A compaction with a summary for a plan.
pub open spec fn is_compaction(
    event: SessionEvent,
    plan: CompactionPlan,
    summary: Seq<char>,
    model_id: Seq<char>,
) -> bool {
    event matches SessionEvent::ContextCompacted(c) && c.summary@ == summary && c.through_seq
        == plan.through_seq && c.through_turn_id == plan.through_turn_id && c.keep_from_turn_id
        == plan.keep_from_turn_id && c.source_token_estimate == plan.source_token_estimate
        && c.summary_model@ == model_id
}

/// The outcome of putting a model's summary in the place of earlier turns.
pub open spec fn compacted(
    old: AgentView,
    new: AgentView,
    plan: CompactionPlan,
    summary: Option<Seq<char>>,
    error: Option<Seq<char>>,
) -> bool {
    match summary {
        None => error == Some("compaction model returned no summary"@) && new == old,
        Some(text) => if blank(text) {
            error == Some("compaction model returned no summary"@) && new == old
        } else if old.session.projection.active is Some {
            error == Some("cannot compact during an active turn"@) && new == old
        } else {
            &&& new == moved(old, new.session, old.system_prompt, old.run)
            &&& exists|event: SessionEvent| #[trigger]
                is_compaction(event, plan, text, old.model_id) && logged(
                    old.session,
                    new.session,
                    event,
                    None,
                    error,
                )
        },
    }
}

impl Agent {
    /// What holds of every agent.
    pub closed spec fn wf(&self) -> bool {
        self.session.wf() && self.skills.wf()
    }

    /// An agent for a session, with a given model. `documents` are those of the
    /// workspace that go into the prompt.
    pub fn with_session_for_model(
        config: AgentConfig,
        version: String,
        tools: ToolRegistry,
        skills: SkillRegistry,
        documents: &Vec<Document>,
        session: Session,
        model: &str,
        model_id: String,
    ) -> (r: Result<Self, Error>)
        requires
            session.wf(),
            skills.wf(),
        ensures
            r matches Ok(a) ==> a.wf(),
            agent_made(
                config,
                version@,
                tools@,
                skills@,
                documents@,
                model@,
                model_id@,
                session@,
                agent_of(r),
                refusal(r),
            ),
    {
        let workspace = session.summary().workspace;
        match check_setup(
            config.tool_timeout_nanos,
            config.max_tool_output_bytes,
            workspace.as_str(),
            config.workspace.as_str(),
        ) {
            Ok(()) => {},
            Err(e) => {
                return Err(e);
            },
        }
        let mut session = session;
        let ghost before = session@;
        match take_up(
            &config,
            version.as_str(),
            &tools,
            &skills,
            documents,
            model,
            model_id.as_str(),
            &mut session,
        ) {
            Ok((system_prompt, run_id)) => {
                assert(taken_up(
                    config,
                    version@,
                    tools@,
                    skills@,
                    documents@,
                    model@,
                    model_id@,
                    before,
                    session@,
                    Some(system_prompt@),
                    Some(run_id),
                    None,
                ));
                Ok(Agent { config, version, model_id, tools, skills, session, system_prompt, run_id })
            },
            Err(e) => {
                assert(taken_up(
                    config,
                    version@,
                    tools@,
                    skills@,
                    documents@,
                    model@,
                    model_id@,
                    before,
                    session@,
                    None,
                    None,
                    Some(e@),
                ));
                Err(e)
            },
        }
    }

    /// An agent for a session, with the model that the session uses.
    pub fn with_session(
        config: AgentConfig,
        version: String,
        tools: ToolRegistry,
        skills: SkillRegistry,
        documents: &Vec<Document>,
        session: Session,
        model_id: String,
    ) -> (r: Result<Self, Error>)
        requires
            session.wf(),
            skills.wf(),
        ensures
            r matches Ok(a) ==> a.wf(),
            agent_made(
                config,
                version@,
                tools@,
                skills@,
                documents@,
                session@.projection.meta.model,
                model_id@,
                session@,
                agent_of(r),
                refusal(r),
            ),
    {
        let model = session.summary().model;
        Self::with_session_for_model(
            config,
            version,
            tools,
            skills,
            documents,
            session,
            model.as_str(),
            model_id,
        )
    }

    /// The session.
    pub fn session(&self) -> (r: &Session)
        ensures
            r@ == self@.session,
            self.wf() ==> r.wf(),
    {
        &self.session
    }

    /// The session, to be worked on.
    pub fn session_mut(&mut self) -> (r: &mut Session)
        requires
            old(self).wf(),
        ensures
            r@ == old(self)@.session,
            r.wf(),
            final(self)@ == (AgentView { session: final(r)@, ..old(self)@ }),
            final(r).wf() ==> final(self).wf(),
    {
        &mut self.session
    }

    /// The session's summary.
    pub fn session_summary(&self) -> (r: SessionSummary)
        ensures
            r@ == self@.session.projection.meta,
    {
        self.session.summary()
    }

    /// The session's transcript.
    pub fn transcript(&self) -> (r: Transcript)
        ensures
            r@ == self@.session.projection.transcript,
    {
        self.session.transcript()
    }

    /// About how many tokens the model is sent.
    pub fn context_token_estimate(&self) -> (r: usize)
        ensures
            r == held(total_tokens(context_messages(self@.session.projection))),
    {
        self.session.context().estimated_tokens
    }

    /// The Skills that are switched on.
    pub fn active_skills(&self) -> (r: Vec<ActiveSkillRecord>)
        ensures
            skill_views(r@) == self@.session.projection.meta.active_skills,
    {
        self.session.active_skills()
    }

    /// The input of the latest turn, where that turn ended badly.
    pub fn retry_input(&self) -> (r: Option<String>)
        ensures
            maybe(r) == self@.session.projection.retry_input,
    {
        self.session.retry_input()
    }

    /// Gives the session a title.
    pub fn rename_session(&mut self, title: &str) -> (r: Result<(), Error>)
        requires
            old(self).wf(),
        ensures
            final(self).wf(),
            renamed(old(self)@.session, final(self)@.session, title@, refusal(r)),
            final(self)@ == (AgentView { session: final(self)@.session, ..old(self)@ }),
    {
        self.session.rename(title)
    }

    /// Begins a new context.
    pub fn reset(&mut self) -> (r: Result<(), Error>)
        requires
            old(self).wf(),
        ensures
            final(self).wf(),
            if old(self)@.session.projection.active is Some {
                &&& r matches Err(e) && e@ == "cannot reset context during an active turn"@
                &&& final(self)@ == old(self)@
            } else {
                &&& logged(
                    old(self)@.session,
                    final(self)@.session,
                    SessionEvent::ContextReset {
                        new_epoch: next_seq(old(self)@.session.projection.meta.context_epoch),
                    },
                    None,
                    refusal(r),
                )
                &&& final(self)@ == (AgentView { session: final(self)@.session, ..old(self)@ })
            },
    {
        self.session.reset_context()
    }

    /// The tools.
    pub fn tools(&self) -> (r: &ToolRegistry)
        ensures
            r@ == self@.tools,
    {
        &self.tools
    }

    /// The setup.
    pub fn config(&self) -> (r: &AgentConfig)
        ensures
            *r == self@.config,
    {
        &self.config
    }

    /// The system prompt.
    pub fn system_prompt(&self) -> (r: &str)
        ensures
            r@ == self@.system_prompt,
    {
        self.system_prompt.as_str()
    }

    /// The run.
    pub fn run_id(&self) -> (r: RunId)
        ensures
            r == self@.run,
    {
        self.run_id
    }

    /// What is known of all Skills, and what was wrong with the others.
    pub fn list_skills(&self) -> (r: (Vec<SkillInfo>, Vec<String>))
        ensures
            r.0@.map_values(|i: SkillInfo| i@) == self@.skills.skills.map_values(
                |s: LoadedView| s.info,
            ),
            texts(r.1@) == self@.skills.warnings,
    {
        (self.skills.list(), self.skills.warnings())
    }

    /// What is known of a Skill.
    pub fn skill_info(&self, name: &str) -> (r: Result<SkillInfo, Error>)
        ensures
            match skill_named(self@.skills.skills, name@) {
                Some(s) => r matches Ok(info) && info@ == s.info,
                None => r matches Err(e) && e@ == "Skill '"@ + name@ + "' was not found"@,
            },
    {
        match self.skills.get(name) {
            Some(info) => Ok(info.clone()),
            None => Err(fail_about("Skill '", name, "' was not found")),
        }
    }

    /// Begins another run on the session, under the current prompt.
    fn restart_runtime(&mut self) -> (r: Result<(), Error>)
        requires
            old(self).wf(),
        ensures
            final(self).wf(),
            restarted(
                old(self)@,
                old(self)@.session,
                final(self)@,
                old(self)@.system_prompt,
                refusal(r),
            ),
    {
        let model = self.session.summary().model;
        let ghost before = self@;
        match start_runtime(
            &mut self.session,
            &self.config,
            self.version.as_str(),
            &self.tools,
            self.system_prompt.as_str(),
            model.as_str(),
            self.model_id.as_str(),
        ) {
            Ok(run) => {
                self.run_id = run;
                Ok(())
            },
            Err(e) => Err(e),
        }
    }

    /// Switches a Skill on. Its instructions go into the prompt, and a new run
    /// begins; nothing happens where it is on already.
    pub fn activate_skill(&mut self, name: &str, documents: &Vec<Document>) -> (r: Result<
        SkillInfo,
        Error,
    >)
        requires
            old(self).wf(),
        ensures
            final(self).wf(),
            activated(old(self)@, final(self)@, name@, documents@, refusal(r)),
            r matches Ok(info) ==> Some(info@) == (match skill_named(
                old(self)@.skills.skills,
                name@,
            ) {
                Some(s) => Some(s.info),
                None => None,
            }),
    {
        let ghost before = self@;
        let info = match self.skill_info(name) {
            Ok(info) => info,
            Err(e) => {
                return Err(e);
            },
        };
        let ghost skill = skill_named(self@.skills.skills, name@)->0;
        let mut active = self.session.active_skills();
        if lists_skill(&active, name) {
            return Ok(info);
        }
        let order: usize = active.len();
        let source = info.source.to_text().to_owned();
        let record = ActiveSkillRecord {
            name: info.name.clone(),
            source: source.clone(),
            digest: info.digest.clone(),
            order,
        };
        let ghost view = record@;
        let ghost listed = skill_views(active@);
        active.push(record);
        assert(skill_views(active@) =~= listed.push(view));
        assert(skill_views(active@) =~= with_skill(listed, skill));
        let shown = match active_skill_prompts(&self.skills, &active) {
            Ok(shown) => shown,
            Err(e) => {
                return Err(e);
            },
        };
        let system = build(self.config.workspace.as_str(), documents, &shown);
        let ghost prompt = system@;
        assert(skill_views(active@) == with_skill(
            before.session.projection.meta.active_skills,
            skill,
        ));
        assert(prompt == prompt_text(
            before.config.workspace@,
            documents@,
            skill_prompt_views(shown@),
        ));
        let event_name = info.name.clone();
        let event_digest = info.digest.clone();
        let ghost event = SessionEvent::SkillActivated {
            name: event_name,
            source,
            digest: event_digest,
            order,
        };
        match self.session.activate_skill(event_name, source, event_digest, order) {
            Ok(()) => {},
            Err(e) => {
                assert(switched_on(
                    before,
                    self@,
                    skill,
                    prompt,
                    event,
                    self@.session,
                    Some(e@),
                ));
                return Err(e);
            },
        }
        let ghost mid = self.session@;
        self.system_prompt = system;
        match self.restart_runtime() {
            Ok(()) => {
                assert(switched_on(before, self@, skill, prompt, event, mid, None));
                Ok(info)
            },
            Err(e) => {
                assert(switched_on(before, self@, skill, prompt, event, mid, Some(e@)));
                Err(e)
            },
        }
    }

    /// Switches a Skill off.
    pub fn deactivate_skill(&mut self, name: &str, documents: &Vec<Document>) -> (r: Result<
        (),
        Error,
    >)
        requires
            old(self).wf(),
        ensures
            final(self).wf(),
            deactivated(old(self)@, final(self)@, name@, documents@, refusal(r)),
    {
        let ghost before = self@;
        let active = self.session.active_skills();
        if !lists_skill(&active, name) {
            return Err(fail_about("Skill '", name, "' is not active"));
        }
        let given = name.to_owned();
        let ghost event = SessionEvent::SkillDeactivated { name: given };
        match self.session.deactivate_skill(given) {
            Ok(()) => {},
            Err(e) => {
                assert(switched_off_outcome(
                    before,
                    self@,
                    name@,
                    documents@,
                    event,
                    self@.session,
                    Some(e@),
                ));
                return Err(e);
            },
        }
        let ghost mid = self.session@;
        let shown = match active_skill_prompts(&self.skills, &self.session.active_skills()) {
            Ok(shown) => shown,
            Err(e) => {
                assert(switched_off_outcome(
                    before,
                    self@,
                    name@,
                    documents@,
                    event,
                    mid,
                    Some(e@),
                ));
                return Err(e);
            },
        };
        self.system_prompt = build(self.config.workspace.as_str(), documents, &shown);
        match self.restart_runtime() {
            Ok(()) => {
                assert(switched_off_outcome(
                    before,
                    self@,
                    name@,
                    documents@,
                    event,
                    mid,
                    None,
                ));
                Ok(())
            },
            Err(e) => {
                assert(switched_off_outcome(
                    before,
                    self@,
                    name@,
                    documents@,
                    event,
                    mid,
                    Some(e@),
                ));
                Err(e)
            },
        }
    }

    /// Goes over to another session of the same workspace, with the same model.
    pub fn replace_session(&mut self, session: Session, documents: &Vec<Document>) -> (r: Result<
        (),
        Error,
    >)
        requires
            old(self).wf(),
            session.wf(),
        ensures
            final(self).wf(),
            replaced(old(self)@, final(self)@, session@, documents@, refusal(r)),
    {
        let ghost before = self@;
        let workspace = session.summary().workspace;
        if !is_same_path(workspace.as_str(), self.config.workspace.as_str()) {
            return Err(fail("session workspace does not match agent workspace"));
        }
        let model = self.session.summary().model;
        let mut session = session;
        let ghost given = session@;
        match take_up(
            &self.config,
            self.version.as_str(),
            &self.tools,
            &self.skills,
            documents,
            model.as_str(),
            self.model_id.as_str(),
            &mut session,
        ) {
            Ok((system_prompt, run_id)) => {
                assert(gone_over(
                    before,
                    given,
                    documents@,
                    session@,
                    Some(system_prompt@),
                    Some(run_id),
                    None,
                ));
                self.session = session;
                self.system_prompt = system_prompt;
                self.run_id = run_id;
                Ok(())
            },
            Err(e) => {
                assert(gone_over(before, given, documents@, session@, None, None, Some(e@)));
                Err(e)
            },
        }
    }

    /// Goes back to what the session's log has, when an event could not be
    /// written: the model, the run and the Skills in the prompt are those of the
    /// session as it was kept.
    pub fn withdraw(&mut self, documents: &Vec<Document>)
        requires
            old(self).wf(),
        ensures
            final(self).wf(),
            final(self)@ == taken_back(old(self)@, documents@),
    {
        self.session.withdraw();
        self.model_id = self.session.summary().model_id;
        if let Some(run) = self.session.current_run() {
            self.run_id = run;
        }
        match active_skill_prompts(&self.skills, &self.session.active_skills()) {
            Ok(shown) => {
                self.system_prompt = build(self.config.workspace.as_str(), documents, &shown);
            },
            Err(_) => {},
        }
        assert(self@ =~= taken_back(old(self)@, documents@));
    }

    /// Goes over to another model.
    pub fn switch_model(&mut self, model: &str, model_id: String) -> (r: Result<(), Error>)
        requires
            old(self).wf(),
        ensures
            final(self).wf(),
            model_switched(old(self)@, final(self)@, model@, model_id@, refusal(r)),
    {
        let ghost before = self@;
        match change_model(&mut self.session, model, model_id.as_str()) {
            Ok(()) => {},
            Err(e) => {
                return Err(e);
            },
        }
        let ghost mid = self.session@;
        assert(model_changed(before.session, mid, model@, model_id@, None));
        match start_runtime(
            &mut self.session,
            &self.config,
            self.version.as_str(),
            &self.tools,
            self.system_prompt.as_str(),
            model,
            model_id.as_str(),
        ) {
            Ok(run) => {
                self.model_id = model_id;
                self.run_id = run;
                Ok(())
            },
            Err(e) => Err(e),
        }
    }

    /// Whether to compact by itself, where `setting` is what the environment
    /// says of that.
    pub fn should_auto_compact(&self, setting: Option<String>) -> (r: bool)
        ensures
            r == compaction_is_due(maybe(setting), self@.session),
    {
        if !crate::agent::turn::auto_compact_enabled(setting) {
            return false;
        }
        let model = self.session.summary().model;
        match Model::parse(model.as_str()) {
            Err(_) => false,
            Ok(model) => match model.context_window() {
                None => false,
                Some(window) => self.session.should_auto_compact(window),
            },
        }
    }

    /// Puts a model's summary in the place of the turns of a plan.
    pub fn apply_summary(&mut self, plan: CompactionPlan, summary: Option<String>) -> (r: Result<
        (),
        Error,
    >)
        requires
            old(self).wf(),
        ensures
            final(self).wf(),
            compacted(old(self)@, final(self)@, plan, maybe(summary), refusal(r)),
    {
        let summary = match summary {
            Some(text) => if is_blank(text.as_str()) {
                return Err(fail("compaction model returned no summary"));
            } else {
                text
            },
            None => {
                return Err(fail("compaction model returned no summary"));
            },
        };
        let record = CompactionRecord {
            summary,
            through_seq: plan.through_seq,
            through_turn_id: plan.through_turn_id,
            keep_from_turn_id: plan.keep_from_turn_id,
            source_token_estimate: plan.source_token_estimate,
            summary_model: self.model_id.clone(),
        };
        let ghost event = SessionEvent::ContextCompacted(record);
        assert(is_compaction(event, plan, summary@, self@.model_id));
        self.session.apply_compaction(record)
    }
}

/// The outcome of taking a session up with an agent's setup.
pub open spec fn gone_over(
    a: AgentView,
    session: SessionView,
    documents: Seq<Document>,
    new: SessionView,
    prompt: Option<Seq<char>>,
    run: Option<RunId>,
    error: Option<Seq<char>>,
) -> bool {
    taken_up(
        a.config,
        a.version,
        a.tools,
        a.skills,
        documents,
        a.session.projection.meta.model,
        a.model_id,
        session,
        new,
        prompt,
        run,
        error,
    )
}

/// The outcome of going over to another session: the agent has it, or stays as
/// it is.
pub open spec fn replaced(
    old: AgentView,
    new: AgentView,
    session: SessionView,
    documents: Seq<Document>,
    error: Option<Seq<char>>,
) -> bool {
    if !same_path(session.projection.meta.workspace, old.config.workspace@) {
        error == Some("session workspace does not match agent workspace"@) && new == old
    } else {
        exists|next: SessionView, prompt: Option<Seq<char>>, run: Option<RunId>| #[trigger]
            gone_over(old, session, documents, next, prompt, run, error) && match error {
                Some(_) => new == old,
                None => prompt is Some && run is Some && new == moved(old, next, prompt->0, run->0),
            }
    }
}

/// The outcome of going over to another model. Where the session accepts the
/// model but no run begins, the session keeps the model.
pub open spec fn model_switched(
    old: AgentView,
    new: AgentView,
    model: Seq<char>,
    model_id: Seq<char>,
    error: Option<Seq<char>>,
) -> bool {
    ||| (error is Some && new == old && model_changed(
        old.session,
        new.session,
        model,
        model_id,
        error,
    ))
    ||| exists|mid: SessionView| #[trigger]
        model_changed(old.session, mid, model, model_id, None) && run_started(
            old.config,
            old.version,
            old.tools,
            old.system_prompt,
            model,
            model_id,
            mid,
            new.session,
            if error is None {
                Some(new.run)
            } else {
                None
            },
            error,
        ) && (match error {
            None => new == (AgentView { model_id, session: new.session, run: new.run, ..old }),
            Some(_) => new == (AgentView { session: new.session, ..old }),
        })
}

} // verus!
