//! What a worker reports once something was done, and what it decides before
//! it switches models.
use crate::error::{fail, fail_with, Error};
use crate::model::{
    default_of, model_named, name_of, resolved, CredentialStore, EnvironmentKeys, Model,
    ModelOverrides, RuntimeModelConfig, RuntimeView,
};
use crate::skills::{source_name, SkillInfo, SkillInfoView};
use crate::text::{lists, lowered, same, texts, trimmed};
use crate::tui::listing::{render_skill, skill_text};
use vstd::prelude::*;

verus! {

/// What is reported: a failure of the agent, a notice, a command that failed,
/// or that the session is to be shown anew, in part or as a whole.
#[derive(Debug, PartialEq, Eq)]
pub enum Report {
    Failed(String),
    Notice(String),
    CommandFailed(String),
    SessionUpdated,
    SessionChanged,
}

/// The view of what is reported.
#[verifier::ext_equal]
pub enum ReportView {
    Failed(Seq<char>),
    Notice(Seq<char>),
    CommandFailed(Seq<char>),
    SessionUpdated,
    SessionChanged,
}

impl View for Report {
    type V = ReportView;

    open spec fn view(&self) -> ReportView {
        match *self {
            Report::Failed(text) => ReportView::Failed(text@),
            Report::Notice(text) => ReportView::Notice(text@),
            Report::CommandFailed(text) => ReportView::CommandFailed(text@),
            Report::SessionUpdated => ReportView::SessionUpdated,
            Report::SessionChanged => ReportView::SessionChanged,
        }
    }
}

/// The views of what is reported.
pub open spec fn report_views(v: Seq<Report>) -> Seq<ReportView> {
    v.map_values(|r: Report| r@)
}

fn one(report: Report) -> (r: Vec<Report>)
    ensures
        report_views(r@) == seq![report@],
{
    let mut out: Vec<Report> = Vec::new();
    out.push(report);
    assert(report_views(out@) =~= seq![report@]);
    out
}

fn two(first: Report, second: Report) -> (r: Vec<Report>)
    ensures
        report_views(r@) == seq![first@, second@],
{
    let mut out: Vec<Report> = Vec::new();
    out.push(first);
    out.push(second);
    assert(report_views(out@) =~= seq![first@, second@]);
    out
}

fn sentence(before: &str, detail: &str) -> (r: String)
    ensures
        r@ == before@ + detail@,
{
    let mut out: String = before.to_owned();
    out.append(detail);
    out
}

fn about(before: &str, name: &str, after: &str, detail: &str) -> (r: String)
    ensures
        r@ == before@ + name@ + after@ + detail@,
{
    let mut out: String = before.to_owned();
    out.append(name);
    out.append(after);
    out.append(detail);
    out
}

/// What is reported at the end of a turn: why it failed, what became of the
/// compaction behind it, and that the session is to be shown anew.
pub fn turn_reports(result: Result<(), Error>, compacted: Result<bool, Error>) -> (r: Vec<Report>)
    ensures
        report_views(r@) == (match result {
            Ok(_) => Seq::empty(),
            Err(e) => seq![ReportView::Failed(e@)],
        } + match compacted {
            Ok(done) => if done {
                seq![ReportView::Notice("Session context was compacted automatically."@)]
            } else {
                Seq::empty()
            },
            Err(e) => seq![ReportView::Failed("Automatic compaction failed: "@ + e@)],
        }).push(ReportView::SessionUpdated),
{
    let mut out: Vec<Report> = Vec::new();
    match result {
        Ok(()) => {},
        Err(error) => {
            out.push(Report::Failed(error.message));
        },
    }
    match compacted {
        Ok(done) => {
            if done {
                out.push(
                    Report::Notice("Session context was compacted automatically.".to_owned()),
                );
            }
        },
        Err(error) => {
            out.push(
                Report::Failed(sentence("Automatic compaction failed: ", error.message.as_str())),
            );
        },
    }
    out.push(Report::SessionUpdated);
    assert(report_views(out@) =~= (match result {
        Ok(_) => Seq::empty(),
        Err(e) => seq![ReportView::Failed(e@)],
    } + match compacted {
        Ok(done) => if done {
            seq![ReportView::Notice("Session context was compacted automatically."@)]
        } else {
            Seq::empty()
        },
        Err(e) => seq![ReportView::Failed("Automatic compaction failed: "@ + e@)],
    }).push(ReportView::SessionUpdated));
    out
}

/// What is reported when the context was to be reset.
pub fn reset_reports(result: Result<(), Error>) -> (r: Vec<Report>)
    ensures
        report_views(r@) == (match result {
            Ok(_) => seq![ReportView::Notice("Context reset."@), ReportView::SessionUpdated],
            Err(e) => seq![ReportView::Failed("Failed to reset context: "@ + e@)],
        }),
{
    match result {
        Ok(()) => two(Report::Notice("Context reset.".to_owned()), Report::SessionUpdated),
        Err(error) => one(
            Report::Failed(sentence("Failed to reset context: ", error.message.as_str())),
        ),
    }
}

/// What is reported when a session was to be created.
pub fn creation_reports(result: Result<(), Error>) -> (r: Vec<Report>)
    ensures
        report_views(r@) == (match result {
            Ok(_) => seq![ReportView::SessionChanged],
            Err(e) => seq![ReportView::Failed("Failed to create session: "@ + e@)],
        }),
{
    match result {
        Ok(()) => one(Report::SessionChanged),
        Err(error) => one(
            Report::Failed(sentence("Failed to create session: ", error.message.as_str())),
        ),
    }
}

/// What is reported when a session was to be resumed.
pub fn resumption_reports(result: Result<(), Error>) -> (r: Vec<Report>)
    ensures
        report_views(r@) == (match result {
            Ok(_) => seq![ReportView::SessionChanged],
            Err(e) => seq![ReportView::Failed("Failed to resume session: "@ + e@)],
        }),
{
    match result {
        Ok(()) => one(Report::SessionChanged),
        Err(error) => one(
            Report::Failed(sentence("Failed to resume session: ", error.message.as_str())),
        ),
    }
}

/// What is reported when a session was to be renamed.
pub fn renaming_reports(result: Result<(), Error>) -> (r: Vec<Report>)
    ensures
        report_views(r@) == (match result {
            Ok(_) => seq![ReportView::SessionUpdated, ReportView::Notice("Session renamed."@)],
            Err(e) => seq![ReportView::Failed("Failed to rename session: "@ + e@)],
        }),
{
    match result {
        Ok(()) => two(Report::SessionUpdated, Report::Notice("Session renamed.".to_owned())),
        Err(error) => one(
            Report::Failed(sentence("Failed to rename session: ", error.message.as_str())),
        ),
    }
}

/// What is reported when the context was to be compacted.
pub fn compaction_reports(result: Result<bool, Error>) -> (r: Vec<Report>)
    ensures
        report_views(r@) == (match result {
            Ok(done) => if done {
                seq![
                    ReportView::Notice(
                        "Session context compacted; full transcript remains available."@,
                    ),
                    ReportView::SessionUpdated,
                ]
            } else {
                seq![
                    ReportView::Notice(
                        "Nothing to compact; at least four recent completed turns are always retained."@,
                    ),
                ]
            },
            Err(e) => seq![ReportView::Failed("Failed to compact session: "@ + e@)],
        }),
{
    match result {
        Ok(done) => {
            if done {
                two(
                    Report::Notice(
                        "Session context compacted; full transcript remains available.".to_owned(),
                    ),
                    Report::SessionUpdated,
                )
            } else {
                one(
                    Report::Notice(
                        "Nothing to compact; at least four recent completed turns are always retained.".to_owned(),
                    ),
                )
            }
        },
        Err(error) => one(
            Report::Failed(sentence("Failed to compact session: ", error.message.as_str())),
        ),
    }
}

/// What is said once a Skill is switched on.
pub open spec fn activated_text(s: SkillInfoView) -> Seq<char> {
    "Activated Skill '"@ + s.name + "' ("@ + source_name(s.source) + ", "@ + s.digest + ")."@
}

/// What is reported when a Skill was to be switched on.
pub fn activation_reports(name: &str, result: Result<SkillInfo, Error>) -> (r: Vec<Report>)
    ensures
        report_views(r@) == (match result {
            Ok(info) => seq![
                ReportView::Notice(activated_text(info@)),
                ReportView::SessionUpdated,
            ],
            Err(e) => seq![
                ReportView::Failed("Failed to activate Skill '"@ + name@ + "': "@ + e@),
            ],
        }),
{
    match result {
        Ok(info) => {
            let mut text: String = "Activated Skill '".to_owned();
            text.append(info.name.as_str());
            text.append("' (");
            text.append(info.source.to_text());
            text.append(", ");
            text.append(info.digest.as_str());
            text.append(").");
            two(Report::Notice(text), Report::SessionUpdated)
        },
        Err(error) => one(
            Report::Failed(
                about("Failed to activate Skill '", name, "': ", error.message.as_str()),
            ),
        ),
    }
}

/// What is reported when a Skill was to be switched off.
pub fn deactivation_reports(name: &str, result: Result<(), Error>) -> (r: Vec<Report>)
    ensures
        report_views(r@) == (match result {
            Ok(_) => seq![
                ReportView::Notice("Deactivated Skill '"@ + name@ + "'"@ + "."@),
                ReportView::SessionUpdated,
            ],
            Err(e) => seq![
                ReportView::Failed("Failed to deactivate Skill '"@ + name@ + "': "@ + e@),
            ],
        }),
{
    match result {
        Ok(()) => two(
            Report::Notice(about("Deactivated Skill '", name, "'", ".")),
            Report::SessionUpdated,
        ),
        Err(error) => one(
            Report::Failed(
                about("Failed to deactivate Skill '", name, "': ", error.message.as_str()),
            ),
        ),
    }
}

/// What is reported when a Skill was to be shown.
pub fn skill_reports(name: &str, result: Result<SkillInfo, Error>, active: bool) -> (r: Vec<Report>)
    ensures
        report_views(r@) == (match result {
            Ok(info) => seq![ReportView::Notice(skill_text(info@, active))],
            Err(e) => seq![ReportView::Failed("Failed to show Skill '"@ + name@ + "': "@ + e@)],
        }),
{
    match result {
        Ok(info) => one(Report::Notice(render_skill(&info, active))),
        Err(error) => one(
            Report::Failed(about("Failed to show Skill '", name, "': ", error.message.as_str())),
        ),
    }
}

/// What is reported when the session was to use another model.
pub fn switch_reports(result: Result<String, Error>) -> (r: Vec<Report>)
    ensures
        report_views(r@) == (match result {
            Ok(text) => seq![ReportView::SessionUpdated, ReportView::Notice(text@)],
            Err(e) => seq![ReportView::CommandFailed("Failed to switch model: "@ + e@)],
        }),
{
    match result {
        Ok(text) => two(Report::SessionUpdated, Report::Notice(text)),
        Err(error) => one(
            Report::CommandFailed(sentence("Failed to switch model: ", error.message.as_str())),
        ),
    }
}

/// What is reported when a model was to be set up.
pub fn configuration_reports(result: Result<String, Error>) -> (r: Vec<Report>)
    ensures
        report_views(r@) == (match result {
            Ok(text) => seq![ReportView::SessionUpdated, ReportView::Notice(text@)],
            Err(e) => seq![ReportView::CommandFailed("Failed to configure model: "@ + e@)],
        }),
{
    match result {
        Ok(text) => two(Report::SessionUpdated, Report::Notice(text)),
        Err(error) => one(
            Report::CommandFailed(sentence("Failed to configure model: ", error.message.as_str())),
        ),
    }
}

/// A model and one of its service's models, in words.
pub open spec fn pair_text(before: Seq<char>, model: Seq<char>, model_id: Seq<char>) -> Seq<char> {
    before + model + " ("@ + model_id + ")."@
}

fn pair(before: &str, model: &str, model_id: &str) -> (r: String)
    ensures
        r@ == pair_text(before@, model@, model_id@),
{
    let mut out: String = before.to_owned();
    out.append(model);
    out.append(" (");
    out.append(model_id);
    out.append(").");
    out
}

/// What is said once the session uses another model.
pub fn switched_text(model: Model, model_id: &str) -> (r: String)
    ensures
        r@ == pair_text("Switched this session to "@, name_of(model), model_id@),
{
    pair("Switched this session to ", model.id(), model_id)
}

/// What is said once a model is set up.
pub fn configured_text(model: Model, model_id: &str) -> (r: String)
    ensures
        r@ == pair_text("Configured and switched to "@, name_of(model), model_id@),
{
    pair("Configured and switched to ", model.id(), model_id)
}

/// What is done about the wish for another model.
#[derive(Debug)]
pub enum SwitchPlan {
    /// There is no such model.
    Refuse(Error),
    /// There is no key for it: it has to be set up first.
    SetUp { model: Model, base_url: String },
    /// The session uses it already.
    Keep(String),
    /// The session is to use it, and reaches it this way.
    Use(RuntimeModelConfig),
}

/// The view of what is done about the wish for another model.
pub enum PlanView {
    Refuse(Seq<char>),
    SetUp { model: Model, base_url: Seq<char> },
    Keep(Seq<char>),
    Use(RuntimeView),
}

impl View for SwitchPlan {
    type V = PlanView;

    open spec fn view(&self) -> PlanView {
        match *self {
            SwitchPlan::Refuse(e) => PlanView::Refuse(e@),
            SwitchPlan::SetUp { model, base_url } => PlanView::SetUp { model, base_url: base_url@ },
            SwitchPlan::Keep(text) => PlanView::Keep(text@),
            SwitchPlan::Use(config) => PlanView::Use(config@),
        }
    }
}

/// What is said of a name that is no model's.
pub open spec fn no_such_model(name: Seq<char>) -> Seq<char> {
    "unsupported model '"@ + lowered(trimmed(name))
        + "'; supported models: openai, deepseek, qwen, kimi"@
}

/// What is said for a run about its model alone.
pub open spec fn only_model(model: Model) -> ModelOverrides {
    ModelOverrides { model: Some(model), api_key: None, base_url: None, model_id: None }
}

/// What is done about the wish for another model.
pub open spec fn plan_for(
    name: Seq<char>,
    current_model: Seq<char>,
    current_id: Seq<char>,
    store: crate::model::StoreView,
    environment: EnvironmentKeys,
) -> PlanView {
    match model_named(name) {
        None => PlanView::Refuse(no_such_model(name)),
        Some(m) => {
            let config = resolved(only_model(m), store, environment);
            if config.api_key.len() == 0 {
                PlanView::SetUp { model: m, base_url: config.base_url }
            } else if current_model == name_of(m) {
                PlanView::Keep(pair_text("Already using "@, name_of(m), current_id))
            } else {
                PlanView::Use(config)
            }
        },
    }
}

/// What is done about the wish for another model.
pub fn plan_switch(
    name: &str,
    current_model: &str,
    current_id: &str,
    store: &CredentialStore,
    environment: EnvironmentKeys,
) -> (r: SwitchPlan)
    requires
        store.wf(),
    ensures
        r@ == plan_for(name@, current_model@, current_id@, store@, environment),
{
    let model = match Model::parse(name) {
        Ok(model) => model,
        Err(error) => {
            return SwitchPlan::Refuse(error);
        },
    };
    let overrides = ModelOverrides {
        model: Some(model),
        api_key: None,
        base_url: None,
        model_id: None,
    };
    let config = RuntimeModelConfig::resolve(overrides, store, environment);
    if config.api_key.as_str().is_empty() {
        return SwitchPlan::SetUp { model, base_url: config.base_url };
    }
    if same(current_model, model.id()) {
        return SwitchPlan::Keep(pair("Already using ", model.id(), current_id));
    }
    SwitchPlan::Use(config)
}

/// How a session reaches one of a service's models; refused without a key.
pub fn plan_switch_to(
    name: &str,
    model_id: String,
    store: &CredentialStore,
    environment: EnvironmentKeys,
) -> (r: Result<RuntimeModelConfig, Error>)
    requires
        store.wf(),
    ensures
        match model_named(name@) {
            None => r matches Err(e) && e@ == no_such_model(name@),
            Some(m) => {
                let config = resolved(
                    ModelOverrides { model_id: Some(model_id), ..only_model(m) },
                    store@,
                    environment,
                );
                if config.api_key.len() == 0 {
                    r matches Err(e) && e@ == "no API credential configured for "@ + name_of(m)
                } else {
                    r matches Ok(c) && c@ == config
                }
            },
        },
{
    let model = match Model::parse(name) {
        Ok(model) => model,
        Err(error) => {
            return Err(error);
        },
    };
    let overrides = ModelOverrides {
        model: Some(model),
        api_key: None,
        base_url: None,
        model_id: Some(model_id),
    };
    let config = RuntimeModelConfig::resolve(overrides, store, environment);
    if config.api_key.as_str().is_empty() {
        return Err(fail_with("no API credential configured for ", model.id()));
    }
    Ok(config)
}

/// Which model a session falls back to when its service lists its models anew:
/// none where the session uses another service, or its model is still listed;
/// the default model where that is listed, and the first one otherwise.
pub open spec fn fallback_of(
    provider: Model,
    current_model: Seq<char>,
    current_id: Seq<char>,
    ids: Seq<Seq<char>>,
) -> Result<Option<Seq<char>>, Seq<char>> {
    if current_model != name_of(provider) || ids.contains(current_id) {
        Ok(None)
    } else if ids.len() == 0 {
        Err("discovered model catalog is empty"@)
    } else if ids.contains(default_of(provider)) {
        Ok(Some(default_of(provider)))
    } else {
        Ok(Some(ids[0]))
    }
}

/// Which model a session falls back to when its service lists its models anew.
pub fn catalog_fallback(
    provider: Model,
    current_model: &str,
    current_id: &str,
    ids: &Vec<String>,
) -> (r: Result<Option<String>, Error>)
    ensures
        match fallback_of(provider, current_model@, current_id@, texts(ids@)) {
            Ok(f) => r matches Ok(found) && crate::text::maybe(found) == f,
            Err(m) => r matches Err(e) && e@ == m,
        },
{
    if !same(current_model, provider.id()) || lists(ids, current_id) {
        return Ok(None);
    }
    if ids.len() == 0 {
        return Err(fail("discovered model catalog is empty"));
    }
    if lists(ids, provider.default_model_id()) {
        return Ok(Some(provider.default_model_id().to_owned()));
    }
    assert(texts(ids@)[0] == ids@[0]@);
    Ok(Some(ids[0].clone()))
}

/// A session falls back to nothing but a listed model.
pub proof fn a_fallback_is_listed(
    provider: Model,
    current_model: Seq<char>,
    current_id: Seq<char>,
    ids: Seq<Seq<char>>,
)
    ensures
        fallback_of(provider, current_model, current_id, ids) matches Ok(Some(id))
            ==> ids.contains(id) && id != current_id,
{
}

} // verus!
