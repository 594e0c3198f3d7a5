//! The workers behind the interface: what is asked of them, and what their
//! reports do to it.
use crate::agent::control::{ApprovalDecision, ApprovalRequest};
use crate::agent::event::{AgentEvent, AgentEventView};
use crate::error::{fail_about, Error};
use crate::model::{name_of, AuthenticationMode, Model, ProviderProtocol};
use crate::paths::{is_same_path, place};
use crate::session::manager::summary_views;
use crate::session::model::{ItemView, SessionSummary, SummaryView, Transcript};
use crate::text::{decimal, decimal_of, same, texts};
use crate::tui::app::{
    after_event, choice_views, choosing, choosing_id, loaded, menu_closed, notified,
    setting_up, updated, whole_message, with_input, with_message, ActionView, AgentState, App,
    AppMode, AppView, ChoiceView, DecisionView, Message, MessageKind, ModelChoice, RequestView,
    SetupStage, SetupView, TuiAction,
};
use crate::tui::listing::{render_session_list, session_list_text};
use vstd::prelude::*;

verus! {

/// How many workers there are at most where nothing is set.
pub const DEFAULT_MAX_WORKERS: usize = 4;

/// How many workers there are at most.
pub fn worker_limit(max_workers: usize) -> (r: usize)
    ensures
        r == (if max_workers == 0 {
            DEFAULT_MAX_WORKERS
        } else {
            max_workers
        }),
{
    if max_workers == 0 {
        DEFAULT_MAX_WORKERS
    } else {
        max_workers
    }
}

/// What a worker is doing.
#[derive(Debug, Clone, Copy, PartialEq, Eq, Structural)]
pub enum WorkerStatus {
    Idle,
    Running,
    WaitingApproval,
    Error,
}

/// What the agent of a worker is doing; one that is not there has failed.
pub open spec fn state_of(status: Option<WorkerStatus>) -> AgentState {
    match status {
        Some(WorkerStatus::Idle) => AgentState::Idle,
        Some(WorkerStatus::Running) => AgentState::Thinking,
        Some(WorkerStatus::WaitingApproval) => AgentState::WaitingApproval,
        Some(WorkerStatus::Error) => AgentState::Error,
        None => AgentState::Error,
    }
}

/// What the agent of a worker is doing.
pub fn agent_state_for_worker(status: Option<WorkerStatus>) -> (r: AgentState)
    ensures
        r == state_of(status),
{
    match status {
        Some(WorkerStatus::Idle) => AgentState::Idle,
        Some(WorkerStatus::Running) => AgentState::Thinking,
        Some(WorkerStatus::WaitingApproval) => AgentState::WaitingApproval,
        Some(WorkerStatus::Error) => AgentState::Error,
        None => AgentState::Error,
    }
}

/// The name of what a worker is doing.
pub open spec fn status_label(status: WorkerStatus) -> Seq<char> {
    match status {
        WorkerStatus::Idle => "idle"@,
        WorkerStatus::Running => "running"@,
        WorkerStatus::WaitingApproval => "waiting approval"@,
        WorkerStatus::Error => "error"@,
    }
}

/// The name of what a worker is doing.
pub fn worker_status_label(status: WorkerStatus) -> (r: &'static str)
    ensures
        r@ == status_label(status),
{
    match status {
        WorkerStatus::Idle => "idle",
        WorkerStatus::Running => "running",
        WorkerStatus::WaitingApproval => "waiting approval",
        WorkerStatus::Error => "error",
    }
}

/// How many workers a limit allows; one in any case.
pub open spec fn allowed(max_workers: usize) -> usize {
    if max_workers == 0 {
        1
    } else {
        max_workers
    }
}

/// Checks that there is room for one more worker.
pub fn ensure_worker_capacity(current: usize, max_workers: usize) -> (r: Result<(), Error>)
    ensures
        if current < allowed(max_workers) {
            r is Ok
        } else {
            r matches Err(e) && e@ == "Worker limit reached ("@ + decimal(
                allowed(max_workers) as nat,
            ) + ")"@
        },
{
    let limit: usize = if max_workers == 0 {
        1
    } else {
        max_workers
    };
    if current < limit {
        return Ok(());
    }
    Err(fail_about("Worker limit reached (", decimal_of(limit as u64).as_str(), ")"))
}

/// What is sent to a worker.
#[derive(Debug)]
pub enum AgentCommand {
    Do(TuiAction),
    CatalogDiscovered { provider: Model, base_url: String, model_ids: Vec<String> },
    Shutdown,
}

/// What a worker does with something that comes while a turn runs.
#[derive(Debug, Clone, Copy, PartialEq, Eq, Structural)]
pub enum BusyStep {
    CancelTurn,
    Stop,
    Defer,
    ListSessions,
    ListModels,
    Refuse,
}

/// What a worker does with a command while a turn runs.
pub open spec fn busy_step(command: AgentCommand) -> BusyStep {
    match command {
        AgentCommand::Do(action) => if action@ is Cancel {
            BusyStep::CancelTurn
        } else if action@ is ListSessions {
            BusyStep::ListSessions
        } else if action@ is ListModels {
            BusyStep::ListModels
        } else {
            BusyStep::Refuse
        },
        AgentCommand::CatalogDiscovered { provider: _, base_url: _, model_ids: _ } => {
            BusyStep::Defer
        },
        AgentCommand::Shutdown => BusyStep::Stop,
    }
}

/// What a worker does with a command while a turn runs.
pub fn on_busy_command(command: &AgentCommand) -> (r: BusyStep)
    ensures
        r == busy_step(*command),
{
    match command {
        AgentCommand::Do(action) => match action {
            TuiAction::Cancel => BusyStep::CancelTurn,
            TuiAction::ListSessions => BusyStep::ListSessions,
            TuiAction::ListModels => BusyStep::ListModels,
            _ => BusyStep::Refuse,
        },
        AgentCommand::CatalogDiscovered { provider: _, base_url: _, model_ids: _ } => {
            BusyStep::Defer
        },
        AgentCommand::Shutdown => BusyStep::Stop,
    }
}

/// What a worker does with an action while no turn runs.
#[derive(Debug)]
pub enum IdleStep {
    /// The task is given again, and said to the interface first.
    Resubmit(String),
    /// There is no task to give again.
    NothingToRetry,
    /// There is nothing to cancel.
    Ignore,
    /// The action is done.
    Act(TuiAction),
}

/// What a worker does with an action while no turn runs; `retry_input` is the
/// task of the last turn, where that turn has not come to its end.
pub fn on_idle_action(action: TuiAction, retry_input: Option<String>) -> (r: IdleStep)
    ensures
        match r {
            IdleStep::Resubmit(input) => action@ is Retry && retry_input == Some(input),
            IdleStep::NothingToRetry => action@ is Retry && retry_input is None,
            IdleStep::Ignore => action@ is Cancel,
            IdleStep::Act(done) => done == action && !(action@ is Retry) && !(action@ is Cancel),
        },
{
    match action {
        TuiAction::Retry => match retry_input {
            Some(input) => IdleStep::Resubmit(input),
            None => IdleStep::NothingToRetry,
        },
        TuiAction::Cancel => IdleStep::Ignore,
        other => IdleStep::Act(other),
    }
}

/// What a worker reports.
#[derive(Debug)]
#[allow(inconsistent_fields)]
pub enum HostEvent {
    Agent(AgentEvent),
    SessionChanged { summary: SessionSummary, transcript: Transcript, context_tokens: usize },
    SessionUpdated { summary: SessionSummary, context_tokens: usize },
    SessionList(Vec<SessionSummary>),
    ModelChoices(Vec<ModelChoice>),
    ModelSetupRequired { model: Model, base_url: String },
    ModelSetupChoices {
        model: String,
        base_url: String,
        api_key: String,
        model_ids: Vec<String>,
        protocol: ProviderProtocol,
        authentication: AuthenticationMode,
    },
    RetrySubmitted(String),
    Notice(String),
    CommandFailed(String),
}

/// The view of what a worker reports.
#[allow(inconsistent_fields)]
pub enum HostEventView {
    Agent(AgentEventView),
    SessionChanged { summary: SummaryView, transcript: Seq<ItemView>, context_tokens: usize },
    SessionUpdated { summary: SummaryView, context_tokens: usize },
    SessionList(Seq<SummaryView>),
    ModelChoices(Seq<ChoiceView>),
    ModelSetupRequired { model: Model, base_url: Seq<char> },
    ModelSetupChoices { setup: SetupView, model_ids: Seq<Seq<char>> },
    RetrySubmitted(Seq<char>),
    Notice(Seq<char>),
    CommandFailed(Seq<char>),
}

impl View for HostEvent {
    type V = HostEventView;

    open spec fn view(&self) -> HostEventView {
        match *self {
            HostEvent::Agent(e) => HostEventView::Agent(e@),
            HostEvent::SessionChanged { summary, transcript, context_tokens } =>
                HostEventView::SessionChanged {
                summary: summary@,
                transcript: transcript@,
                context_tokens,
            },
            HostEvent::SessionUpdated { summary, context_tokens } =>
                HostEventView::SessionUpdated { summary: summary@, context_tokens },
            HostEvent::SessionList(list) => HostEventView::SessionList(summary_views(list@)),
            HostEvent::ModelChoices(choices) => HostEventView::ModelChoices(
                choice_views(choices@),
            ),
            HostEvent::ModelSetupRequired { model, base_url } =>
                HostEventView::ModelSetupRequired { model, base_url: base_url@ },
            HostEvent::ModelSetupChoices {
                model,
                base_url,
                api_key,
                model_ids,
                protocol,
                authentication,
            } => HostEventView::ModelSetupChoices {
                setup: SetupView {
                    model: model@,
                    base_url: base_url@,
                    api_key: api_key@,
                    protocol,
                    authentication,
                    stage: SetupStage::ModelId,
                },
                model_ids: texts(model_ids@),
            },
            HostEvent::RetrySubmitted(input) => HostEventView::RetrySubmitted(input@),
            HostEvent::Notice(message) => HostEventView::Notice(message@),
            HostEvent::CommandFailed(message) => HostEventView::CommandFailed(message@),
        }
    }
}

/// A worker: the project that it works in, and what it is doing.
#[derive(Debug)]
pub struct Worker {
    pub workspace: String,
    pub status: WorkerStatus,
}

/// The view of a worker.
#[verifier::ext_equal]
pub struct WorkerView {
    pub workspace: Seq<char>,
    pub status: WorkerStatus,
}

impl View for Worker {
    type V = WorkerView;

    open spec fn view(&self) -> WorkerView {
        WorkerView { workspace: self.workspace@, status: self.status }
    }
}

/// The views of workers.
pub open spec fn worker_views(v: Seq<Worker>) -> Seq<WorkerView> {
    v.map_values(|w: Worker| w@)
}

/// A request of a worker in the background that waits for the user.
#[derive(Debug)]
pub struct WaitingRequest {
    pub workspace: String,
    pub request: ApprovalRequest,
}

/// The view of a request that waits.
#[verifier::ext_equal]
pub struct WaitingView {
    pub workspace: Seq<char>,
    pub request: RequestView,
}

impl View for WaitingRequest {
    type V = WaitingView;

    open spec fn view(&self) -> WaitingView {
        WaitingView { workspace: self.workspace@, request: self.request@ }
    }
}

/// The views of requests that wait.
pub open spec fn waiting_views(v: Seq<WaitingRequest>) -> Seq<WaitingView> {
    v.map_values(|w: WaitingRequest| w@)
}

/// The workers, the project that the interface shows, the requests that wait in
/// the background, and the request that the user can answer now.
#[derive(Debug)]
pub struct Workers {
    pub workers: Vec<Worker>,
    pub active: String,
    pub waiting: Vec<WaitingRequest>,
    pub open_request: Option<String>,
}

/// The view of the workers.
#[verifier::ext_equal]
pub struct WorkersView {
    pub workers: Seq<WorkerView>,
    pub active: Seq<char>,
    pub waiting: Seq<WaitingView>,
    pub open_request: Option<Seq<char>>,
}

impl View for Workers {
    type V = WorkersView;

    open spec fn view(&self) -> WorkersView {
        WorkersView {
            workers: worker_views(self.workers@),
            active: self.active@,
            waiting: waiting_views(self.waiting@),
            open_request: crate::text::maybe(self.open_request),
        }
    }
}

/// Where the worker of a project stands; behind all where there is none.
pub open spec fn worker_slot(workers: Seq<WorkerView>, workspace: Seq<char>) -> int
    decreases workers.len(),
{
    if workers.len() == 0 {
        0
    } else if place(workers[0].workspace) == place(workspace) {
        0
    } else {
        1 + worker_slot(workers.drop_first(), workspace)
    }
}

/// What the worker of a project is doing.
pub open spec fn status_in(workers: Seq<WorkerView>, workspace: Seq<char>) -> Option<WorkerStatus> {
    let k = worker_slot(workers, workspace);
    if k < workers.len() {
        Some(workers[k].status)
    } else {
        None
    }
}

/// Where the request of a project waits; behind all where none does.
pub open spec fn waiting_slot(waiting: Seq<WaitingView>, workspace: Seq<char>) -> int
    decreases waiting.len(),
{
    if waiting.len() == 0 {
        0
    } else if place(waiting[0].workspace) == place(workspace) {
        0
    } else {
        1 + waiting_slot(waiting.drop_first(), workspace)
    }
}

/// The requests that wait with one more, in place of an older one of the same
/// project.
pub open spec fn with_waiting(waiting: Seq<WaitingView>, new: WaitingView) -> Seq<WaitingView> {
    let k = waiting_slot(waiting, new.workspace);
    if k < waiting.len() {
        waiting.update(k, new)
    } else {
        waiting.push(new)
    }
}

proof fn lemma_worker_slot(workers: Seq<WorkerView>, workspace: Seq<char>, k: int)
    requires
        0 <= k <= workers.len(),
        forall|j: int| 0 <= j < k ==> place((#[trigger] workers[j]).workspace) != place(workspace),
        k < workers.len() ==> place(workers[k].workspace) == place(workspace),
    ensures
        worker_slot(workers, workspace) == k,
    decreases k,
{
    if k > 0 {
        let rest = workers.drop_first();
        assert(place(workers[0].workspace) != place(workspace));
        assert forall|j: int| 0 <= j < k - 1 implies place((#[trigger] rest[j]).workspace)
            != place(workspace) by {
            assert(rest[j] == workers[j + 1]);
        }
        lemma_worker_slot(rest, workspace, k - 1);
    }
}

proof fn lemma_waiting_slot(waiting: Seq<WaitingView>, workspace: Seq<char>, k: int)
    requires
        0 <= k <= waiting.len(),
        forall|j: int| 0 <= j < k ==> place((#[trigger] waiting[j]).workspace) != place(workspace),
        k < waiting.len() ==> place(waiting[k].workspace) == place(workspace),
    ensures
        waiting_slot(waiting, workspace) == k,
    decreases k,
{
    if k > 0 {
        let rest = waiting.drop_first();
        assert(place(waiting[0].workspace) != place(workspace));
        assert forall|j: int| 0 <= j < k - 1 implies place((#[trigger] rest[j]).workspace)
            != place(workspace) by {
            assert(rest[j] == waiting[j + 1]);
        }
        lemma_waiting_slot(rest, workspace, k - 1);
    }
}

/// What a worker is doing after a report.
pub open spec fn status_after(status: WorkerStatus, event: HostEventView) -> WorkerStatus {
    match event {
        HostEventView::Agent(AgentEventView::TurnStarted { turn_id: _ }) => WorkerStatus::Running,
        HostEventView::Agent(
            AgentEventView::ApprovalRequired {
                turn_id: _,
                request_id: _,
                call_id: _,
                tool_name: _,
                arguments: _,
            },
        ) => WorkerStatus::WaitingApproval,
        HostEventView::Agent(AgentEventView::TurnCompleted { turn_id: _ }) => WorkerStatus::Idle,
        HostEventView::Agent(AgentEventView::Error { turn_id: _, message: _, recoverable }) => {
            if recoverable {
                WorkerStatus::Idle
            } else {
                WorkerStatus::Error
            }
        },
        _ => status,
    }
}

/// The interface after a report of the worker that it shows; `id` is the
/// identifier that a new message gets.
pub open spec fn shown_event(v: AppView, event: HostEventView, id: u128) -> AppView {
    match event {
        HostEventView::Agent(e) => after_event(v, e, id),
        HostEventView::SessionChanged { summary, transcript, context_tokens } => with_message(
            loaded(v, summary, transcript, context_tokens),
            whole_message(id, MessageKind::System, "Session ready."@),
        ),
        HostEventView::SessionUpdated { summary, context_tokens } => updated(
            v,
            summary,
            context_tokens,
        ),
        HostEventView::SessionList(list) => with_message(
            v,
            whole_message(id, MessageKind::System, session_list_text(list)),
        ),
        HostEventView::ModelChoices(choices) => choosing(v, choices),
        HostEventView::ModelSetupRequired { model, base_url } => setting_up(
            v,
            name_of(model),
            base_url,
        ),
        HostEventView::ModelSetupChoices { setup, model_ids } => choosing_id(v, setup, model_ids),
        HostEventView::RetrySubmitted(input) => AppView {
            state: AgentState::Thinking,
            ..with_message(v, whole_message(id, MessageKind::User, input))
        },
        HostEventView::Notice(message) => AppView {
            state: AgentState::Idle,
            ..with_message(v, whole_message(id, MessageKind::System, message))
        },
        HostEventView::CommandFailed(message) => AppView {
            state: AgentState::Idle,
            ..with_message(
                if v.mode == AppMode::ConfiguringModel {
                    menu_closed(with_input(v, Seq::empty()))
                } else {
                    v
                },
                whole_message(id, MessageKind::Error, message),
            )
        },
    }
}

/// The user is told of a report of a worker in the background: of the end of a
/// turn, and of what was done or failed.
pub open spec fn worth_telling(event: HostEventView) -> bool {
    match event {
        HostEventView::Agent(AgentEventView::Error { turn_id: _, message: _, recoverable: _ }) => {
            true
        },
        HostEventView::Agent(AgentEventView::TurnCompleted { turn_id: _ }) => true,
        HostEventView::Notice(_) => true,
        HostEventView::CommandFailed(_) => true,
        _ => false,
    }
}

/// The workers and the interface after a report of the worker of a project.
pub open spec fn after_host_event(
    h: WorkersView,
    v: AppView,
    workspace: Seq<char>,
    event: HostEventView,
    id: u128,
) -> (WorkersView, AppView) {
    let k = worker_slot(h.workers, workspace);
    let active = place(workspace) == place(h.active);
    let over = active && event is Agent && event->Agent_0 is TurnCompleted;
    let next = WorkersView {
        workers: if k < h.workers.len() {
            h.workers.update(
                k,
                WorkerView {
                    status: status_after(h.workers[k].status, event),
                    ..h.workers[k]
                },
            )
        } else {
            h.workers
        },
        open_request: if over {
            None
        } else {
            h.open_request
        },
        ..h
    };
    if active {
        (next, shown_event(v, event, id))
    } else if worth_telling(event) {
        (next, notified(v))
    } else {
        (next, v)
    }
}

/// The workers and the interface after a worker asked for the user's decision.
pub open spec fn after_request(
    h: WorkersView,
    v: AppView,
    workspace: Seq<char>,
    request: RequestView,
) -> (WorkersView, AppView) {
    if place(workspace) == place(h.active) {
        (WorkersView { open_request: Some(request.request_id), ..h }, v)
    } else {
        (
            WorkersView {
                waiting: with_waiting(h.waiting, WaitingView { workspace, request }),
                ..h
            },
            notified(v),
        )
    }
}

/// What is left to do outside for an action.
#[derive(Debug)]
pub enum Effect {
    Nothing,
    Clear,
    Send(TuiAction),
    Answer(ApprovalDecision),
    ListProjects,
    SwitchProject(String),
}

/// The view of what is left to do.
pub enum EffectView {
    Nothing,
    Clear,
    Send(ActionView),
    Answer(DecisionView),
    ListProjects,
    SwitchProject(Seq<char>),
}

impl View for Effect {
    type V = EffectView;

    open spec fn view(&self) -> EffectView {
        match *self {
            Effect::Nothing => EffectView::Nothing,
            Effect::Clear => EffectView::Clear,
            Effect::Send(action) => EffectView::Send(action@),
            Effect::Answer(decision) => EffectView::Answer(decision@),
            Effect::ListProjects => EffectView::ListProjects,
            Effect::SwitchProject(target) => EffectView::SwitchProject(target@),
        }
    }
}

/// The interface with a remark.
pub open spec fn remarking(v: AppView, text: Seq<char>) -> AppView {
    AppView { status: Some(text), ..v }
}

/// The workers, the interface and what is left to do after a decision: it is an
/// answer to the request that the interface shows, or to none.
pub open spec fn after_decision(h: WorkersView, v: AppView, decision: DecisionView) -> (
    WorkersView,
    AppView,
    EffectView,
) {
    match h.open_request {
        None => (h, remarking(v, "Approval request is not ready yet."@), EffectView::Nothing),
        Some(request_id) => if v.pending is Some && v.pending->0.request_id != request_id {
            (h, remarking(v, "Approval request changed; please retry."@), EffectView::Nothing)
        } else {
            (WorkersView { open_request: None, ..h }, v, EffectView::Answer(decision))
        },
    }
}

/// The workers, the interface and what is left to do after an action.
pub open spec fn after_action(h: WorkersView, v: AppView, action: ActionView) -> (
    WorkersView,
    AppView,
    EffectView,
) {
    match action {
        ActionView::Nothing => (h, v, EffectView::Nothing),
        ActionView::Clear => (h, v, EffectView::Clear),
        ActionView::Cancel => (
            h,
            remarking(v, "Cancelling current turn…"@),
            EffectView::Send(action),
        ),
        ActionView::Approval(decision) => after_decision(h, v, decision),
        ActionView::Quit => (h, AppView { quit: true, ..v }, EffectView::Nothing),
        ActionView::ListProjects => (h, v, EffectView::ListProjects),
        ActionView::SwitchProject(target) => (h, v, EffectView::SwitchProject(target)),
        _ => (h, v, EffectView::Send(action)),
    }
}

/// What comes next when the interface turns to another project.
#[derive(Debug, Clone, Copy, PartialEq, Eq, Structural)]
pub enum SwitchStep {
    /// The project is shown already.
    Stay,
    /// A worker has to be started for the project.
    StartWorker,
    /// The project has a worker, and can be shown.
    Open,
}

/// The beginning of a turn to another project.
#[derive(Debug)]
pub struct SwitchStart {
    /// The open request now waits in the background.
    pub parked: bool,
    pub step: Result<SwitchStep, Error>,
}

/// The workers and the interface once the open request waits in the background;
/// whether there was one.
pub open spec fn parked(h: WorkersView, v: AppView) -> (WorkersView, AppView, bool) {
    if h.open_request is Some && v.pending is Some {
        (
            WorkersView {
                waiting: with_waiting(
                    h.waiting,
                    WaitingView { workspace: h.active, request: v.pending->0 },
                ),
                open_request: None,
                ..h
            },
            AppView { pending: None, ..v },
            true,
        )
    } else {
        (h, v, false)
    }
}

/// What comes next when the interface turns to another project.
pub open spec fn switch_step(h: WorkersView, workspace: Seq<char>, max_workers: usize) -> Result<
    SwitchStep,
    Seq<char>,
> {
    if place(workspace) == place(h.active) {
        Ok(SwitchStep::Stay)
    } else if worker_slot(h.workers, workspace) < h.workers.len() {
        Ok(SwitchStep::Open)
    } else if h.workers.len() < allowed(max_workers) {
        Ok(SwitchStep::StartWorker)
    } else {
        Err("Worker limit reached ("@ + decimal(allowed(max_workers) as nat) + ")"@)
    }
}

/// The workers and the interface once another project is shown.
pub open spec fn switched(
    h: WorkersView,
    v: AppView,
    workspace: Seq<char>,
    summary: SummaryView,
    transcript: Seq<ItemView>,
    ids: (u128, u128),
    turn_id: crate::session::model::TurnId,
) -> (WorkersView, AppView) {
    let shown = with_message(
        loaded(AppView { notifications: 0, ..v }, summary, transcript, 0),
        whole_message(ids.0, MessageKind::System, "Switched to project: "@ + workspace),
    );
    let k = waiting_slot(h.waiting, workspace);
    let state = state_of(status_in(h.workers, workspace));
    if k < h.waiting.len() {
        let request = h.waiting[k].request;
        (
            WorkersView {
                active: workspace,
                waiting: h.waiting.remove(k),
                open_request: Some(request.request_id),
                ..h
            },
            AppView {
                state,
                ..after_event(
                    shown,
                    AgentEventView::ApprovalRequired {
                        turn_id,
                        request_id: request.request_id,
                        call_id: request.call_id,
                        tool_name: request.tool_name,
                        arguments: request.arguments,
                    },
                    ids.1,
                )
            },
        )
    } else {
        (WorkersView { active: workspace, ..h }, AppView { state, ..shown })
    }
}

impl Workers {
    /// One worker, in the project that is shown.
    pub fn new(workspace: String) -> (r: Self)
        ensures
            r@ == (WorkersView {
                workers: seq![WorkerView { workspace: workspace@, status: WorkerStatus::Idle }],
                active: workspace@,
                waiting: Seq::empty(),
                open_request: None,
            }),
    {
        let active = workspace.clone();
        let mut workers: Vec<Worker> = Vec::new();
        workers.push(Worker { workspace, status: WorkerStatus::Idle });
        let out = Workers { workers, active, waiting: Vec::new(), open_request: None };
        assert(out@.workers =~= seq![
            WorkerView { workspace: workspace@, status: WorkerStatus::Idle },
        ]);
        assert(out@.waiting =~= Seq::<WaitingView>::empty());
        out
    }

    fn find_worker(&self, workspace: &str) -> (r: Option<usize>)
        ensures
            match r {
                Some(k) => k < self.workers@.len() && k == worker_slot(
                    self@.workers,
                    workspace@,
                ),
                None => worker_slot(self@.workers, workspace@) == self@.workers.len(),
            },
    {
        let ghost all = self@.workers;
        let mut i: usize = 0;
        while i < self.workers.len()
            invariant
                i <= self.workers.len(),
                all == worker_views(self.workers@),
                forall|j: int| 0 <= j < i ==> place((#[trigger] all[j]).workspace)
                    != place(workspace@),
            decreases self.workers.len() - i,
        {
            if is_same_path(self.workers[i].workspace.as_str(), workspace) {
                proof {
                    lemma_worker_slot(all, workspace@, i as int);
                }
                return Some(i);
            }
            assert(place(all[i as int].workspace) != place(workspace@));
            i += 1;
        }
        proof {
            lemma_worker_slot(all, workspace@, i as int);
        }
        None
    }

    fn find_waiting(&self, workspace: &str) -> (r: Option<usize>)
        ensures
            match r {
                Some(k) => k < self.waiting@.len() && k == waiting_slot(
                    self@.waiting,
                    workspace@,
                ),
                None => waiting_slot(self@.waiting, workspace@) == self@.waiting.len(),
            },
    {
        let ghost all = self@.waiting;
        let mut i: usize = 0;
        while i < self.waiting.len()
            invariant
                i <= self.waiting.len(),
                all == waiting_views(self.waiting@),
                forall|j: int| 0 <= j < i ==> place((#[trigger] all[j]).workspace)
                    != place(workspace@),
            decreases self.waiting.len() - i,
        {
            if is_same_path(self.waiting[i].workspace.as_str(), workspace) {
                proof {
                    lemma_waiting_slot(all, workspace@, i as int);
                }
                return Some(i);
            }
            assert(place(all[i as int].workspace) != place(workspace@));
            i += 1;
        }
        proof {
            lemma_waiting_slot(all, workspace@, i as int);
        }
        None
    }

    fn keep_waiting(&mut self, workspace: String, request: ApprovalRequest)
        ensures
            final(self)@ == (WorkersView {
                waiting: with_waiting(
                    old(self)@.waiting,
                    WaitingView { workspace: workspace@, request: request@ },
                ),
                ..old(self)@
            }),
    {
        let found = self.find_waiting(workspace.as_str());
        let new = WaitingRequest { workspace, request };
        match found {
            Some(k) => {
                self.waiting.set(k, new);
            },
            None => {
                self.waiting.push(new);
            },
        }
        assert(self@.waiting =~= with_waiting(old(self)@.waiting, new@));
    }

    /// What the worker of a project is doing.
    pub fn status(&self, workspace: &str) -> (r: Option<WorkerStatus>)
        ensures
            r == status_in(self@.workers, workspace@),
    {
        match self.find_worker(workspace) {
            Some(k) => Some(self.workers[k].status),
            None => None,
        }
    }

    /// Takes in a report of the worker of a project; `id` is the identifier that
    /// a new message gets.
    pub fn on_host_event(&mut self, app: &mut App, workspace: &str, event: HostEvent, id: u128)
        ensures
            (final(self)@, final(app)@) == after_host_event(
                old(self)@,
                old(app)@,
                workspace@,
                event@,
                id,
            ),
    {
        let ghost h = self@;
        let ghost v = app@;
        let ghost e = event@;
        match self.find_worker(workspace) {
            Some(k) => {
                let status = next_status(self.workers[k].status, &event);
                let worker = Worker { workspace: self.workers[k].workspace.clone(), status };
                self.workers.set(k, worker);
                assert(self@.workers =~= h.workers.update(k as int, worker@));
            },
            None => {},
        }
        let active = is_same_path(workspace, self.active.as_str());
        if !active {
            if is_worth_telling(&event) {
                app.notify_background_worker();
            }
            return;
        }
        let over = match &event {
            HostEvent::Agent(agent_event) => match agent_event {
                AgentEvent::TurnCompleted { turn_id: _ } => true,
                _ => false,
            },
            _ => false,
        };
        if over {
            self.open_request = None;
        }
        show_event(app, event, id);
        assert(self@ =~= after_host_event(h, v, workspace@, e, id).0);
    }

    /// Takes in that the worker of a project asks for the user's decision:
    /// whether the user can answer at once.
    pub fn on_request(&mut self, app: &mut App, workspace: &str, request: ApprovalRequest) -> (r:
        bool)
        ensures
            r == (place(workspace@) == place(old(self)@.active)),
            (final(self)@, final(app)@) == after_request(
                old(self)@,
                old(app)@,
                workspace@,
                request@,
            ),
    {
        if is_same_path(workspace, self.active.as_str()) {
            self.open_request = Some(request.request_id);
            return true;
        }
        self.keep_waiting(workspace.to_owned(), request);
        app.notify_background_worker();
        false
    }

    /// Does what an action asks of the interface: what is left to do outside.
    pub fn apply_action(&mut self, action: TuiAction, app: &mut App) -> (r: Effect)
        ensures
            (final(self)@, final(app)@, r@) == after_action(old(self)@, old(app)@, action@),
    {
        match action {
            TuiAction::Nothing => Effect::Nothing,
            TuiAction::Clear => Effect::Clear,
            TuiAction::Cancel => {
                app.status_message = Some("Cancelling current turn…".to_owned());
                Effect::Send(TuiAction::Cancel)
            },
            TuiAction::Approval(decision) => {
                let matches_request = match &self.open_request {
                    None => {
                        app.status_message = Some(
                            "Approval request is not ready yet.".to_owned(),
                        );
                        return Effect::Nothing;
                    },
                    Some(request_id) => match &app.pending_approval {
                        Some(pending) => same(pending.request_id.as_str(), request_id.as_str()),
                        None => true,
                    },
                };
                if !matches_request {
                    app.status_message = Some(
                        "Approval request changed; please retry.".to_owned(),
                    );
                    return Effect::Nothing;
                }
                self.open_request = None;
                Effect::Answer(decision)
            },
            TuiAction::Quit => {
                app.should_quit = true;
                Effect::Nothing
            },
            TuiAction::ListProjects => Effect::ListProjects,
            TuiAction::SwitchProject(target) => Effect::SwitchProject(target),
            other => Effect::Send(other),
        }
    }

    /// Begins to turn to another project: the open request, if there is one,
    /// waits in the background from now on.
    pub fn start_switch(&mut self, app: &mut App, workspace: &str, max_workers: usize) -> (r:
        SwitchStart)
        ensures
            match switch_step(old(self)@, workspace@, max_workers) {
                Ok(step) => r.step == Ok::<SwitchStep, Error>(step),
                Err(m) => r.step matches Err(e) && e@ == m,
            },
            if place(workspace@) == place(old(self)@.active) {
                &&& !r.parked
                &&& final(self)@ == old(self)@
                &&& final(app)@ == (AppView {
                    state: state_of(status_in(old(self)@.workers, workspace@)),
                    ..old(app)@
                })
            } else {
                (final(self)@, final(app)@, r.parked) == parked(old(self)@, old(app)@)
            },
    {
        if is_same_path(workspace, self.active.as_str()) {
            app.agent_state = agent_state_for_worker(self.status(workspace));
            return SwitchStart { parked: false, step: Ok(SwitchStep::Stay) };
        }
        let ghost h = self@;
        let ghost v = app@;
        let mut was_open = false;
        if self.open_request.is_some() {
            match app.pending_approval.take() {
                Some(request) => {
                    self.open_request = None;
                    let active = self.active.clone();
                    self.keep_waiting(active, request);
                    was_open = true;
                },
                None => {},
            }
        }
        assert(app@ =~= parked(h, v).1);
        assert(self@ =~= parked(h, v).0);
        let step = match self.find_worker(workspace) {
            Some(_) => Ok(SwitchStep::Open),
            None => match ensure_worker_capacity(self.workers.len(), max_workers) {
                Ok(()) => Ok(SwitchStep::StartWorker),
                Err(error) => Err(error),
            },
        };
        SwitchStart { parked: was_open, step }
    }

    /// Takes in that a worker was started for a project.
    pub fn worker_started(&mut self, workspace: String)
        ensures
            final(self)@ == (WorkersView {
                workers: old(self)@.workers.push(
                    WorkerView { workspace: workspace@, status: WorkerStatus::Idle },
                ),
                ..old(self)@
            }),
    {
        self.workers.push(Worker { workspace, status: WorkerStatus::Idle });
        assert(self@.workers =~= old(self)@.workers.push(
            WorkerView { workspace: workspace@, status: WorkerStatus::Idle },
        ));
    }

    /// Shows another project: whether a request of it was waiting, which the
    /// user can now answer. `ids` are the identifiers that new messages get.
    pub fn finish_switch(
        &mut self,
        app: &mut App,
        workspace: String,
        summary: &SessionSummary,
        transcript: &Transcript,
        ids: (u128, u128),
        turn_id: crate::session::model::TurnId,
    ) -> (r: bool)
        ensures
            (final(self)@, final(app)@) == switched(
                old(self)@,
                old(app)@,
                workspace@,
                summary@,
                transcript@,
                ids,
                turn_id,
            ),
            r == (waiting_slot(old(self)@.waiting, workspace@) < old(self)@.waiting.len()),
    {
        let ghost h = self@;
        let ghost v = app@;
        app.clear_background_notifications();
        app.load_session(summary, transcript, 0);
        let mut text: String = "Switched to project: ".to_owned();
        text.append(workspace.as_str());
        app.add_message(Message::with_id(ids.0, MessageKind::System, text));
        let found = self.find_waiting(workspace.as_str());
        let mut resumed = false;
        match found {
            Some(k) => {
                let waiting = self.waiting.remove(k);
                assert(self@.waiting =~= h.waiting.remove(k as int));
                assert(waiting@ == h.waiting[k as int]);
                let request = waiting.request;
                self.open_request = Some(request.request_id.clone());
                app.handle_agent_event_as(
                    AgentEvent::ApprovalRequired {
                        turn_id,
                        request_id: request.request_id,
                        call_id: request.call_id,
                        tool_name: request.tool_name,
                        arguments: request.arguments,
                    },
                    ids.1,
                );
                resumed = true;
            },
            None => {},
        }
        app.agent_state = agent_state_for_worker(self.status(workspace.as_str()));
        self.active = workspace;
        assert(self@ =~= switched(h, v, workspace@, summary@, transcript@, ids, turn_id).0);
        assert(app@ =~= switched(h, v, workspace@, summary@, transcript@, ids, turn_id).1);
        resumed
    }
}

/// What a worker is doing after a report.
fn next_status(status: WorkerStatus, event: &HostEvent) -> (r: WorkerStatus)
    ensures
        r == status_after(status, event@),
{
    match event {
        HostEvent::Agent(agent_event) => match agent_event {
            AgentEvent::TurnStarted { turn_id: _ } => WorkerStatus::Running,
            AgentEvent::ApprovalRequired {
                turn_id: _,
                request_id: _,
                call_id: _,
                tool_name: _,
                arguments: _,
            } => WorkerStatus::WaitingApproval,
            AgentEvent::TurnCompleted { turn_id: _ } => WorkerStatus::Idle,
            AgentEvent::Error { turn_id: _, message: _, recoverable } => if *recoverable {
                WorkerStatus::Idle
            } else {
                WorkerStatus::Error
            },
            _ => status,
        },
        _ => status,
    }
}

fn is_worth_telling(event: &HostEvent) -> (r: bool)
    ensures
        r == worth_telling(event@),
{
    match event {
        HostEvent::Agent(agent_event) => match agent_event {
            AgentEvent::Error { turn_id: _, message: _, recoverable: _ } => true,
            AgentEvent::TurnCompleted { turn_id: _ } => true,
            _ => false,
        },
        HostEvent::Notice(_) => true,
        HostEvent::CommandFailed(_) => true,
        _ => false,
    }
}

/// Shows a report of the worker that the interface shows.
fn show_event(app: &mut App, event: HostEvent, id: u128)
    ensures
        final(app)@ == shown_event(old(app)@, event@, id),
{
    match event {
        HostEvent::Agent(agent_event) => {
            app.handle_agent_event_as(agent_event, id);
        },
        HostEvent::SessionChanged { summary, transcript, context_tokens } => {
            app.load_session(&summary, &transcript, context_tokens);
            app.add_message(
                Message::with_id(id, MessageKind::System, "Session ready.".to_owned()),
            );
        },
        HostEvent::SessionUpdated { summary, context_tokens } => {
            app.update_session(&summary, context_tokens);
        },
        HostEvent::SessionList(list) => {
            app.add_message(
                Message::with_id(id, MessageKind::System, render_session_list(&list)),
            );
        },
        HostEvent::ModelChoices(choices) => {
            app.open_model_menu(choices);
        },
        HostEvent::ModelSetupRequired { model, base_url } => {
            app.begin_model_setup(model.id().to_owned(), base_url);
        },
        HostEvent::ModelSetupChoices {
            model,
            base_url,
            api_key,
            model_ids,
            protocol,
            authentication,
        } => {
            app.begin_model_selection(
                model,
                base_url,
                api_key,
                model_ids,
                protocol,
                authentication,
            );
        },
        HostEvent::RetrySubmitted(input) => {
            app.add_message(Message::with_id(id, MessageKind::User, input));
            app.agent_state = AgentState::Thinking;
        },
        HostEvent::Notice(message) => {
            app.add_message(Message::with_id(id, MessageKind::System, message));
            app.agent_state = AgentState::Idle;
        },
        HostEvent::CommandFailed(message) => {
            if app.mode == AppMode::ConfiguringModel {
                app.cancel_model_setup();
            }
            app.add_message(Message::with_id(id, MessageKind::Error, message));
            app.agent_state = AgentState::Idle;
        },
    }
}

/// Takes in whether a worker was there to take a task.
pub fn on_submitted(app: &mut App, delivered: bool, id: u128)
    ensures
        final(app)@ == (if delivered {
            old(app)@
        } else {
            after_event(
                old(app)@,
                AgentEventView::Error {
                    turn_id: None,
                    message: "Agent host is unavailable"@,
                    recoverable: false,
                },
                id,
            )
        }),
{
    if !delivered {
        app.handle_agent_event_as(
            AgentEvent::Error {
                turn_id: None,
                message: "Agent host is unavailable".to_owned(),
                recoverable: false,
            },
            id,
        );
    }
}

/// Takes in whether a decision has reached the worker that asked for it.
pub fn on_answered(app: &mut App, delivered: bool)
    ensures
        final(app)@ == (if delivered {
            AppView {
                mode: AppMode::Normal,
                pending: None,
                state: AgentState::Thinking,
                ..old(app)@
            }
        } else {
            remarking(old(app)@, "Approval request expired."@)
        }),
{
    if delivered {
        app.mode = AppMode::Normal;
        app.pending_approval = None;
        app.agent_state = AgentState::Thinking;
    } else {
        app.status_message = Some("Approval request expired.".to_owned());
    }
}

proof fn lemma_waiting_found(waiting: Seq<WaitingView>, workspace: Seq<char>)
    ensures
        0 <= waiting_slot(waiting, workspace) <= waiting.len(),
        waiting_slot(waiting, workspace) < waiting.len() ==> place(waiting[waiting_slot(
            waiting,
            workspace,
        )].workspace) == place(workspace),
        forall|j: int|
            0 <= j < waiting_slot(waiting, workspace) ==> place((#[trigger] waiting[j]).workspace)
                != place(workspace),
    decreases waiting.len(),
{
    if waiting.len() > 0 && place(waiting[0].workspace) != place(workspace) {
        let rest = waiting.drop_first();
        lemma_waiting_found(rest, workspace);
        assert forall|j: int| 0 <= j < 1 + waiting_slot(rest, workspace) implies place((
        #[trigger] waiting[j]).workspace) != place(workspace) by {
            if j > 0 {
                assert(waiting[j] == rest[j - 1]);
            }
        }
    }
}

/// A request that was put to wait is found again, also once another project's
/// request has left.
proof fn lemma_kept_request(waiting: Seq<WaitingView>, new: WaitingView, other: Seq<char>)
    requires
        place(other) != place(new.workspace),
    ensures
        ({
            let with = with_waiting(waiting, new);
            let k = waiting_slot(with, other);
            let left = if k < with.len() {
                with.remove(k)
            } else {
                with
            };
            &&& waiting_slot(left, new.workspace) < left.len()
            &&& left[waiting_slot(left, new.workspace)] == new
        }),
{
    let with = with_waiting(waiting, new);
    lemma_waiting_found(waiting, new.workspace);
    let a = waiting_slot(waiting, new.workspace);
    assert(with[a] == new);
    assert forall|j: int| 0 <= j < a implies place((#[trigger] with[j]).workspace)
        != place(new.workspace) by {
        assert(with[j] == waiting[j]);
    }
    lemma_waiting_slot(with, new.workspace, a);
    lemma_waiting_found(with, other);
    let k = waiting_slot(with, other);
    if k < with.len() {
        let left = with.remove(k);
        let b = if k < a {
            a - 1
        } else {
            a
        };
        assert(left[b] == new);
        assert forall|j: int| 0 <= j < b implies place((#[trigger] left[j]).workspace)
            != place(new.workspace) by {
            if j < k {
                assert(left[j] == with[j]);
            } else {
                assert(left[j] == with[j + 1]);
            }
        }
        lemma_waiting_slot(left, new.workspace, b);
    }
}

/// A request that is open when the user turns to another project is open again
/// once they come back.
pub proof fn a_request_waits_for_the_user(
    h: WorkersView,
    v: AppView,
    other: Seq<char>,
    there: (SummaryView, Seq<ItemView>),
    back: (SummaryView, Seq<ItemView>),
    ids: (u128, u128),
    turn_id: crate::session::model::TurnId,
)
    requires
        place(other) != place(h.active),
        h.open_request is Some,
        v.pending is Some,
        v.pending->0.request_id == h.open_request->0,
    ensures
        ({
            let left = parked(h, v);
            let away = switched(left.0, left.1, other, there.0, there.1, ids, turn_id);
            let home = switched(away.0, away.1, h.active, back.0, back.1, ids, turn_id);
            &&& left.2
            &&& home.0.active == h.active
            &&& home.0.open_request == h.open_request
            &&& home.1.pending == v.pending
            &&& home.1.mode == AppMode::Confirming
        }),
{
    let new = WaitingView { workspace: h.active, request: v.pending->0 };
    lemma_kept_request(h.waiting, new, other);
}

/// A report changes nothing about the workers of other projects.
pub proof fn a_report_leaves_other_workers_alone(
    h: WorkersView,
    v: AppView,
    workspace: Seq<char>,
    event: HostEventView,
    id: u128,
    k: int,
)
    requires
        0 <= k < h.workers.len(),
        place(h.workers[k].workspace) != place(workspace),
    ensures
        ({
            let next = after_host_event(h, v, workspace, event, id).0;
            &&& next.workers.len() == h.workers.len()
            &&& next.workers[k] == h.workers[k]
            &&& next.active == h.active
            &&& next.waiting == h.waiting
        }),
{
    lemma_worker_found(h.workers, workspace);
}

proof fn lemma_worker_found(workers: Seq<WorkerView>, workspace: Seq<char>)
    ensures
        0 <= worker_slot(workers, workspace) <= workers.len(),
        worker_slot(workers, workspace) < workers.len() ==> place(workers[worker_slot(
            workers,
            workspace,
        )].workspace) == place(workspace),
    decreases workers.len(),
{
    if workers.len() > 0 && place(workers[0].workspace) != place(workspace) {
        lemma_worker_found(workers.drop_first(), workspace);
    }
}

/// A report of a worker in the background changes nothing that the user sees
/// but the number of things that happened there.
pub proof fn the_background_stays_in_the_background(
    h: WorkersView,
    v: AppView,
    workspace: Seq<char>,
    event: HostEventView,
    id: u128,
)
    requires
        place(workspace) != place(h.active),
    ensures
        ({
            let next = after_host_event(h, v, workspace, event, id);
            next.1 == (AppView { notifications: next.1.notifications, ..v }) && next.0.open_request
                == h.open_request
        }),
{
}

} // verus!
