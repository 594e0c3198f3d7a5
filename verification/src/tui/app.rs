//! The state of the interface, and what reports and inputs make of it.
use crate::agent::control::{ApprovalDecision, ApprovalRequest};
use crate::agent::event::{AgentEvent, AgentEventView};
use crate::ids::random_uuid;
use crate::json::{json_compact, json_compact_of};
use crate::model::{
    authentication_named, protocol_named, AuthenticationMode, Model, ProviderProtocol,
};
use crate::session::model::{
    item_views, ItemView, SessionSummary, SummaryView, Transcript, TranscriptKind,
};
use crate::text::{
    begins, blank, byte_count, byte_len, decimal, decimal_of, first, is_blank, maybe, same,
    starts_with, strip_prefix, take_chars, texts, trim, trimmed,
};
use crate::tui::command::{command_views, suggested, suggestions, CommandView, SlashCommand};
use vstd::prelude::*;

verus! {

/// How many messages are kept.
pub const MAX_MESSAGE_HISTORY: usize = 1000;

/// How many messages of a session are shown when it is taken up again.
pub const RESTORED_MESSAGES: usize = 200;

/// How much of a JSON text a message shows, in characters.
pub const JSON_LIMIT: usize = 500;

/// What `/help` says.
pub const HELP: &'static str = "Commands: /help /clear /reset /status /cancel /quit";

/// What the interface is about.
#[derive(Debug)]
pub struct AppInfo {
    pub workspace: String,
    pub model: String,
    pub model_id: String,
}

/// The view of what the interface is about.
#[verifier::ext_equal]
pub struct InfoView {
    pub workspace: Seq<char>,
    pub model: Seq<char>,
    pub model_id: Seq<char>,
}

impl View for AppInfo {
    type V = InfoView;

    open spec fn view(&self) -> InfoView {
        InfoView {
            workspace: self.workspace@,
            model: self.model@,
            model_id: self.model_id@,
        }
    }
}

impl Clone for AppInfo {
    fn clone(&self) -> (r: Self)
        ensures
            r@ == self@,
    {
        AppInfo {
            workspace: self.workspace.clone(),
            model: self.model.clone(),
            model_id: self.model_id.clone(),
        }
    }
}

/// Who a message comes from.
#[derive(Debug, Clone, Copy, PartialEq, Eq, Structural)]
pub enum MessageKind {
    User,
    Agent,
    Tool,
    System,
    Error,
}

/// A message.
#[derive(Debug)]
pub struct Message {
    pub id: u128,
    pub kind: MessageKind,
    pub content: String,
    pub is_streaming: bool,
    pub tool_call_id: Option<String>,
}

/// The view of a message.
#[verifier::ext_equal]
pub struct MessageView {
    pub id: u128,
    pub kind: MessageKind,
    pub content: Seq<char>,
    pub is_streaming: bool,
    pub tool_call_id: Option<Seq<char>>,
}

impl View for Message {
    type V = MessageView;

    open spec fn view(&self) -> MessageView {
        MessageView {
            id: self.id,
            kind: self.kind,
            content: self.content@,
            is_streaming: self.is_streaming,
            tool_call_id: maybe(self.tool_call_id),
        }
    }
}

/// The views of messages.
pub open spec fn message_views(v: Seq<Message>) -> Seq<MessageView> {
    v.map_values(|m: Message| m@)
}

/// A message that is whole, and of no call.
pub open spec fn whole_message(id: u128, kind: MessageKind, content: Seq<char>) -> MessageView {
    MessageView { id, kind, content, is_streaming: false, tool_call_id: None }
}

impl Message {
    /// A message that is whole, under a random identifier.
    pub fn new(kind: MessageKind, content: &str) -> (r: Self)
        ensures
            r@ == whole_message(r.id, kind, content@),
    {
        Self::with_id(random_uuid(), kind, content.to_owned())
    }

    /// A message that is whole, under a given identifier.
    pub fn with_id(id: u128, kind: MessageKind, content: String) -> (r: Self)
        ensures
            r@ == whole_message(id, kind, content@),
    {
        Message { id, kind, content, is_streaming: false, tool_call_id: None }
    }
}

/// What the agent is doing.
#[derive(Debug, Clone, Copy, PartialEq, Eq, Structural)]
pub enum AgentState {
    Idle,
    Thinking,
    Generating,
    RunningTool,
    WaitingApproval,
    Error,
}

/// The name of a state.
pub open spec fn state_name(s: AgentState) -> Seq<char> {
    match s {
        AgentState::Idle => "Idle"@,
        AgentState::Thinking => "Thinking"@,
        AgentState::Generating => "Generating"@,
        AgentState::RunningTool => "RunningTool"@,
        AgentState::WaitingApproval => "WaitingApproval"@,
        AgentState::Error => "Error"@,
    }
}

/// The agent takes up no other task.
pub open spec fn at_work(s: AgentState) -> bool {
    s != AgentState::Idle && s != AgentState::Error
}

impl AgentState {
    /// The name of the state.
    pub fn name(self) -> (r: &'static str)
        ensures
            r@ == state_name(self),
    {
        match self {
            AgentState::Idle => "Idle",
            AgentState::Thinking => "Thinking",
            AgentState::Generating => "Generating",
            AgentState::RunningTool => "RunningTool",
            AgentState::WaitingApproval => "WaitingApproval",
            AgentState::Error => "Error",
        }
    }

    /// Whether the agent takes up no other task.
    pub fn is_at_work(self) -> (r: bool)
        ensures
            r == at_work(self),
    {
        match self {
            AgentState::Idle | AgentState::Error => false,
            _ => true,
        }
    }
}

/// What the interface is doing.
#[derive(Debug, Clone, Copy, PartialEq, Eq, Structural)]
pub enum AppMode {
    Normal,
    Confirming,
    SelectingModel,
    ConfiguringModel,
}

/// A model that can be chosen.
#[derive(Debug)]
pub struct ModelChoice {
    pub model: String,
    pub model_id: String,
    pub current: bool,
}

/// The view of a model that can be chosen.
#[verifier::ext_equal]
pub struct ChoiceView {
    pub model: Seq<char>,
    pub model_id: Seq<char>,
    pub current: bool,
}

impl View for ModelChoice {
    type V = ChoiceView;

    open spec fn view(&self) -> ChoiceView {
        ChoiceView { model: self.model@, model_id: self.model_id@, current: self.current }
    }
}

/// The views of models that can be chosen.
pub open spec fn choice_views(v: Seq<ModelChoice>) -> Seq<ChoiceView> {
    v.map_values(|c: ModelChoice| c@)
}

/// What is asked when a model is set up.
#[derive(Debug, Clone, Copy, PartialEq, Eq, Structural)]
pub enum SetupStage {
    Protocol,
    BaseUrl,
    Authentication,
    ApiKey,
    ModelId,
}

/// What is known of a model that is being set up.
#[derive(Debug)]
pub struct ModelSetup {
    pub model: String,
    pub base_url: String,
    pub api_key: String,
    pub protocol: ProviderProtocol,
    pub authentication: AuthenticationMode,
    pub stage: SetupStage,
}

/// The view of a model that is being set up.
#[verifier::ext_equal]
pub struct SetupView {
    pub model: Seq<char>,
    pub base_url: Seq<char>,
    pub api_key: Seq<char>,
    pub protocol: ProviderProtocol,
    pub authentication: AuthenticationMode,
    pub stage: SetupStage,
}

impl View for ModelSetup {
    type V = SetupView;

    open spec fn view(&self) -> SetupView {
        SetupView {
            model: self.model@,
            base_url: self.base_url@,
            api_key: self.api_key@,
            protocol: self.protocol,
            authentication: self.authentication,
            stage: self.stage,
        }
    }
}

/// The view of a model that may be being set up.
pub open spec fn maybe_setup(s: Option<ModelSetup>) -> Option<SetupView> {
    match s {
        Some(s) => Some(s@),
        None => None,
    }
}

/// What the user wants done.
#[derive(Debug, PartialEq, Eq)]
pub enum TuiAction {
    Nothing,
    Clear,
    Submit(String),
    Reset,
    NewSession,
    ListModels,
    ListSkills,
    ActivateSkill(String),
    DeactivateSkill(String),
    ShowSkill(String),
    SwitchModel(String),
    SwitchModelTo { model: String, model_id: String },
    FetchModelChoices {
        model: String,
        base_url: String,
        api_key: String,
        protocol: ProviderProtocol,
        authentication: AuthenticationMode,
    },
    ConfigureModel {
        model: String,
        base_url: String,
        api_key: String,
        model_id: String,
        protocol: ProviderProtocol,
        authentication: AuthenticationMode,
    },
    ListSessions,
    ResumeSession(String),
    RenameSession(String),
    ShowTree,
    Branch(String),
    Retry,
    Compact,
    Cancel,
    Approval(ApprovalDecision),
    ListProjects,
    SwitchProject(String),
    Quit,
}

/// The view of a decision.
pub enum DecisionView {
    Approve,
    Reject,
    Modify(Seq<char>),
}

impl View for ApprovalDecision {
    type V = DecisionView;

    open spec fn view(&self) -> DecisionView {
        match *self {
            ApprovalDecision::Approve => DecisionView::Approve,
            ApprovalDecision::Reject => DecisionView::Reject,
            ApprovalDecision::Modify(arguments) => DecisionView::Modify(arguments@),
        }
    }
}

/// The view of what the user wants done.
#[allow(inconsistent_fields)]
pub enum ActionView {
    Nothing,
    Clear,
    Submit(Seq<char>),
    Reset,
    NewSession,
    ListModels,
    ListSkills,
    ActivateSkill(Seq<char>),
    DeactivateSkill(Seq<char>),
    ShowSkill(Seq<char>),
    SwitchModel(Seq<char>),
    SwitchModelTo { model: Seq<char>, model_id: Seq<char> },
    FetchModelChoices {
        model: Seq<char>,
        base_url: Seq<char>,
        api_key: Seq<char>,
        protocol: ProviderProtocol,
        authentication: AuthenticationMode,
    },
    ConfigureModel {
        model: Seq<char>,
        base_url: Seq<char>,
        api_key: Seq<char>,
        model_id: Seq<char>,
        protocol: ProviderProtocol,
        authentication: AuthenticationMode,
    },
    ListSessions,
    ResumeSession(Seq<char>),
    RenameSession(Seq<char>),
    ShowTree,
    Branch(Seq<char>),
    Retry,
    Compact,
    Cancel,
    Approval(DecisionView),
    ListProjects,
    SwitchProject(Seq<char>),
    Quit,
}

impl View for TuiAction {
    type V = ActionView;

    open spec fn view(&self) -> ActionView {
        match *self {
            TuiAction::Nothing => ActionView::Nothing,
            TuiAction::Clear => ActionView::Clear,
            TuiAction::Submit(s) => ActionView::Submit(s@),
            TuiAction::Reset => ActionView::Reset,
            TuiAction::NewSession => ActionView::NewSession,
            TuiAction::ListModels => ActionView::ListModels,
            TuiAction::ListSkills => ActionView::ListSkills,
            TuiAction::ActivateSkill(s) => ActionView::ActivateSkill(s@),
            TuiAction::DeactivateSkill(s) => ActionView::DeactivateSkill(s@),
            TuiAction::ShowSkill(s) => ActionView::ShowSkill(s@),
            TuiAction::SwitchModel(s) => ActionView::SwitchModel(s@),
            TuiAction::SwitchModelTo { model, model_id } => ActionView::SwitchModelTo {
                model: model@,
                model_id: model_id@,
            },
            TuiAction::FetchModelChoices { model, base_url, api_key, protocol, authentication } =>
                ActionView::FetchModelChoices {
                model: model@,
                base_url: base_url@,
                api_key: api_key@,
                protocol,
                authentication,
            },
            TuiAction::ConfigureModel {
                model,
                base_url,
                api_key,
                model_id,
                protocol,
                authentication,
            } => ActionView::ConfigureModel {
                model: model@,
                base_url: base_url@,
                api_key: api_key@,
                model_id: model_id@,
                protocol,
                authentication,
            },
            TuiAction::ListSessions => ActionView::ListSessions,
            TuiAction::ResumeSession(s) => ActionView::ResumeSession(s@),
            TuiAction::RenameSession(s) => ActionView::RenameSession(s@),
            TuiAction::ShowTree => ActionView::ShowTree,
            TuiAction::Branch(s) => ActionView::Branch(s@),
            TuiAction::Retry => ActionView::Retry,
            TuiAction::Compact => ActionView::Compact,
            TuiAction::Cancel => ActionView::Cancel,
            TuiAction::Approval(d) => ActionView::Approval(d@),
            TuiAction::ListProjects => ActionView::ListProjects,
            TuiAction::SwitchProject(s) => ActionView::SwitchProject(s@),
            TuiAction::Quit => ActionView::Quit,
        }
    }
}

/// The state of the interface. `cursor_position` counts the bytes of the input
/// before the cursor.
#[derive(Debug)]
pub struct App {
    pub info: AppInfo,
    pub messages: Vec<Message>,
    pub input: String,
    pub cursor_position: usize,
    pub streaming_message_id: Option<u128>,
    pub agent_state: AgentState,
    pub mode: AppMode,
    pub pending_approval: Option<ApprovalRequest>,
    pub status_message: Option<String>,
    pub should_quit: bool,
    pub command_selection: usize,
    pub command_menu_dismissed: bool,
    pub model_choices: Vec<ModelChoice>,
    pub model_selection: usize,
    pub model_setup: Option<ModelSetup>,
    pub background_notifications: usize,
    pub turn_output_tokens: u64,
    pub context_tokens: usize,
}

/// The view of a request.
#[verifier::ext_equal]
pub struct RequestView {
    pub request_id: Seq<char>,
    pub call_id: Seq<char>,
    pub tool_name: Seq<char>,
    pub arguments: Seq<char>,
}

impl View for ApprovalRequest {
    type V = RequestView;

    open spec fn view(&self) -> RequestView {
        RequestView {
            request_id: self.request_id@,
            call_id: self.call_id@,
            tool_name: self.tool_name@,
            arguments: self.arguments@,
        }
    }
}

/// The view of a request that may be open.
pub open spec fn maybe_request(r: Option<ApprovalRequest>) -> Option<RequestView> {
    match r {
        Some(r) => Some(r@),
        None => None,
    }
}

/// The view of the state of the interface.
#[verifier::ext_equal]
pub struct AppView {
    pub info: InfoView,
    pub messages: Seq<MessageView>,
    pub input: Seq<char>,
    pub cursor: usize,
    pub streaming: Option<u128>,
    pub state: AgentState,
    pub mode: AppMode,
    pub pending: Option<RequestView>,
    pub status: Option<Seq<char>>,
    pub quit: bool,
    pub selection: usize,
    pub dismissed: bool,
    pub choices: Seq<ChoiceView>,
    pub model_selection: usize,
    pub setup: Option<SetupView>,
    pub notifications: usize,
    pub output_tokens: u64,
    pub context_tokens: usize,
}

impl View for App {
    type V = AppView;

    open spec fn view(&self) -> AppView {
        AppView {
            info: self.info@,
            messages: message_views(self.messages@),
            input: self.input@,
            cursor: self.cursor_position,
            streaming: self.streaming_message_id,
            state: self.agent_state,
            mode: self.mode,
            pending: maybe_request(self.pending_approval),
            status: maybe(self.status_message),
            quit: self.should_quit,
            selection: self.command_selection,
            dismissed: self.command_menu_dismissed,
            choices: choice_views(self.model_choices@),
            model_selection: self.model_selection,
            setup: maybe_setup(self.model_setup),
            notifications: self.background_notifications,
            output_tokens: self.turn_output_tokens,
            context_tokens: self.context_tokens,
        }
    }
}

/// The messages that are kept: the latest.
pub open spec fn kept(messages: Seq<MessageView>) -> Seq<MessageView> {
    if messages.len() > MAX_MESSAGE_HISTORY {
        messages.skip(messages.len() - MAX_MESSAGE_HISTORY)
    } else {
        messages
    }
}

/// The state with one more message.
pub open spec fn with_message(v: AppView, m: MessageView) -> AppView {
    AppView { messages: kept(v.messages.push(m)), ..v }
}

/// Where the message of an identifier stands; behind all where there is none.
pub open spec fn message_slot(messages: Seq<MessageView>, id: u128) -> int
    decreases messages.len(),
{
    if messages.len() == 0 {
        0
    } else if messages[0].id == id {
        0
    } else {
        1 + message_slot(messages.drop_first(), id)
    }
}

/// Where the latest message of a call stands.
pub open spec fn call_slot(messages: Seq<MessageView>, call_id: Seq<char>) -> Option<int>
    decreases messages.len(),
{
    if messages.len() == 0 {
        None
    } else if messages.last().tool_call_id == Some(call_id) {
        Some(messages.len() - 1)
    } else {
        call_slot(messages.drop_last(), call_id)
    }
}

proof fn lemma_message_slot(messages: Seq<MessageView>, id: u128, k: int)
    requires
        0 <= k <= messages.len(),
        forall|j: int| 0 <= j < k ==> (#[trigger] messages[j]).id != id,
        k < messages.len() ==> messages[k].id == id,
    ensures
        message_slot(messages, id) == k,
    decreases k,
{
    if k > 0 {
        assert(messages[0].id != id);
        assert forall|j: int| 0 <= j < k - 1 implies (#[trigger] messages.drop_first()[j]).id != id by {
            assert(messages.drop_first()[j] == messages[j + 1]);
        }
        lemma_message_slot(messages.drop_first(), id, k - 1);
    }
}

/// A JSON text as a message shows it.
pub open spec fn shown_json(text: Seq<char>) -> Seq<char> {
    if text.len() <= JSON_LIMIT {
        text
    } else {
        first(text, JSON_LIMIT as nat) + "…"@
    }
}

/// The state with no message coming in.
pub open spec fn settled(v: AppView) -> AppView {
    AppView {
        streaming: None,
        messages: v.messages.map_values(
            |m: MessageView| MessageView { is_streaming: false, ..m },
        ),
        ..v
    }
}

/// The state after a piece of the model's answer: the first piece makes a new
/// message, and the others continue it.
pub open spec fn after_text(v: AppView, chunk: Seq<char>, is_final: bool, id: u128) -> AppView {
    let opened = if v.streaming is None && chunk.len() > 0 {
        with_message(
            AppView { streaming: Some(id), ..v },
            MessageView {
                is_streaming: true,
                ..whole_message(id, MessageKind::Agent, Seq::empty())
            },
        )
    } else {
        v
    };
    match opened.streaming {
        None => opened,
        Some(sid) => {
            let k = message_slot(opened.messages, sid);
            if k >= opened.messages.len() {
                opened
            } else {
                let m = opened.messages[k];
                AppView {
                    messages: opened.messages.update(
                        k,
                        MessageView {
                            content: m.content + chunk,
                            is_streaming: if is_final {
                                false
                            } else {
                                m.is_streaming
                            },
                            ..m
                        },
                    ),
                    streaming: if is_final {
                        None
                    } else {
                        opened.streaming
                    },
                    state: if is_final {
                        opened.state
                    } else {
                        AgentState::Generating
                    },
                    ..opened
                }
            }
        },
    }
}

/// The state after a tool has ended: its message says so, or a new one does.
pub open spec fn after_tool(
    v: AppView,
    call_id: Seq<char>,
    name: Seq<char>,
    result: Seq<char>,
    success: bool,
    id: u128,
) -> AppView {
    let content = name + " "@ + (if success {
        "completed"@
    } else {
        "failed"@
    }) + ": "@ + shown_json(result);
    let told = match call_slot(v.messages, call_id) {
        Some(k) => AppView {
            messages: v.messages.update(
                k,
                MessageView { content, is_streaming: false, ..v.messages[k] },
            ),
            ..v
        },
        None => with_message(
            v,
            MessageView {
                tool_call_id: Some(call_id),
                ..whole_message(id, MessageKind::Tool, content)
            },
        ),
    };
    AppView { state: AgentState::Thinking, ..told }
}

/// What the user is asked.
pub open spec fn approval_text(tool_name: Seq<char>, arguments: Seq<char>) -> Seq<char> {
    "Approval required for "@ + tool_name + ": "@ + shown_json(arguments)
        + "\nUse /approve, /reject, or /modify <json>."@
}

/// The state after a report of the agent; `id` is the identifier that a new
/// message gets.
pub open spec fn after_event(v: AppView, event: AgentEventView, id: u128) -> AppView {
    match event {
        AgentEventView::TurnStarted { turn_id: _ } => AppView {
            state: AgentState::Thinking,
            status: None,
            output_tokens: 0,
            ..v
        },
        AgentEventView::TextDelta { turn_id: _, message_id: _, chunk, is_final } => after_text(
            v,
            chunk,
            is_final,
            id,
        ),
        AgentEventView::ToolStarted { turn_id: _, call_id, name, arguments } => AppView {
            state: AgentState::RunningTool,
            ..with_message(
                v,
                MessageView {
                    is_streaming: true,
                    tool_call_id: Some(call_id),
                    ..whole_message(id, MessageKind::Tool, name + " "@ + shown_json(arguments))
                },
            )
        },
        AgentEventView::ToolFinished { turn_id: _, call_id, name, result, success } => after_tool(
            v,
            call_id,
            name,
            result,
            success,
            id,
        ),
        AgentEventView::DiagnosticsUpdated { turn_id: _, diagnostics } => AppView {
            output_tokens: diagnostics.usage.output_tokens,
            ..v
        },
        AgentEventView::ApprovalRequired {
            turn_id: _,
            request_id,
            call_id,
            tool_name,
            arguments,
        } => with_message(
            AppView {
                pending: Some(RequestView { request_id, call_id, tool_name, arguments }),
                mode: AppMode::Confirming,
                state: AgentState::WaitingApproval,
                ..v
            },
            whole_message(id, MessageKind::System, approval_text(tool_name, arguments)),
        ),
        AgentEventView::TurnCompleted { turn_id: _ } => AppView {
            state: AgentState::Idle,
            mode: AppMode::Normal,
            pending: None,
            ..settled(v)
        },
        AgentEventView::Error { turn_id: _, message, recoverable } => AppView {
            state: AgentState::Error,
            mode: AppMode::Normal,
            pending: None,
            ..with_message(
                settled(v),
                whole_message(
                    id,
                    MessageKind::Error,
                    (if recoverable {
                        "Recoverable error"@
                    } else {
                        "Error"@
                    }) + ": "@ + message,
                ),
            )
        },
    }
}

/// What `/status` says.
pub open spec fn status_text(info: InfoView, state: AgentState) -> Seq<char> {
    "Workspace: "@ + info.workspace + "\nModel: "@ + info.model + "\nModel ID: "@ + info.model_id
        + "\nState: "@ + state_name(state)
}

/// What `/skill` asks for: to show a Skill, to switch it off, or to switch it
/// on.
pub open spec fn skill_action(argument: Seq<char>) -> ActionView {
    if begins(argument, "show "@) {
        ActionView::ShowSkill(trimmed(argument.skip("show "@.len() as int)))
    } else if begins(argument, "off "@) {
        ActionView::DeactivateSkill(trimmed(argument.skip("off "@.len() as int)))
    } else {
        ActionView::ActivateSkill(argument)
    }
}

/// What stands behind the name of a command.
pub open spec fn argument_of(input: Seq<char>, command: Seq<char>) -> Seq<char> {
    trimmed(input.skip(command.len() as int))
}

/// What a command without an argument asks of the agent's host.
pub open spec fn plain_command(input: Seq<char>) -> Option<ActionView> {
    if input == "/cancel"@ {
        Some(ActionView::Cancel)
    } else if input == "/new"@ {
        Some(ActionView::NewSession)
    } else if input == "/model"@ {
        Some(ActionView::ListModels)
    } else if input == "/sessions"@ {
        Some(ActionView::ListSessions)
    } else if input == "/tree"@ {
        Some(ActionView::ShowTree)
    } else if input == "/retry"@ {
        Some(ActionView::Retry)
    } else if input == "/compact"@ {
        Some(ActionView::Compact)
    } else if input == "/skills"@ {
        Some(ActionView::ListSkills)
    } else if input == "/projects"@ {
        Some(ActionView::ListProjects)
    } else {
        None
    }
}

/// What a command with an argument asks of the agent's host.
pub open spec fn argument_command(input: Seq<char>) -> Option<ActionView> {
    if begins(input, "/model "@) {
        Some(ActionView::SwitchModel(argument_of(input, "/model "@)))
    } else if begins(input, "/branch "@) {
        Some(ActionView::Branch(argument_of(input, "/branch "@)))
    } else if begins(input, "/resume "@) {
        Some(ActionView::ResumeSession(argument_of(input, "/resume "@)))
    } else if begins(input, "/rename "@) {
        Some(ActionView::RenameSession(argument_of(input, "/rename "@)))
    } else if begins(input, "/skill "@) {
        Some(skill_action(argument_of(input, "/skill "@)))
    } else if begins(input, "/project "@) {
        Some(ActionView::SwitchProject(argument_of(input, "/project "@)))
    } else {
        None
    }
}

/// The state and what is wanted after changed arguments were given.
pub open spec fn after_modify(v: AppView, arguments: Result<Seq<char>, Seq<char>>) -> (
    AppView,
    ActionView,
) {
    match arguments {
        Ok(value) => (v, ActionView::Approval(DecisionView::Modify(value))),
        Err(m) => (
            AppView { status: Some("Invalid JSON: "@ + m), ..v },
            ActionView::Nothing,
        ),
    }
}

/// The state and what is wanted after something was submitted; `id` is the
/// identifier that a new message gets.
pub open spec fn after_submission(v: AppView, input: Seq<char>, id: u128) -> (AppView, ActionView) {
    if input == "/help"@ {
        (with_message(v, whole_message(id, MessageKind::System, HELP@)), ActionView::Nothing)
    } else if input == "/clear"@ {
        (AppView { messages: Seq::empty(), streaming: None, ..v }, ActionView::Clear)
    } else if input == "/reset"@ {
        if !at_work(v.state) {
            (
                with_message(
                    AppView { messages: Seq::empty(), streaming: None, ..v },
                    whole_message(id, MessageKind::System, "Session reset."@),
                ),
                ActionView::Reset,
            )
        } else {
            (
                AppView { status: Some("Agent is busy; cancel before resetting."@), ..v },
                ActionView::Nothing,
            )
        }
    } else if input == "/status"@ {
        (
            with_message(
                v,
                whole_message(id, MessageKind::System, status_text(v.info, v.state)),
            ),
            ActionView::Nothing,
        )
    } else if (input == "/approve"@ || input == "/confirm"@) && v.mode == AppMode::Confirming {
        (v, ActionView::Approval(DecisionView::Approve))
    } else if input == "/reject"@ && v.mode == AppMode::Confirming {
        (v, ActionView::Approval(DecisionView::Reject))
    } else if input == "/quit"@ || input == "/exit"@ {
        (AppView { quit: true, ..v }, ActionView::Quit)
    } else if plain_command(input) is Some {
        (v, plain_command(input)->0)
    } else if begins(input, "/modify "@) && v.mode == AppMode::Confirming {
        after_modify(v, json_compact(argument_of(input, "/modify "@)))
    } else if argument_command(input) is Some {
        (v, argument_command(input)->0)
    } else if begins(input, "/"@) {
        (AppView { status: Some("Unknown command: "@ + input), ..v }, ActionView::Nothing)
    } else if at_work(v.state) {
        (
            AppView { status: Some("Agent is busy; wait or use /cancel."@), ..v },
            ActionView::Nothing,
        )
    } else {
        (
            AppView {
                state: AgentState::Thinking,
                ..with_message(v, whole_message(id, MessageKind::User, input))
            },
            ActionView::Submit(input),
        )
    }
}

/// The state with another input, and the cursor behind it.
pub open spec fn with_input(v: AppView, input: Seq<char>) -> AppView {
    AppView {
        input,
        cursor: byte_len(input) as usize,
        selection: 0,
        dismissed: false,
        ..v
    }
}

/// The state and what is wanted after the input was submitted.
pub open spec fn after_input(v: AppView, id: u128) -> (AppView, ActionView) {
    if blank(v.input) {
        (v, ActionView::Nothing)
    } else {
        after_submission(with_input(v, Seq::empty()), trimmed(v.input), id)
    }
}

/// The commands that the menu shows.
pub open spec fn menu(v: AppView) -> Seq<CommandView> {
    if v.dismissed || (v.mode != AppMode::Normal && v.mode != AppMode::Confirming) {
        Seq::empty()
    } else {
        suggested(v.input, v.mode)
    }
}

/// The command that is selected in the menu.
pub open spec fn selected(v: AppView) -> CommandView {
    menu(v)[if v.selection < menu(v).len() {
        v.selection as int
    } else {
        menu(v).len() - 1
    }]
}

/// The state and what is wanted after the selected command was accepted: one
/// that needs an argument is written into the input, and another is given.
pub open spec fn after_accepting(v: AppView, id: u128) -> Option<(AppView, ActionView)> {
    if menu(v).len() == 0 {
        None
    } else {
        let c = selected(v);
        if c.argument_required {
            Some((with_input(v, "/"@ + c.name + " "@), ActionView::Nothing))
        } else {
            Some(after_submission(with_input(v, Seq::empty()), "/"@ + c.name, id))
        }
    }
}

/// The state after the selected command was written into the input.
pub open spec fn after_completing(v: AppView) -> AppView {
    if menu(v).len() == 0 {
        v
    } else {
        let c = selected(v);
        if c.argument_required {
            with_input(v, "/"@ + c.name + " "@)
        } else {
            AppView { dismissed: true, ..with_input(v, "/"@ + c.name) }
        }
    }
}

/// A selection one further up, around the top.
pub open spec fn one_up(selection: usize, count: nat) -> usize {
    if selection == 0 {
        (count - 1) as usize
    } else {
        (selection - 1) as usize
    }
}

/// A selection one further down, around the bottom.
pub open spec fn one_down(selection: usize, count: nat) -> usize {
    if selection + 1 >= count {
        0
    } else {
        (selection + 1) as usize
    }
}

/// Where the current one of some choices stands; at the top where none is.
pub open spec fn current_choice(choices: Seq<ChoiceView>) -> int
    decreases choices.len(),
{
    if choices.len() == 0 {
        0
    } else if choices[0].current {
        0
    } else {
        let k = current_choice(choices.drop_first());
        if k < choices.len() - 1 && choices.drop_first()[k].current {
            k + 1
        } else {
            0
        }
    }
}

/// The state with the menu of models closed.
pub open spec fn menu_closed(v: AppView) -> AppView {
    AppView {
        mode: AppMode::Normal,
        choices: Seq::empty(),
        model_selection: 0,
        setup: None,
        ..v
    }
}

/// The model that is a model's own default.
pub open spec fn is_default_choice(c: ChoiceView) -> bool {
    crate::model::model_named(c.model) matches Some(m) && c.model_id == crate::model::default_of(m)
}

/// What choosing a model asks for.
pub open spec fn choice_action(setup: Option<SetupView>, c: ChoiceView) -> ActionView {
    match setup {
        Some(s) => ActionView::ConfigureModel {
            model: s.model,
            base_url: s.base_url,
            api_key: s.api_key,
            model_id: c.model_id,
            protocol: s.protocol,
            authentication: s.authentication,
        },
        None => if is_default_choice(c) {
            ActionView::SwitchModel(c.model)
        } else {
            ActionView::SwitchModelTo { model: c.model, model_id: c.model_id }
        },
    }
}

/// The state and what is wanted after the selected model was accepted.
pub open spec fn after_choosing(v: AppView) -> (AppView, ActionView) {
    if v.choices.len() == 0 {
        (menu_closed(v), ActionView::Nothing)
    } else {
        let k = if v.model_selection < v.choices.len() {
            v.model_selection as int
        } else {
            v.choices.len() - 1
        };
        (menu_closed(v), choice_action(v.setup, v.choices[k]))
    }
}

/// What the input asks for while a model is set up.
pub open spec fn setup_prompt(s: SetupView) -> Seq<char> {
    match s.stage {
        SetupStage::Protocol => "Protocol (openai-compatible or anthropic-messages)"@,
        SetupStage::BaseUrl => "Base URL (empty keeps "@ + s.base_url + ")"@,
        SetupStage::Authentication => "Authentication (bearer or x-api-key)"@,
        SetupStage::ApiKey => "API key"@,
        SetupStage::ModelId => "Discovering models…"@,
    }
}

/// The state with another stage of a model's setup, and an empty input.
pub open spec fn at_stage(v: AppView, s: SetupView, stage: SetupStage) -> AppView {
    AppView { setup: Some(SetupView { stage, ..s }), ..with_input(v, Seq::empty()) }
}

/// The state with a remark.
pub open spec fn remarked(v: AppView, text: Seq<char>) -> AppView {
    AppView { status: Some(text), ..v }
}

/// The state and what is wanted after an answer was given in a model's setup.
/// An empty answer keeps what is there, except for the key.
pub open spec fn after_answer(v: AppView, s: SetupView) -> (AppView, ActionView) {
    let answer = trimmed(v.input);
    match s.stage {
        SetupStage::Protocol => if answer.len() == 0 {
            (at_stage(v, s, SetupStage::BaseUrl), ActionView::Nothing)
        } else {
            match protocol_named(answer) {
                Some(protocol) => (
                    at_stage(v, SetupView { protocol, ..s }, SetupStage::BaseUrl),
                    ActionView::Nothing,
                ),
                None => (remarked(v, "Unknown protocol: "@ + answer), ActionView::Nothing),
            }
        },
        SetupStage::BaseUrl => if answer.len() == 0 {
            (at_stage(v, s, SetupStage::Authentication), ActionView::Nothing)
        } else {
            (
                at_stage(v, SetupView { base_url: answer, ..s }, SetupStage::Authentication),
                ActionView::Nothing,
            )
        },
        SetupStage::Authentication => if answer.len() == 0 {
            (at_stage(v, s, SetupStage::ApiKey), ActionView::Nothing)
        } else {
            match authentication_named(answer) {
                Some(authentication) => (
                    at_stage(v, SetupView { authentication, ..s }, SetupStage::ApiKey),
                    ActionView::Nothing,
                ),
                None => (
                    remarked(v, "Unknown authentication mode: "@ + answer),
                    ActionView::Nothing,
                ),
            }
        },
        SetupStage::ApiKey => if answer.len() == 0 {
            (remarked(v, "API key cannot be empty."@), ActionView::Nothing)
        } else {
            (
                at_stage(v, SetupView { api_key: answer, ..s }, SetupStage::ModelId),
                ActionView::FetchModelChoices {
                    model: s.model,
                    base_url: s.base_url,
                    api_key: answer,
                    protocol: s.protocol,
                    authentication: s.authentication,
                },
            )
        },
        SetupStage::ModelId => (v, ActionView::Nothing),
    }
}

/// The kind of message that a kind of transcript item becomes.
pub open spec fn kind_of(k: TranscriptKind) -> MessageKind {
    match k {
        TranscriptKind::User => MessageKind::User,
        TranscriptKind::Agent => MessageKind::Agent,
        TranscriptKind::Tool => MessageKind::Tool,
        TranscriptKind::System => MessageKind::System,
        TranscriptKind::Error => MessageKind::Error,
    }
}

/// The messages of a transcript.
pub open spec fn transcript_messages(items: Seq<ItemView>) -> Seq<MessageView> {
    items.map_values(
        |i: ItemView| MessageView {
            id: i.id,
            kind: kind_of(i.kind),
            content: i.content,
            is_streaming: false,
            tool_call_id: i.tool_call_id,
        },
    )
}

/// The state with the menu of models open, and the current one selected.
pub open spec fn choosing(v: AppView, choices: Seq<ChoiceView>) -> AppView {
    AppView {
        mode: AppMode::SelectingModel,
        choices,
        model_selection: current_choice(choices) as usize,
        ..v
    }
}

/// The state in which a model's setup begins.
pub open spec fn setting_up(v: AppView, model: Seq<char>, base_url: Seq<char>) -> AppView {
    AppView {
        mode: AppMode::ConfiguringModel,
        setup: Some(
            SetupView {
                model,
                base_url,
                api_key: Seq::empty(),
                protocol: ProviderProtocol::OpenAiCompatible,
                authentication: AuthenticationMode::Bearer,
                stage: SetupStage::Protocol,
            },
        ),
        ..with_input(v, Seq::empty())
    }
}

/// The state in which a model's setup ends with the choice of one of a
/// service's models.
pub open spec fn choosing_id(v: AppView, s: SetupView, ids: Seq<Seq<char>>) -> AppView {
    AppView {
        mode: AppMode::SelectingModel,
        choices: id_choices(s.model, ids),
        model_selection: 0,
        setup: Some(s),
        ..v
    }
}

/// The message that says how many others came before.
pub open spec fn earlier_notice(count: nat) -> MessageView {
    MessageView {
        id: 0,
        kind: MessageKind::System,
        content: decimal(count) + " earlier messages are not shown."@,
        is_streaming: false,
        tool_call_id: None,
    }
}

/// What is shown of a session that is taken up again: its latest messages, and
/// how many came before.
pub open spec fn restored(messages: Seq<MessageView>) -> Seq<MessageView> {
    if messages.len() > RESTORED_MESSAGES {
        let earlier = (messages.len() - RESTORED_MESSAGES) as nat;
        seq![earlier_notice(earlier)] + messages.skip(earlier as int)
    } else {
        messages
    }
}

/// What the interface is about in a session.
pub open spec fn info_of(summary: SummaryView) -> InfoView {
    InfoView {
        workspace: summary.workspace,
        model: summary.model,
        model_id: summary.model_id,
    }
}

/// The state in which a session is shown.
pub open spec fn loaded(
    v: AppView,
    summary: SummaryView,
    transcript: Seq<ItemView>,
    context_tokens: usize,
) -> AppView {
    AppView {
        info: info_of(summary),
        messages: restored(transcript_messages(transcript)),
        streaming: None,
        state: AgentState::Idle,
        mode: AppMode::Normal,
        pending: None,
        status: None,
        context_tokens,
        ..v
    }
}

/// The state with another model or context of the session.
pub open spec fn updated(v: AppView, summary: SummaryView, context_tokens: usize) -> AppView {
    AppView { info: info_of(summary), context_tokens, ..v }
}

/// The state in which one more thing has happened in the background.
pub open spec fn notified(v: AppView) -> AppView {
    AppView {
        notifications: if v.notifications == usize::MAX {
            usize::MAX
        } else {
            (v.notifications + 1) as usize
        },
        ..v
    }
}

/// A text in two parts.
fn joined_text(a: &str, b: &str) -> (r: String)
    ensures
        r@ == a@ + b@,
{
    let mut out: String = a.to_owned();
    out.append(b);
    out
}

/// A JSON text as a message shows it.
pub fn compact_json(text: &str) -> (r: String)
    ensures
        r@ == shown_json(text@),
{
    if text.unicode_len() <= JSON_LIMIT {
        return text.to_owned();
    }
    joined_text(take_chars(text, JSON_LIMIT).as_str(), "…")
}

impl App {
    /// An interface in which nothing has happened.
    pub fn new(info: AppInfo) -> (r: Self)
        ensures
            r@ == (AppView {
                info: info@,
                messages: Seq::empty(),
                input: Seq::empty(),
                cursor: 0,
                streaming: None,
                state: AgentState::Idle,
                mode: AppMode::Normal,
                pending: None,
                status: None,
                quit: false,
                selection: 0,
                dismissed: false,
                choices: Seq::empty(),
                model_selection: 0,
                setup: None,
                notifications: 0,
                output_tokens: 0,
                context_tokens: 0,
            }),
    {
        let out = App {
            info,
            messages: Vec::new(),
            input: String::new(),
            cursor_position: 0,
            streaming_message_id: None,
            agent_state: AgentState::Idle,
            mode: AppMode::Normal,
            pending_approval: None,
            status_message: None,
            should_quit: false,
            command_selection: 0,
            command_menu_dismissed: false,
            model_choices: Vec::new(),
            model_selection: 0,
            model_setup: None,
            background_notifications: 0,
            turn_output_tokens: 0,
            context_tokens: 0,
        };
        assert(out@.messages =~= Seq::<MessageView>::empty());
        assert(out@.choices =~= Seq::<ChoiceView>::empty());
        out
    }

    /// Adds a message; the oldest go where there are too many.
    pub fn add_message(&mut self, message: Message)
        ensures
            final(self)@ == with_message(old(self)@, message@),
    {
        let ghost all = self@.messages.push(message@);
        self.messages.push(message);
        assert(message_views(self.messages@) =~= all);
        let ghost total = all.len();
        assert(all.skip(0) =~= all);
        while self.messages.len() > MAX_MESSAGE_HISTORY
            invariant
                total == all.len(),
                self.messages@.len() <= total,
                total > MAX_MESSAGE_HISTORY ==> self.messages@.len() >= MAX_MESSAGE_HISTORY,
                total <= MAX_MESSAGE_HISTORY ==> self.messages@.len() == total,
                self@ == (AppView {
                    messages: all.skip(total - self.messages@.len()),
                    ..old(self)@
                }),
            decreases self.messages@.len(),
        {
            let ghost before = self@.messages;
            let _gone = self.messages.remove(0);
            assert(self@.messages =~= before.drop_first());
            assert(before.drop_first() =~= all.skip(total - self.messages@.len()));
        }
        assert(self@.messages =~= kept(all));
    }

    /// Where the message of an identifier stands.
    fn find_message(&self, id: u128) -> (r: Option<usize>)
        ensures
            match r {
                Some(k) => k < self.messages@.len() && k == message_slot(self@.messages, id),
                None => message_slot(self@.messages, id) == self@.messages.len(),
            },
    {
        let ghost all = self@.messages;
        let mut i: usize = 0;
        while i < self.messages.len()
            invariant
                i <= self.messages.len(),
                all == message_views(self.messages@),
                forall|j: int| 0 <= j < i ==> (#[trigger] all[j]).id != id,
            decreases self.messages.len() - i,
        {
            if self.messages[i].id == id {
                proof {
                    lemma_message_slot(all, id, i as int);
                }
                return Some(i);
            }
            i += 1;
        }
        proof {
            lemma_message_slot(all, id, i as int);
        }
        None
    }

    /// Where the latest message of a call stands.
    fn find_call(&self, call_id: &str) -> (r: Option<usize>)
        ensures
            match r {
                Some(k) => k < self.messages@.len() && call_slot(self@.messages, call_id@) == Some(
                    k as int,
                ),
                None => call_slot(self@.messages, call_id@) is None,
            },
    {
        let ghost all = self@.messages;
        let mut i: usize = self.messages.len();
        assert(all.take(i as int) =~= all);
        while i > 0
            invariant
                i <= self.messages.len(),
                all == message_views(self.messages@),
                call_slot(all, call_id@) == call_slot(all.take(i as int), call_id@),
            decreases i,
        {
            proof {
                assert(all.take(i as int).last() == self.messages@[i - 1]@);
                assert(all.take(i as int).drop_last() =~= all.take(i - 1));
            }
            let matches_call = match &self.messages[i - 1].tool_call_id {
                Some(id) => same(id.as_str(), call_id),
                None => false,
            };
            if matches_call {
                return Some(i - 1);
            }
            i -= 1;
        }
        None
    }

    /// Puts a message in the place of another.
    fn set_message(&mut self, k: usize, message: Message)
        requires
            k < old(self).messages@.len(),
        ensures
            final(self)@ == (AppView {
                messages: old(self)@.messages.update(k as int, message@),
                ..old(self)@
            }),
    {
        let ghost view = message@;
        self.messages.set(k, message);
        assert(self@.messages =~= old(self)@.messages.update(k as int, view));
    }

    /// A copy of a message.
    fn copy_message(&self, k: usize) -> (r: Message)
        requires
            k < self.messages@.len(),
        ensures
            r@ == self@.messages[k as int],
    {
        let m = &self.messages[k];
        Message {
            id: m.id,
            kind: m.kind,
            content: m.content.clone(),
            is_streaming: m.is_streaming,
            tool_call_id: m.tool_call_id.clone(),
        }
    }

    /// Lets no message be coming in.
    fn finish_streaming_message(&mut self)
        ensures
            final(self)@ == settled(old(self)@),
    {
        self.streaming_message_id = None;
        let ghost all = self@.messages;
        let ghost done = all.map_values(|m: MessageView| MessageView { is_streaming: false, ..m });
        let mut i: usize = 0;
        while i < self.messages.len()
            invariant
                i <= self.messages.len(),
                self.messages@.len() == all.len(),
                done == all.map_values(|m: MessageView| MessageView { is_streaming: false, ..m }),
                self@ == (AppView {
                    streaming: None,
                    messages: done.take(i as int) + all.skip(i as int),
                    ..old(self)@
                }),
            decreases self.messages.len() - i,
        {
            let mut message = self.copy_message(i);
            assert(message@ == all[i as int]);
            message.is_streaming = false;
            assert(message@ =~= done[i as int]);
            self.set_message(i, message);
            i += 1;
            assert(self@.messages =~= done.take(i as int) + all.skip(i as int));
        }
        assert(done.take(i as int) + all.skip(i as int) =~= done);
    }

    /// Takes in a report of the agent.
    pub fn handle_agent_event(&mut self, event: AgentEvent)
        ensures
            exists|id: u128| #[trigger] after_event(old(self)@, event@, id) == final(self)@,
    {
        let id: u128 = random_uuid();
        self.handle_agent_event_as(event, id);
        assert(after_event(old(self)@, event@, id) == self@);
    }

    /// Takes in a report of the agent, with a given identifier for a new
    /// message.
    pub fn handle_agent_event_as(&mut self, event: AgentEvent, id: u128)
        ensures
            final(self)@ == after_event(old(self)@, event@, id),
    {
        match event {
            AgentEvent::TurnStarted { turn_id: _ } => {
                self.agent_state = AgentState::Thinking;
                self.status_message = None;
                self.turn_output_tokens = 0;
            },
            AgentEvent::TextDelta { turn_id: _, message_id: _, chunk, is_final } => {
                self.take_text(chunk, is_final, id);
            },
            AgentEvent::ToolStarted { turn_id: _, call_id, name, arguments } => {
                let mut content: String = name;
                content.append(" ");
                content.append(compact_json(arguments.as_str()).as_str());
                let mut message = Message::with_id(id, MessageKind::Tool, content);
                message.is_streaming = true;
                message.tool_call_id = Some(call_id);
                self.add_message(message);
                self.agent_state = AgentState::RunningTool;
            },
            AgentEvent::ToolFinished { turn_id: _, call_id, name, result, success } => {
                let mut content: String = name;
                content.append(" ");
                content.append(if success {
                    "completed"
                } else {
                    "failed"
                });
                content.append(": ");
                content.append(compact_json(result.as_str()).as_str());
                match self.find_call(call_id.as_str()) {
                    Some(k) => {
                        let mut message = self.copy_message(k);
                        message.content = content;
                        message.is_streaming = false;
                        self.set_message(k, message);
                    },
                    None => {
                        let mut message = Message::with_id(id, MessageKind::Tool, content);
                        message.tool_call_id = Some(call_id);
                        self.add_message(message);
                    },
                }
                self.agent_state = AgentState::Thinking;
            },
            AgentEvent::DiagnosticsUpdated { turn_id: _, diagnostics } => {
                self.turn_output_tokens = diagnostics.usage.output_tokens;
            },
            AgentEvent::ApprovalRequired {
                turn_id: _,
                request_id,
                call_id,
                tool_name,
                arguments,
            } => {
                let mut content: String = "Approval required for ".to_owned();
                content.append(tool_name.as_str());
                content.append(": ");
                content.append(compact_json(arguments.as_str()).as_str());
                content.append("\nUse /approve, /reject, or /modify <json>.");
                self.pending_approval = Some(
                    ApprovalRequest { request_id, call_id, tool_name, arguments },
                );
                self.mode = AppMode::Confirming;
                self.agent_state = AgentState::WaitingApproval;
                self.add_message(Message::with_id(id, MessageKind::System, content));
            },
            AgentEvent::TurnCompleted { turn_id: _ } => {
                self.finish_streaming_message();
                self.agent_state = AgentState::Idle;
                self.mode = AppMode::Normal;
                self.pending_approval = None;
            },
            AgentEvent::Error { turn_id: _, message, recoverable } => {
                self.finish_streaming_message();
                let mut content: String = if recoverable {
                    "Recoverable error".to_owned()
                } else {
                    "Error".to_owned()
                };
                content.append(": ");
                content.append(message.as_str());
                self.add_message(Message::with_id(id, MessageKind::Error, content));
                self.agent_state = AgentState::Error;
                self.mode = AppMode::Normal;
                self.pending_approval = None;
            },
        }
    }

    /// Takes in a piece of the model's answer.
    fn take_text(&mut self, chunk: String, is_final: bool, id: u128)
        ensures
            final(self)@ == after_text(old(self)@, chunk@, is_final, id),
    {
        if self.streaming_message_id.is_none() && !chunk.as_str().is_empty() {
            let mut message = Message::with_id(id, MessageKind::Agent, String::new());
            message.is_streaming = true;
            assert(message@ =~= MessageView {
                is_streaming: true,
                ..whole_message(id, MessageKind::Agent, Seq::empty())
            });
            self.streaming_message_id = Some(id);
            self.add_message(message);
        }
        let sid = match self.streaming_message_id {
            Some(sid) => sid,
            None => {
                return;
            },
        };
        match self.find_message(sid) {
            None => {},
            Some(k) => {
                let mut message = self.copy_message(k);
                message.content.append(chunk.as_str());
                if is_final {
                    message.is_streaming = false;
                    self.streaming_message_id = None;
                } else {
                    self.agent_state = AgentState::Generating;
                }
                self.set_message(k, message);
            },
        }
    }

    /// Submits the input.
    pub fn submit_input(&mut self) -> (r: TuiAction)
        ensures
            exists|id: u128| #[trigger] after_input(old(self)@, id) == (final(self)@, r@),
    {
        let id: u128 = random_uuid();
        let action = self.submit_input_as(id);
        assert(after_input(old(self)@, id) == (self@, action@));
        action
    }

    /// Submits the input, with a given identifier for a new message.
    pub fn submit_input_as(&mut self, id: u128) -> (r: TuiAction)
        ensures
            after_input(old(self)@, id) == (final(self)@, r@),
    {
        if is_blank(self.input.as_str()) {
            return TuiAction::Nothing;
        }
        let input = trim(self.input.as_str());
        self.set_input("");
        proof {
            reveal_strlit("");
            assert(""@ =~= Seq::<char>::empty());
        }
        self.handle_submission_as(input, id)
    }

    /// Sets the input, with the cursor behind it.
    fn set_input(&mut self, input: &str)
        ensures
            final(self)@ == with_input(old(self)@, input@),
            final(self)@.cursor == byte_len(input@),
    {
        self.input = input.to_owned();
        self.cursor_position = byte_count(input);
        self.input_changed();
        assert(self@ =~= with_input(old(self)@, input@));
    }

    /// Takes in that the input is another: the menu is open again, with its top
    /// selected.
    pub fn input_changed(&mut self)
        ensures
            final(self)@ == (AppView { selection: 0, dismissed: false, ..old(self)@ }),
    {
        self.command_selection = 0;
        self.command_menu_dismissed = false;
    }

    /// Takes in what the user submitted.
    pub fn handle_submission(&mut self, input: String) -> (r: TuiAction)
        ensures
            exists|id: u128| #[trigger]
                after_submission(old(self)@, input@, id) == (final(self)@, r@),
    {
        let id: u128 = random_uuid();
        let ghost text = input@;
        let action = self.handle_submission_as(input, id);
        assert(after_submission(old(self)@, text, id) == (self@, action@));
        action
    }

    /// Takes in what the user submitted, with a given identifier for a new
    /// message.
    pub fn handle_submission_as(&mut self, input: String, id: u128) -> (r: TuiAction)
        ensures
            after_submission(old(self)@, input@, id) == (final(self)@, r@),
            final(self)@.input == old(self)@.input,
            final(self)@.cursor == old(self)@.cursor,
    {
        let text = input.as_str();
        if same(text, "/help") {
            self.add_message(Message::with_id(id, MessageKind::System, HELP.to_owned()));
            return TuiAction::Nothing;
        }
        if same(text, "/clear") {
            self.clear_messages();
            return TuiAction::Clear;
        }
        if same(text, "/reset") {
            if !self.agent_state.is_at_work() {
                self.clear_messages();
                self.add_message(
                    Message::with_id(id, MessageKind::System, "Session reset.".to_owned()),
                );
                return TuiAction::Reset;
            }
            self.status_message = Some("Agent is busy; cancel before resetting.".to_owned());
            return TuiAction::Nothing;
        }
        if same(text, "/status") {
            let mut content: String = "Workspace: ".to_owned();
            content.append(self.info.workspace.as_str());
            content.append("\nModel: ");
            content.append(self.info.model.as_str());
            content.append("\nModel ID: ");
            content.append(self.info.model_id.as_str());
            content.append("\nState: ");
            content.append(self.agent_state.name());
            self.add_message(Message::with_id(id, MessageKind::System, content));
            return TuiAction::Nothing;
        }
        let confirming = self.mode == AppMode::Confirming;
        if confirming && (same(text, "/approve") || same(text, "/confirm")) {
            return TuiAction::Approval(ApprovalDecision::Approve);
        }
        if confirming && same(text, "/reject") {
            return TuiAction::Approval(ApprovalDecision::Reject);
        }
        if same(text, "/quit") || same(text, "/exit") {
            self.should_quit = true;
            return TuiAction::Quit;
        }
        match read_plain_command(text) {
            Some(action) => {
                return action;
            },
            None => {},
        }
        if confirming {
            match strip_prefix(text, "/modify ") {
                Some(rest) => {
                    let arguments = trim(rest.as_str());
                    return self.modify_with(json_compact_of(arguments.as_str()));
                },
                None => {},
            }
        }
        match read_argument_command(text) {
            Some(action) => {
                return action;
            },
            None => {},
        }
        if starts_with(text, "/") {
            self.status_message = Some(joined_text("Unknown command: ", text));
            return TuiAction::Nothing;
        }
        if self.agent_state.is_at_work() {
            self.status_message = Some("Agent is busy; wait or use /cancel.".to_owned());
            return TuiAction::Nothing;
        }
        self.add_message(Message::with_id(id, MessageKind::User, input.clone()));
        self.agent_state = AgentState::Thinking;
        TuiAction::Submit(input)
    }

    /// Takes in the arguments that the user wants a tool to have: what they
    /// read as, or why they are no JSON.
    pub fn modify_with(&mut self, arguments: Result<String, crate::error::Error>) -> (r: TuiAction)
        ensures
            after_modify(
                old(self)@,
                match arguments {
                    Ok(value) => Ok(value@),
                    Err(e) => Err(e@),
                },
            ) == (final(self)@, r@),
    {
        match arguments {
            Ok(value) => TuiAction::Approval(ApprovalDecision::Modify(value)),
            Err(error) => {
                self.status_message = Some(
                    joined_text("Invalid JSON: ", error.message.as_str()),
                );
                TuiAction::Nothing
            },
        }
    }

    fn clear_messages(&mut self)
        ensures
            final(self)@ == (AppView { messages: Seq::empty(), streaming: None, ..old(self)@ }),
    {
        self.messages = Vec::new();
        self.streaming_message_id = None;
        assert(self@.messages =~= Seq::<MessageView>::empty());
    }

    /// The message that is coming in.
    pub fn current_streaming_message(&self) -> (r: Option<&Message>)
        ensures
            match streaming_slot(self@) {
                Some(k) => r matches Some(m) && m@ == self@.messages[k],
                None => r is None,
            },
    {
        match self.streaming_message_id {
            Some(id) => match self.find_message(id) {
                Some(k) => {
                    return Some(&self.messages[k]);
                },
                None => {},
            },
            None => {},
        }
        let ghost all = self@.messages;
        let mut i: usize = self.messages.len();
        assert(all.take(i as int) =~= all);
        while i > 0
            invariant
                i <= self.messages.len(),
                all == message_views(self.messages@),
                last_streaming(all) == last_streaming(all.take(i as int)),
                streaming_slot(self@) == last_streaming(all),
            decreases i,
        {
            proof {
                assert(all.take(i as int).last() == self.messages@[i - 1]@);
                assert(all.take(i as int).drop_last() =~= all.take(i - 1));
            }
            if self.messages[i - 1].is_streaming {
                return Some(&self.messages[i - 1]);
            }
            i -= 1;
        }
        None
    }

    /// The commands that the menu shows.
    pub fn command_suggestions(&self) -> (r: Vec<SlashCommand>)
        ensures
            command_views(r@) == menu(self@),
    {
        let typing = self.mode == AppMode::Normal || self.mode == AppMode::Confirming;
        if self.command_menu_dismissed || !typing {
            let out: Vec<SlashCommand> = Vec::new();
            assert(command_views(out@) =~= Seq::empty());
            return out;
        }
        suggestions(self.input.as_str(), self.mode)
    }

    /// Selects the command above: whether there is a menu.
    pub fn select_previous_command(&mut self) -> (r: bool)
        ensures
            r == (menu(old(self)@).len() > 0),
            final(self)@ == (if r {
                AppView {
                    selection: one_up(old(self)@.selection, menu(old(self)@).len()),
                    ..old(self)@
                }
            } else {
                old(self)@
            }),
    {
        let shown = self.command_suggestions();
        assert(command_views(shown@).len() == shown@.len());
        let count: usize = shown.len();
        if count == 0 {
            return false;
        }
        self.command_selection = if self.command_selection == 0 {
            count - 1
        } else {
            self.command_selection - 1
        };
        true
    }

    /// Selects the command below: whether there is a menu.
    pub fn select_next_command(&mut self) -> (r: bool)
        ensures
            r == (menu(old(self)@).len() > 0),
            final(self)@ == (if r {
                AppView {
                    selection: one_down(old(self)@.selection, menu(old(self)@).len()),
                    ..old(self)@
                }
            } else {
                old(self)@
            }),
    {
        let shown = self.command_suggestions();
        assert(command_views(shown@).len() == shown@.len());
        let count: usize = shown.len();
        if count == 0 {
            return false;
        }
        self.command_selection = if self.command_selection >= count - 1 {
            0
        } else {
            self.command_selection + 1
        };
        true
    }

    /// Closes the menu: whether there was one.
    pub fn dismiss_command_menu(&mut self) -> (r: bool)
        ensures
            r == (menu(old(self)@).len() > 0),
            final(self)@ == (if r {
                AppView { dismissed: true, ..old(self)@ }
            } else {
                old(self)@
            }),
    {
        let shown = self.command_suggestions();
        assert(command_views(shown@).len() == shown@.len());
        if shown.len() == 0 {
            return false;
        }
        self.command_menu_dismissed = true;
        true
    }

    /// The command that is selected in the menu.
    fn selected_command(&self) -> (r: Option<SlashCommand>)
        ensures
            match r {
                Some(c) => menu(self@).len() > 0 && c@ == selected(self@),
                None => menu(self@).len() == 0,
            },
    {
        let shown = self.command_suggestions();
        assert(command_views(shown@).len() == shown@.len());
        let count: usize = shown.len();
        if count == 0 {
            return None;
        }
        let k: usize = if self.command_selection < count {
            self.command_selection
        } else {
            count - 1
        };
        assert(command_views(shown@)[k as int] == shown@[k as int]@);
        Some(shown[k])
    }

    /// Accepts the selected command; none where there is no menu.
    pub fn accept_selected_command(&mut self) -> (r: Option<TuiAction>)
        ensures
            match r {
                None => menu(old(self)@).len() == 0 && final(self)@ == old(self)@,
                Some(action) => exists|id: u128| #[trigger]
                    after_accepting(old(self)@, id) == Some((final(self)@, action@)),
            },
    {
        let id: u128 = random_uuid();
        let action = self.accept_selected_command_as(id);
        proof {
            if action is Some {
                assert(after_accepting(old(self)@, id) == Some((self@, action->0@)));
            }
        }
        action
    }

    /// Accepts the selected command, with a given identifier for a new message.
    pub fn accept_selected_command_as(&mut self, id: u128) -> (r: Option<TuiAction>)
        ensures
            match after_accepting(old(self)@, id) {
                None => r is None && final(self)@ == old(self)@,
                Some(outcome) => r matches Some(action) && (final(self)@, action@) == outcome,
            },
            r is Some ==> final(self)@.cursor == byte_len(final(self)@.input),
    {
        let command = match self.selected_command() {
            Some(command) => command,
            None => {
                return None;
            },
        };
        let mut input = command.input();
        if command.argument_required {
            input.append(" ");
            self.set_input(input.as_str());
            return Some(TuiAction::Nothing);
        }
        self.set_input("");
        proof {
            reveal_strlit("");
            assert(""@ =~= Seq::<char>::empty());
        }
        Some(self.handle_submission_as(input, id))
    }

    /// Writes the selected command into the input.
    pub fn complete_selected_command(&mut self)
        ensures
            final(self)@ == after_completing(old(self)@),
            menu(old(self)@).len() > 0 ==> final(self)@.cursor == byte_len(final(self)@.input),
    {
        match self.selected_command() {
            None => {},
            Some(command) => {
                let mut input = command.input();
                if command.argument_required {
                    input.append(" ");
                    self.set_input(input.as_str());
                } else {
                    self.set_input(input.as_str());
                    self.command_menu_dismissed = true;
                }
            },
        }
    }

    /// Opens the menu of models, with the current one selected.
    pub fn open_model_menu(&mut self, choices: Vec<ModelChoice>)
        ensures
            final(self)@ == choosing(old(self)@, choice_views(choices@)),
    {
        let ghost all = choice_views(choices@);
        let mut k: usize = 0;
        proof {
            assert(all.skip(0) =~= all);
        }
        while k < choices.len() && !choices[k].current
            invariant
                k <= choices.len(),
                all == choice_views(choices@),
                forall|j: int| 0 <= j < k ==> !(#[trigger] all[j]).current,
            decreases choices.len() - k,
        {
            k += 1;
        }
        if k == choices.len() {
            proof {
                lemma_no_current(all);
            }
            k = 0;
        } else {
            proof {
                lemma_current(all, k as int);
            }
        }
        self.mode = AppMode::SelectingModel;
        self.model_choices = choices;
        self.model_selection = k;
    }

    /// Selects the model above.
    pub fn select_previous_model(&mut self)
        ensures
            final(self)@ == (if old(self)@.choices.len() == 0 {
                old(self)@
            } else {
                AppView {
                    model_selection: one_up(
                        old(self)@.model_selection,
                        old(self)@.choices.len(),
                    ),
                    ..old(self)@
                }
            }),
    {
        let count: usize = self.model_choices.len();
        if count > 0 {
            self.model_selection = if self.model_selection == 0 {
                count - 1
            } else {
                self.model_selection - 1
            };
        }
    }

    /// Selects the model below.
    pub fn select_next_model(&mut self)
        ensures
            final(self)@ == (if old(self)@.choices.len() == 0 {
                old(self)@
            } else {
                AppView {
                    model_selection: one_down(
                        old(self)@.model_selection,
                        old(self)@.choices.len(),
                    ),
                    ..old(self)@
                }
            }),
    {
        let count: usize = self.model_choices.len();
        if count > 0 {
            self.model_selection = if self.model_selection >= count - 1 {
                0
            } else {
                self.model_selection + 1
            };
        }
    }

    /// Accepts the selected model.
    pub fn accept_selected_model(&mut self) -> (r: TuiAction)
        ensures
            after_choosing(old(self)@) == (final(self)@, r@),
    {
        let count: usize = self.model_choices.len();
        if count == 0 {
            self.close_model_menu();
            return TuiAction::Nothing;
        }
        let k: usize = if self.model_selection < count {
            self.model_selection
        } else {
            count - 1
        };
        let choice = &self.model_choices[k];
        assert(self@.choices[k as int] == choice@);
        let model = choice.model.clone();
        let model_id = choice.model_id.clone();
        let action = match &self.model_setup {
            Some(s) => TuiAction::ConfigureModel {
                model: s.model.clone(),
                base_url: s.base_url.clone(),
                api_key: s.api_key.clone(),
                model_id,
                protocol: s.protocol,
                authentication: s.authentication,
            },
            None => {
                let default = match Model::parse(model.as_str()) {
                    Ok(known) => same(known.default_model_id(), model_id.as_str()),
                    Err(_) => false,
                };
                if default {
                    TuiAction::SwitchModel(model)
                } else {
                    TuiAction::SwitchModelTo { model, model_id }
                }
            },
        };
        self.close_model_menu();
        action
    }

    /// Closes the menu of models.
    pub fn close_model_menu(&mut self)
        ensures
            final(self)@ == menu_closed(old(self)@),
    {
        self.mode = AppMode::Normal;
        self.model_choices = Vec::new();
        self.model_selection = 0;
        self.model_setup = None;
        assert(self@.choices =~= Seq::<ChoiceView>::empty());
    }

    /// Begins to set a model up.
    pub fn begin_model_setup(&mut self, model: String, base_url: String)
        ensures
            final(self)@ == setting_up(old(self)@, model@, base_url@),
    {
        self.set_input("");
        proof {
            reveal_strlit("");
            assert(""@ =~= Seq::<char>::empty());
        }
        self.mode = AppMode::ConfiguringModel;
        self.model_setup = Some(
            ModelSetup {
                model,
                base_url,
                api_key: String::new(),
                protocol: ProviderProtocol::OpenAiCompatible,
                authentication: AuthenticationMode::Bearer,
                stage: SetupStage::Protocol,
            },
        );
        assert(self@.setup->0.api_key =~= Seq::<char>::empty());
    }

    /// Offers the models that a service lists, to complete a setup.
    pub fn begin_model_selection(
        &mut self,
        model: String,
        base_url: String,
        api_key: String,
        model_ids: Vec<String>,
        protocol: ProviderProtocol,
        authentication: AuthenticationMode,
    )
        ensures
            final(self)@ == choosing_id(
                old(self)@,
                SetupView {
                    model: model@,
                    base_url: base_url@,
                    api_key: api_key@,
                    protocol,
                    authentication,
                    stage: SetupStage::ModelId,
                },
                texts(model_ids@),
            ),
    {
        let ghost ids = texts(model_ids@);
        let ghost all = id_choices(model@, ids);
        let mut choices: Vec<ModelChoice> = Vec::new();
        let mut i: usize = 0;
        assert(choice_views(choices@) =~= all.take(0));
        while i < model_ids.len()
            invariant
                i <= model_ids.len(),
                ids == texts(model_ids@),
                all == id_choices(model@, ids),
                choice_views(choices@) == all.take(i as int),
            decreases model_ids.len() - i,
        {
            let choice = ModelChoice {
                model: model.clone(),
                model_id: model_ids[i].clone(),
                current: false,
            };
            assert(choice@ =~= all[i as int]);
            assert(choice_views(choices@.push(choice)) =~= choice_views(choices@).push(choice@));
            choices.push(choice);
            i += 1;
            assert(all.take(i as int) =~= all.take(i - 1).push(all[i - 1]));
        }
        assert(all.take(i as int) =~= all);
        self.mode = AppMode::SelectingModel;
        self.model_choices = choices;
        self.model_selection = 0;
        self.model_setup = Some(
            ModelSetup {
                model,
                base_url,
                api_key,
                protocol,
                authentication,
                stage: SetupStage::ModelId,
            },
        );
    }

    /// Takes in an answer in a model's setup.
    pub fn submit_model_setup_input(&mut self) -> (r: TuiAction)
        ensures
            match old(self)@.setup {
                None => r@ == ActionView::Nothing && final(self)@ == old(self)@,
                Some(s) => after_answer(old(self)@, s) == (final(self)@, r@),
            },
    {
        proof {
            reveal_strlit("");
            assert(""@ =~= Seq::<char>::empty());
        }
        let answer = trim(self.input.as_str());
        let empty = answer.as_str().is_empty();
        let mut setup = match self.model_setup.take() {
            Some(setup) => setup,
            None => {
                return TuiAction::Nothing;
            },
        };
        let ghost given = setup@;
        match setup.stage {
            SetupStage::Protocol => {
                if !empty {
                    match ProviderProtocol::parse(answer.as_str()) {
                        Some(protocol) => {
                            setup.protocol = protocol;
                        },
                        None => {
                            self.model_setup = Some(setup);
                            self.status_message = Some(
                                joined_text("Unknown protocol: ", answer.as_str()),
                            );
                            return TuiAction::Nothing;
                        },
                    }
                }
                setup.stage = SetupStage::BaseUrl;
                self.set_input("");
                self.model_setup = Some(setup);
                TuiAction::Nothing
            },
            SetupStage::BaseUrl => {
                if !empty {
                    setup.base_url = answer;
                }
                setup.stage = SetupStage::Authentication;
                self.set_input("");
                self.model_setup = Some(setup);
                TuiAction::Nothing
            },
            SetupStage::Authentication => {
                if !empty {
                    match AuthenticationMode::parse(answer.as_str()) {
                        Some(authentication) => {
                            setup.authentication = authentication;
                        },
                        None => {
                            self.model_setup = Some(setup);
                            self.status_message = Some(
                                joined_text("Unknown authentication mode: ", answer.as_str()),
                            );
                            return TuiAction::Nothing;
                        },
                    }
                }
                setup.stage = SetupStage::ApiKey;
                self.set_input("");
                self.model_setup = Some(setup);
                TuiAction::Nothing
            },
            SetupStage::ApiKey => {
                if empty {
                    self.model_setup = Some(setup);
                    self.status_message = Some("API key cannot be empty.".to_owned());
                    return TuiAction::Nothing;
                }
                let action = TuiAction::FetchModelChoices {
                    model: setup.model.clone(),
                    base_url: setup.base_url.clone(),
                    api_key: answer.clone(),
                    protocol: setup.protocol,
                    authentication: setup.authentication,
                };
                setup.api_key = answer;
                setup.stage = SetupStage::ModelId;
                self.set_input("");
                self.model_setup = Some(setup);
                action
            },
            SetupStage::ModelId => {
                self.model_setup = Some(setup);
                TuiAction::Nothing
            },
        }
    }

    /// Gives a model's setup up.
    pub fn cancel_model_setup(&mut self)
        ensures
            final(self)@ == menu_closed(with_input(old(self)@, Seq::empty())),
    {
        proof {
            reveal_strlit("");
            assert(""@ =~= Seq::<char>::empty());
        }
        self.set_input("");
        self.close_model_menu();
    }

    /// Whether the input is hidden.
    pub fn model_setup_is_secret(&self) -> (r: bool)
        ensures
            r == (self@.mode == AppMode::ConfiguringModel && (self@.setup matches Some(s) && s.stage
                == SetupStage::ApiKey)),
    {
        match &self.model_setup {
            Some(s) => self.mode == AppMode::ConfiguringModel && s.stage == SetupStage::ApiKey,
            None => false,
        }
    }

    /// What the input asks for while a model is set up.
    pub fn model_setup_prompt(&self) -> (r: Option<String>)
        ensures
            maybe(r) == (match self@.setup {
                Some(s) => if self@.mode == AppMode::ConfiguringModel {
                    Some(setup_prompt(s))
                } else {
                    None
                },
                None => None,
            }),
    {
        match &self.model_setup {
            Some(s) => {
                if self.mode != AppMode::ConfiguringModel {
                    return None;
                }
                match s.stage {
                    SetupStage::Protocol => Some(
                        "Protocol (openai-compatible or anthropic-messages)".to_owned(),
                    ),
                    SetupStage::BaseUrl => {
                        let mut text: String = "Base URL (empty keeps ".to_owned();
                        text.append(s.base_url.as_str());
                        text.append(")");
                        Some(text)
                    },
                    SetupStage::Authentication => Some(
                        "Authentication (bearer or x-api-key)".to_owned(),
                    ),
                    SetupStage::ApiKey => Some("API key".to_owned()),
                    SetupStage::ModelId => Some("Discovering models…".to_owned()),
                }
            },
            None => None,
        }
    }

    /// Shows a session: its messages, its model and how full its context is.
    pub fn load_session(&mut self, summary: &SessionSummary, transcript: &Transcript, context_tokens: usize)
        ensures
            final(self)@ == loaded(old(self)@, summary@, transcript@, context_tokens),
    {
        let ghost all = transcript_messages(transcript@);
        let total: usize = transcript.items.len();
        assert(all.len() == total);
        let from: usize = if total > RESTORED_MESSAGES {
            total - RESTORED_MESSAGES
        } else {
            0
        };
        let mut messages: Vec<Message> = Vec::new();
        if from > 0 {
            let notice = Message {
                id: 0,
                kind: MessageKind::System,
                content: joined_text(
                    decimal_of(from as u64).as_str(),
                    " earlier messages are not shown.",
                ),
                is_streaming: false,
                tool_call_id: None,
            };
            assert(notice@ =~= earlier_notice(from as nat));
            messages.push(notice);
        }
        let ghost front = message_views(messages@);
        let mut i: usize = from;
        assert(front =~= front + all.subrange(from as int, from as int));
        while i < total
            invariant
                from <= i <= total,
                total == transcript.items@.len(),
                all == transcript_messages(item_views(transcript.items@)),
                message_views(messages@) == front + all.subrange(from as int, i as int),
            decreases total - i,
        {
            let item = &transcript.items[i];
            let message = Message {
                id: item.id,
                kind: message_kind(item.kind),
                content: item.content.clone(),
                is_streaming: false,
                tool_call_id: item.tool_call_id.clone(),
            };
            assert(message@ =~= all[i as int]);
            assert(message_views(messages@.push(message)) =~= message_views(messages@).push(
                message@,
            ));
            messages.push(message);
            i += 1;
            assert(all.subrange(from as int, i as int) =~= all.subrange(from as int, i - 1).push(
                all[i - 1],
            ));
            assert(message_views(messages@) =~= front + all.subrange(from as int, i as int));
        }
        assert(message_views(messages@) =~= restored(all));
        self.messages = messages;
        self.info = AppInfo {
            workspace: summary.workspace.clone(),
            model: summary.model.clone(),
            model_id: summary.model_id.clone(),
        };
        self.streaming_message_id = None;
        self.agent_state = AgentState::Idle;
        self.mode = AppMode::Normal;
        self.pending_approval = None;
        self.status_message = None;
        self.context_tokens = context_tokens;
    }

    /// Takes in that the session's model or context is another.
    pub fn update_session(&mut self, summary: &SessionSummary, context_tokens: usize)
        ensures
            final(self)@ == updated(old(self)@, summary@, context_tokens),
    {
        self.info = AppInfo {
            workspace: summary.workspace.clone(),
            model: summary.model.clone(),
            model_id: summary.model_id.clone(),
        };
        self.context_tokens = context_tokens;
    }

    /// Takes in that something happened in the background.
    pub fn notify_background_worker(&mut self)
        ensures
            final(self)@ == notified(old(self)@),
    {
        self.background_notifications = self.background_notifications.saturating_add(1);
    }

    /// Takes in that the user knows what happened in the background.
    pub fn clear_background_notifications(&mut self)
        ensures
            final(self)@ == (AppView { notifications: 0, ..old(self)@ }),
    {
        self.background_notifications = 0;
    }
}

/// Where the latest message that is coming in stands.
pub open spec fn last_streaming(messages: Seq<MessageView>) -> Option<int>
    decreases messages.len(),
{
    if messages.len() == 0 {
        None
    } else if messages.last().is_streaming {
        Some(messages.len() - 1)
    } else {
        last_streaming(messages.drop_last())
    }
}

/// Where the message that is coming in stands.
pub open spec fn streaming_slot(v: AppView) -> Option<int> {
    match v.streaming {
        Some(id) => if message_slot(v.messages, id) < v.messages.len() {
            Some(message_slot(v.messages, id))
        } else {
            last_streaming(v.messages)
        },
        None => last_streaming(v.messages),
    }
}

/// The choices of a service's models.
pub open spec fn id_choices(model: Seq<char>, ids: Seq<Seq<char>>) -> Seq<ChoiceView> {
    ids.map_values(|id: Seq<char>| ChoiceView { model, model_id: id, current: false })
}

fn message_kind(kind: TranscriptKind) -> (r: MessageKind)
    ensures
        r == kind_of(kind),
{
    match kind {
        TranscriptKind::User => MessageKind::User,
        TranscriptKind::Agent => MessageKind::Agent,
        TranscriptKind::Tool => MessageKind::Tool,
        TranscriptKind::System => MessageKind::System,
        TranscriptKind::Error => MessageKind::Error,
    }
}

proof fn lemma_current(choices: Seq<ChoiceView>, k: int)
    requires
        0 <= k < choices.len(),
        choices[k].current,
        forall|j: int| 0 <= j < k ==> !(#[trigger] choices[j]).current,
    ensures
        current_choice(choices) == k,
    decreases k,
{
    if k > 0 {
        let rest = choices.drop_first();
        assert(!choices[0].current);
        assert(rest[k - 1].current);
        assert forall|j: int| 0 <= j < k - 1 implies !(#[trigger] rest[j]).current by {
            assert(rest[j] == choices[j + 1]);
        }
        lemma_current(rest, k - 1);
    }
}

proof fn lemma_no_current(choices: Seq<ChoiceView>)
    requires
        forall|j: int| 0 <= j < choices.len() ==> !(#[trigger] choices[j]).current,
    ensures
        current_choice(choices) == 0,
    decreases choices.len(),
{
    if choices.len() > 0 {
        let rest = choices.drop_first();
        assert(!choices[0].current);
        assert forall|j: int| 0 <= j < rest.len() implies !(#[trigger] rest[j]).current by {
            assert(rest[j] == choices[j + 1]);
        }
        lemma_no_current(rest);
    }
}

/// What a command without an argument asks of the agent's host.
fn read_plain_command(text: &str) -> (r: Option<TuiAction>)
    ensures
        match plain_command(text@) {
            Some(a) => r matches Some(action) && action@ == a,
            None => r is None,
        },
{
    if same(text, "/cancel") {
        Some(TuiAction::Cancel)
    } else if same(text, "/new") {
        Some(TuiAction::NewSession)
    } else if same(text, "/model") {
        Some(TuiAction::ListModels)
    } else if same(text, "/sessions") {
        Some(TuiAction::ListSessions)
    } else if same(text, "/tree") {
        Some(TuiAction::ShowTree)
    } else if same(text, "/retry") {
        Some(TuiAction::Retry)
    } else if same(text, "/compact") {
        Some(TuiAction::Compact)
    } else if same(text, "/skills") {
        Some(TuiAction::ListSkills)
    } else if same(text, "/projects") {
        Some(TuiAction::ListProjects)
    } else {
        None
    }
}

/// What stands behind the name of a command, where it is that command.
fn read_argument(text: &str, command: &str) -> (r: Option<String>)
    ensures
        match r {
            Some(argument) => begins(text@, command@) && argument@ == argument_of(text@, command@),
            None => !begins(text@, command@),
        },
{
    match strip_prefix(text, command) {
        Some(rest) => Some(trim(rest.as_str())),
        None => None,
    }
}

/// What a command with an argument asks of the agent's host.
fn read_argument_command(text: &str) -> (r: Option<TuiAction>)
    ensures
        match argument_command(text@) {
            Some(a) => r matches Some(action) && action@ == a,
            None => r is None,
        },
{
    match read_argument(text, "/model ") {
        Some(argument) => {
            return Some(TuiAction::SwitchModel(argument));
        },
        None => {},
    }
    match read_argument(text, "/branch ") {
        Some(argument) => {
            return Some(TuiAction::Branch(argument));
        },
        None => {},
    }
    match read_argument(text, "/resume ") {
        Some(argument) => {
            return Some(TuiAction::ResumeSession(argument));
        },
        None => {},
    }
    match read_argument(text, "/rename ") {
        Some(argument) => {
            return Some(TuiAction::RenameSession(argument));
        },
        None => {},
    }
    match read_argument(text, "/skill ") {
        Some(argument) => {
            return Some(read_skill_action(argument));
        },
        None => {},
    }
    match read_argument(text, "/project ") {
        Some(argument) => Some(TuiAction::SwitchProject(argument)),
        None => None,
    }
}

/// What `/skill` asks for.
fn read_skill_action(argument: String) -> (r: TuiAction)
    ensures
        r@ == skill_action(argument@),
{
    match read_argument(argument.as_str(), "show ") {
        Some(name) => {
            return TuiAction::ShowSkill(name);
        },
        None => {},
    }
    match read_argument(argument.as_str(), "off ") {
        Some(name) => TuiAction::DeactivateSkill(name),
        None => TuiAction::ActivateSkill(argument),
    }
}

proof fn lemma_message_found(messages: Seq<MessageView>, id: u128)
    ensures
        0 <= message_slot(messages, id) <= messages.len(),
    decreases messages.len(),
{
    if messages.len() > 0 && messages[0].id != id {
        lemma_message_found(messages.drop_first(), id);
    }
}

proof fn lemma_call_found(messages: Seq<MessageView>, call_id: Seq<char>)
    ensures
        call_slot(messages, call_id) matches Some(k) ==> 0 <= k < messages.len(),
    decreases messages.len(),
{
    if messages.len() > 0 {
        lemma_call_found(messages.drop_last(), call_id);
    }
}

/// However much the agent reports, no more than the latest messages are kept.
pub proof fn the_history_stays_bounded(v: AppView, event: AgentEventView, id: u128)
    requires
        v.messages.len() <= MAX_MESSAGE_HISTORY,
    ensures
        after_event(v, event, id).messages.len() <= MAX_MESSAGE_HISTORY,
{
    match event {
        AgentEventView::ToolFinished { turn_id: _, call_id, name: _, result: _, success: _ } => {
            lemma_call_found(v.messages, call_id);
        },
        AgentEventView::TextDelta { turn_id: _, message_id: _, chunk: _, is_final: _ } => {
            let opened = with_message(
                v,
                MessageView {
                    is_streaming: true,
                    ..whole_message(id, MessageKind::Agent, Seq::empty())
                },
            ).messages;
            lemma_message_found(opened, id);
            if v.streaming is Some {
                lemma_message_found(v.messages, v.streaming->0);
            }
        },
        _ => {},
    }
}

/// The pieces of an answer make up one message.
pub proof fn a_streamed_answer_is_one_message(
    v: AppView,
    a: Seq<char>,
    b: Seq<char>,
    ids: (u128, u128),
)
    requires
        v.streaming is None,
        a.len() > 0,
        v.messages.len() <= MAX_MESSAGE_HISTORY,
        forall|i: int| 0 <= i < v.messages.len() ==> (#[trigger] v.messages[i]).id != ids.0,
    ensures
        ({
            let first = after_text(v, a, false, ids.0);
            let second = after_text(first, b, false, ids.1);
            &&& first.messages == with_message(
                v,
                MessageView {
                    is_streaming: true,
                    ..whole_message(ids.0, MessageKind::Agent, a)
                },
            ).messages
            &&& second.messages == with_message(
                v,
                MessageView {
                    is_streaming: true,
                    ..whole_message(ids.0, MessageKind::Agent, a + b)
                },
            ).messages
        }),
{
    let empty = MessageView {
        is_streaming: true,
        ..whole_message(ids.0, MessageKind::Agent, Seq::empty())
    };
    let opened = kept(v.messages.push(empty));
    let k = opened.len() - 1;
    assert forall|j: int| 0 <= j < k implies (#[trigger] opened[j]).id != ids.0 by {
        if v.messages.len() == MAX_MESSAGE_HISTORY {
            assert(opened[j] == v.messages[j + 1]);
        } else {
            assert(opened[j] == v.messages[j]);
        }
    }
    assert(opened[k] == empty);
    lemma_message_slot(opened, ids.0, k);
    let first = after_text(v, a, false, ids.0);
    assert(Seq::<char>::empty() + a =~= a);
    let one = MessageView { is_streaming: true, ..whole_message(ids.0, MessageKind::Agent, a) };
    assert(first.messages =~= opened.update(k, one));
    assert(first.messages =~= kept(v.messages.push(one)));
    assert forall|j: int| 0 <= j < k implies (#[trigger] first.messages[j]).id != ids.0 by {
        assert(first.messages[j] == opened[j]);
    }
    lemma_message_slot(first.messages, ids.0, k);
    let two = MessageView {
        is_streaming: true,
        ..whole_message(ids.0, MessageKind::Agent, a + b)
    };
    let second = after_text(first, b, false, ids.1);
    assert(second.messages =~= first.messages.update(k, two));
    assert(second.messages =~= kept(v.messages.push(two)));
}

/// An agent at work takes no other task: nothing is sent, and no message is
/// added.
pub proof fn an_agent_at_work_takes_no_task(v: AppView, input: Seq<char>, id: u128)
    requires
        at_work(v.state),
        !begins(input, "/"@),
    ensures
        after_submission(v, input, id).1 == ActionView::Nothing,
        after_submission(v, input, id).0.messages == v.messages,
        after_submission(v, input, id).0.state == v.state,
{
    lemma_commands_begin_with_a_slash(input);
}

proof fn lemma_begins_alike(text: Seq<char>, prefix: Seq<char>)
    ensures
        begins(text, prefix) && prefix.len() > 0 ==> text.len() > 0 && text[0] == prefix[0],
{
    if begins(text, prefix) && prefix.len() > 0 {
        assert(text.take(prefix.len() as int)[0] == text[0]);
    }
}

pub proof fn lemma_commands_begin_with_a_slash(input: Seq<char>)
    requires
        !begins(input, "/"@),
    ensures
        input != "/help"@,
        input != "/clear"@,
        input != "/reset"@,
        input != "/status"@,
        input != "/approve"@,
        input != "/confirm"@,
        input != "/reject"@,
        input != "/quit"@,
        input != "/exit"@,
        plain_command(input) is None,
        !begins(input, "/modify "@),
        argument_command(input) is None,
{
    reveal_strlit("/");
    reveal_strlit("/help");
    reveal_strlit("/clear");
    reveal_strlit("/reset");
    reveal_strlit("/status");
    reveal_strlit("/approve");
    reveal_strlit("/confirm");
    reveal_strlit("/reject");
    reveal_strlit("/quit");
    reveal_strlit("/exit");
    reveal_strlit("/cancel");
    reveal_strlit("/new");
    reveal_strlit("/model");
    reveal_strlit("/sessions");
    reveal_strlit("/tree");
    reveal_strlit("/retry");
    reveal_strlit("/compact");
    reveal_strlit("/skills");
    reveal_strlit("/projects");
    reveal_strlit("/modify ");
    reveal_strlit("/model ");
    reveal_strlit("/branch ");
    reveal_strlit("/resume ");
    reveal_strlit("/rename ");
    reveal_strlit("/skill ");
    reveal_strlit("/project ");
    if input.len() > 0 {
        if input[0] == '/' {
            assert(input.take(1) =~= "/"@);
        }
        lemma_begins_alike(input, "/modify "@);
        lemma_begins_alike(input, "/model "@);
        lemma_begins_alike(input, "/branch "@);
        lemma_begins_alike(input, "/resume "@);
        lemma_begins_alike(input, "/rename "@);
        lemma_begins_alike(input, "/skill "@);
        lemma_begins_alike(input, "/project "@);
    }
}

} // verus!
