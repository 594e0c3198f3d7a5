//! One turn: the model answers, its tool calls are carried out, and it answers
//! again, until it calls no more tools or may call no more.
use crate::agent::control::{ApprovalDecision, ApprovalRequest};
use crate::agent::event::{event_views, lemma_events_push, AgentEvent, AgentEventView};
use crate::agent::result::{error_json, error_result, MIN_OUTPUT_BYTES};
use crate::error::{fail, Error};
use crate::json::{json_compact, json_compact_of};
use crate::llm::protocol::{
    call_views, message_views, plain_message, CallView, ChatMessage, ChatStreamResponse,
    MessageView, ToolCall,
};
use crate::paths::{is_same_path, same_path};
use crate::session::durable::{
    closed, logged, logged_and_cleared, refusal, Session, SessionView,
};
use crate::session::event::SessionEvent;
use crate::session::model::{
    AssistantRecord, ToolCallRecord, ToolResultRecord, TurnFailure, TurnId,
};
use crate::session::projection::context_messages;
use crate::text::{blank, is_blank, lowered, maybe, same, to_lower, trim, trimmed};
use crate::tools::{approval_of, ToolRegistry};
use vstd::prelude::*;

verus! {

/// What the model is told when it may call no more tools.
pub const FINAL_RESPONSE_INSTRUCTION: &'static str = "The tool-call limit has been reached. Do not call any more tools. Use the information already available in the conversation to give the user the best possible final answer, and clearly state anything that could not be verified.";

/// What stands for an answer that the model did not give at the limit.
pub const TOOL_LIMIT_FALLBACK: &'static str = "The tool-call limit was reached, and the model did not provide a final answer from the available results.";

/// What a model is asked when it shall summarize earlier turns.
pub const COMPACTION_INSTRUCTION: &'static str = "Summarize earlier coding-agent context for future continuation. Preserve decisions, changed files, commands, results, unresolved work, constraints, and exact identifiers. Do not invent facts.";

/// A turn under way.
#[derive(Debug)]
pub struct TurnRun {
    pub(crate) turn_id: TurnId,
    pub(crate) max_tool_loops: usize,
    pub(crate) tool_loops: usize,
    pub(crate) calls: Vec<ToolCall>,
    pub(crate) current: Option<CurrentCall>,
    pub(crate) streamed: String,
    pub(crate) warned: bool,
}

/// The call that is being carried out; `arguments` is a compact JSON text.
#[derive(Debug)]
pub struct CurrentCall {
    pub(crate) call_id: String,
    pub(crate) name: String,
    pub(crate) arguments: String,
}

/// The view of the call that is being carried out.
#[verifier::ext_equal]
pub struct CurrentView {
    pub call_id: Seq<char>,
    pub name: Seq<char>,
    pub arguments: Seq<char>,
}

/// The view of a turn under way: how many rounds of calls there have been, the
/// calls that are still to be carried out, the one that is, what has come in of
/// the model's answer, and whether it was reported that it cannot be saved.
#[verifier::ext_equal]
pub struct RunView {
    pub turn_id: TurnId,
    pub max_tool_loops: usize,
    pub tool_loops: usize,
    pub calls: Seq<CallView>,
    pub current: Option<CurrentView>,
    pub streamed: Seq<char>,
    pub warned: bool,
}

/// The view of a call that may not be there.
pub closed spec fn maybe_current(c: Option<CurrentCall>) -> Option<CurrentView> {
    match c {
        Some(call) => Some(
            CurrentView {
                call_id: call.call_id@,
                name: call.name@,
                arguments: call.arguments@,
            },
        ),
        None => None,
    }
}

impl View for TurnRun {
    type V = RunView;

    closed spec fn view(&self) -> RunView {
        RunView {
            turn_id: self.turn_id,
            max_tool_loops: self.max_tool_loops,
            tool_loops: self.tool_loops,
            calls: call_views(self.calls@),
            current: maybe_current(self.current),
            streamed: self.streamed@,
            warned: self.warned,
        }
    }
}

/// The model must answer without tools.
pub open spec fn at_limit(run: RunView) -> bool {
    run.tool_loops >= run.max_tool_loops
}

/// What the model is sent: the system prompt, and the context behind it. At the
/// limit the prompt says that no more tools may be called.
pub open spec fn request_of(run: RunView, system: Seq<char>, context: Seq<MessageView>) -> Seq<
    MessageView,
> {
    seq![
        plain_message(
            "system"@,
            if at_limit(run) {
                system + "\n\n"@ + FINAL_RESPONSE_INSTRUCTION@
            } else {
                system
            },
        ),
    ] + context
}

/// A piece of the model's answer.
pub open spec fn delta(turn_id: TurnId, message_id: u128, chunk: Seq<char>, is_final: bool) -> AgentEventView {
    AgentEventView::TextDelta { turn_id, message_id, chunk, is_final }
}

/// What follows an answer.
#[derive(Debug, Clone, Copy, PartialEq, Eq, Structural)]
pub enum Progress {
    /// The turn is over.
    Finished,
    /// The calls are carried out.
    CallTools,
}

/// What follows for one call.
#[derive(Debug)]
pub enum CallStep {
    /// There is no call left: the model answers again.
    NoneLeft,
    /// The user is asked.
    Ask(ApprovalRequest),
    /// The call is carried out.
    Proceed,
}

/// What is carried out.
#[derive(Debug)]
pub struct ToolOrder {
    pub name: String,
    pub arguments: String,
}

/// The record of an answer.
pub open spec fn is_answer(
    a: AssistantRecord,
    message_id: u128,
    content: Seq<char>,
    reasoning: Option<Seq<char>>,
    calls: Seq<CallView>,
) -> bool {
    &&& a.message_id == message_id
    &&& a.content@ == content
    &&& maybe(a.reasoning_content) == reasoning
    &&& call_views(a.tool_calls@) == calls
}

/// The session recorded an answer, or refused it.
pub open spec fn answered(
    old: SessionView,
    new: SessionView,
    message_id: u128,
    content: Seq<char>,
    reasoning: Option<Seq<char>>,
    calls: Seq<CallView>,
    error: Option<Seq<char>>,
) -> bool {
    match old.projection.active {
        None => error == Some("session has no active turn"@) && new == old,
        Some(turn) => exists|a: AssistantRecord| #[trigger]
            is_answer(a, message_id, content, reasoning, calls) && logged_and_cleared(
                old,
                new,
                SessionEvent::AssistantCompleted(a),
                Some(turn.id),
                error,
            ),
    }
}

/// The record of a call that begins.
pub open spec fn is_start(event: SessionEvent, c: CurrentView) -> bool {
    event matches SessionEvent::ToolStarted(r) && r.call_id@ == c.call_id && r.name@ == c.name
        && r.arguments@ == c.arguments
}

/// The record of a call that has ended.
pub open spec fn is_finish(
    event: SessionEvent,
    c: CurrentView,
    result: Seq<char>,
    success: bool,
    duration_ms: u64,
) -> bool {
    event matches SessionEvent::ToolFinished(r) && r.call_id@ == c.call_id && r.name@ == c.name
        && r.result@ == result && r.success == success && r.duration_ms == duration_ms
}

/// The session recorded that a call begins, or refused it.
pub open spec fn started(
    old: SessionView,
    new: SessionView,
    c: CurrentView,
    error: Option<Seq<char>>,
) -> bool {
    match old.projection.active {
        None => error == Some("session has no active turn"@) && new == old,
        Some(turn) => exists|event: SessionEvent| #[trigger]
            is_start(event, c) && logged(old, new, event, Some(turn.id), error),
    }
}

/// The session recorded that a call has ended, or refused it.
pub open spec fn finished(
    old: SessionView,
    new: SessionView,
    c: CurrentView,
    result: Seq<char>,
    success: bool,
    duration_ms: u64,
    error: Option<Seq<char>>,
) -> bool {
    match old.projection.active {
        None => error == Some("session has no active turn"@) && new == old,
        Some(turn) => exists|event: SessionEvent| #[trigger]
            is_finish(event, c, result, success, duration_ms) && logged(
                old,
                new,
                event,
                Some(turn.id),
                error,
            ),
    }
}

/// The report of a call that has ended.
pub open spec fn finish_report(turn_id: TurnId, c: CurrentView, result: Seq<char>, success: bool) -> AgentEventView {
    AgentEventView::ToolFinished { turn_id, call_id: c.call_id, name: c.name, result, success }
}

/// The outcome of an answer.
pub open spec fn response_outcome(
    run: RunView,
    next: RunView,
    before: SessionView,
    after: SessionView,
    reports: Seq<AgentEventView>,
    message_id: u128,
    content: Seq<char>,
    reasoning: Option<Seq<char>>,
    calls: Seq<CallView>,
    progress: Option<Progress>,
    error: Option<Seq<char>>,
) -> bool {
    let last = delta(run.turn_id, message_id, Seq::empty(), true);
    if at_limit(run) && calls.len() > 0 {
        let text = if blank(content) {
            TOOL_LIMIT_FALLBACK@
        } else {
            content
        };
        let said = if blank(content) {
            seq![delta(run.turn_id, message_id, TOOL_LIMIT_FALLBACK@, false)]
        } else {
            Seq::empty()
        };
        &&& answered(before, after, message_id, text, reasoning, Seq::empty(), error)
        &&& next == run
        &&& error is None ==> progress == Some(Progress::Finished) && reports == said.push(last)
        &&& error is Some ==> reports == said
    } else {
        &&& answered(before, after, message_id, content, reasoning, calls, error)
        &&& error is Some ==> next == run && reports.len() == 0
        &&& error is None ==> reports == seq![last] && if calls.len() == 0 {
            progress == Some(Progress::Finished) && next == run
        } else {
            progress == Some(Progress::CallTools) && next == (RunView {
                tool_loops: (run.tool_loops + 1) as usize,
                calls,
                ..run
            })
        }
    }
}

/// What a successful outcome holds.
pub open spec fn progress_of(r: Result<Progress, Error>) -> Option<Progress> {
    match r {
        Ok(p) => Some(p),
        Err(_) => None,
    }
}

/// The reports that were added.
pub open spec fn added(old: Seq<AgentEvent>, new: Seq<AgentEvent>) -> Seq<AgentEventView> {
    event_views(new).skip(old.len() as int)
}

fn report(out: &mut Vec<AgentEvent>, e: AgentEvent)
    ensures
        final(out)@ == old(out)@.push(e),
{
    out.push(e);
}

impl TurnRun {
    /// A turn that begins.
    pub fn new(turn_id: TurnId, max_tool_loops: usize) -> (r: Self)
        ensures
            r@ == (RunView {
                turn_id,
                max_tool_loops,
                tool_loops: 0,
                calls: Seq::empty(),
                current: None,
                streamed: Seq::empty(),
                warned: false,
            }),
    {
        let out = TurnRun {
            turn_id,
            max_tool_loops,
            tool_loops: 0,
            calls: Vec::new(),
            current: None,
            streamed: String::new(),
            warned: false,
        };
        assert(out@.calls =~= Seq::<CallView>::empty());
        out
    }

    /// Whether the model is offered tools.
    pub fn offers_tools(&self) -> (r: bool)
        ensures
            r == !at_limit(self@),
    {
        self.tool_loops < self.max_tool_loops
    }

    /// What the model is sent.
    pub fn request(&self, system_prompt: &str, session: &Session) -> (r: Vec<ChatMessage>)
        ensures
            message_views(r@) == request_of(
                self@,
                system_prompt@,
                context_messages(session@.projection),
            ),
    {
        let mut content: String = system_prompt.to_owned();
        if !self.offers_tools() {
            content.append("\n\n");
            content.append(FINAL_RESPONSE_INSTRUCTION);
        }
        let head = ChatMessage::plain("system", content);
        let mut context = session.context().messages;
        let ghost before = message_views(context@);
        let mut out: Vec<ChatMessage> = Vec::new();
        out.push(head);
        out.append(&mut context);
        assert(message_views(out@) =~= seq![head@] + before);
        out
    }

    /// Makes ready for another answer.
    pub fn await_answer(&mut self)
        ensures
            final(self)@ == (RunView { streamed: Seq::empty(), warned: false, ..old(self)@ }),
    {
        self.streamed = String::new();
        self.warned = false;
        assert(self@ =~= RunView { streamed: Seq::empty(), warned: false, ..old(self)@ });
    }

    /// Takes in a piece of the answer.
    pub fn on_text(&mut self, message_id: u128, chunk: String, out: &mut Vec<AgentEvent>)
        ensures
            final(self)@ == (RunView { streamed: old(self)@.streamed + chunk@, ..old(self)@ }),
            event_views(final(out)@) == event_views(old(out)@).push(
                delta(old(self)@.turn_id, message_id, chunk@, false),
            ),
            final(self)@.streamed.len() == old(self)@.streamed.len() + chunk@.len(),
            final(self)@.streamed.take(old(self)@.streamed.len() as int) == old(self)@.streamed,
            final(self)@.streamed.skip(old(self)@.streamed.len() as int) == chunk@,
    {
        self.streamed.append(chunk.as_str());
        let event = AgentEvent::TextDelta {
            turn_id: self.turn_id,
            message_id,
            chunk,
            is_final: false,
        };
        proof {
            lemma_events_push(out@, event);
        }
        out.push(event);
    }

    /// What has come in of the answer.
    pub fn streamed(&self) -> (r: &str)
        ensures
            r@ == self@.streamed,
    {
        self.streamed.as_str()
    }

    /// Takes in that the answer could not be saved against a crash: that is
    /// reported once for each answer.
    pub fn on_draft_failure(&mut self, error: &str, out: &mut Vec<AgentEvent>)
        ensures
            final(self)@ == (RunView { warned: true, ..old(self)@ }),
            event_views(final(out)@) == (if old(self)@.warned {
                event_views(old(out)@)
            } else {
                event_views(old(out)@).push(
                    AgentEventView::Error {
                        turn_id: Some(old(self)@.turn_id),
                        message: "crash recovery checkpoint unavailable: "@ + error@,
                        recoverable: true,
                    },
                )
            }),
    {
        if self.warned {
            assert(self@ =~= RunView { warned: true, ..old(self)@ });
            return;
        }
        self.warned = true;
        let mut message: String = "crash recovery checkpoint unavailable: ".to_owned();
        message.append(error);
        let event = AgentEvent::Error { turn_id: Some(self.turn_id), message, recoverable: true };
        proof {
            lemma_events_push(out@, event);
        }
        out.push(event);
    }

    /// Takes in what the model answered. At the limit its calls are dropped,
    /// and something is said in its place where it said nothing.
    pub fn on_response(
        &mut self,
        session: &mut Session,
        response: ChatStreamResponse,
        message_id: u128,
        out: &mut Vec<AgentEvent>,
    ) -> (r: Result<Progress, Error>)
        requires
            old(session).wf(),
        ensures
            final(session).wf(),
            final(out)@.len() >= old(out)@.len(),
            final(out)@.take(old(out)@.len() as int) == old(out)@,
            response_outcome(
                old(self)@,
                final(self)@,
                old(session)@,
                final(session)@,
                added(old(out)@, final(out)@),
                message_id,
                response.content@,
                maybe(response.reasoning_content),
                call_views(response.tool_calls@),
                progress_of(r),
                refusal(r),
            ),
    {
        let turn_id = self.turn_id;
        let ghost run = self@;
        let ghost before = out@;
        let ghost calls = call_views(response.tool_calls@);
        let ghost said_content = response.content@;
        if !self.offers_tools() && response.tool_calls.len() > 0 {
            let content = if is_blank(response.content.as_str()) {
                report(
                    out,
                    AgentEvent::TextDelta {
                        turn_id,
                        message_id,
                        chunk: TOOL_LIMIT_FALLBACK.to_owned(),
                        is_final: false,
                    },
                );
                TOOL_LIMIT_FALLBACK.to_owned()
            } else {
                response.content
            };
            let record = AssistantRecord {
                message_id,
                content,
                reasoning_content: response.reasoning_content,
                tool_calls: Vec::new(),
            };
            let ghost given = record;
            let ghost said = if blank(said_content) {
                seq![delta(turn_id, message_id, TOOL_LIMIT_FALLBACK@, false)]
            } else {
                Seq::empty()
            };
            proof {
                assert(call_views(given.tool_calls@) =~= Seq::<CallView>::empty());
                assert(is_answer(
                    given,
                    message_id,
                    given.content@,
                    maybe(given.reasoning_content),
                    Seq::empty(),
                ));
                assert(added(before, out@) =~= said);
                assert(out@.take(before.len() as int) =~= before);
            }
            match session.record_assistant(record) {
                Ok(()) => {},
                Err(e) => {
                    return Err(e);
                },
            }
            report(
                out,
                AgentEvent::TextDelta { turn_id, message_id, chunk: String::new(), is_final: true },
            );
            proof {
                let last = delta(turn_id, message_id, Seq::empty(), true);
                assert(added(before, out@) =~= said.push(last));
                assert(out@.take(before.len() as int) =~= before);
            }
            return Ok(Progress::Finished);
        }
        let calling = response.tool_calls.len() > 0;
        let copies = crate::llm::protocol::copy_calls(&response.tool_calls);
        let record = AssistantRecord {
            message_id,
            content: response.content,
            reasoning_content: response.reasoning_content,
            tool_calls: response.tool_calls,
        };
        let ghost given = record;
        proof {
            assert(is_answer(
                given,
                message_id,
                given.content@,
                maybe(given.reasoning_content),
                calls,
            ));
            assert(added(before, out@) =~= Seq::empty());
            assert(out@.take(before.len() as int) =~= before);
        }
        match session.record_assistant(record) {
            Ok(()) => {},
            Err(e) => {
                return Err(e);
            },
        }
        report(
            out,
            AgentEvent::TextDelta { turn_id, message_id, chunk: String::new(), is_final: true },
        );
        proof {
            let last = delta(turn_id, message_id, Seq::empty(), true);
            assert(added(before, out@) =~= seq![last]);
            assert(out@.take(before.len() as int) =~= before);
        }
        if !calling {
            return Ok(Progress::Finished);
        }
        self.tool_loops = self.tool_loops + 1;
        self.calls = copies;
        assert(self@ =~= RunView {
            tool_loops: (run.tool_loops + 1) as usize,
            calls,
            ..run
        });
        Ok(Progress::CallTools)
    }

    /// Turns to the next call: its arguments are read, and the user is asked
    /// where the tools' policy says so.
    pub fn next_call(
        &mut self,
        tools: &ToolRegistry,
        request_id: String,
        out: &mut Vec<AgentEvent>,
    ) -> (r: Result<CallStep, Error>)
        ensures
            ({
                let run = old(self)@;
                if run.calls.len() == 0 {
                    r == Ok::<CallStep, Error>(CallStep::NoneLeft) && final(self)@ == run
                        && final(out)@ == old(out)@
                } else {
                    let call = run.calls[0];
                    match json_compact(call.arguments) {
                        Err(_) => r matches Err(e) && e@ == "decode tool arguments"@
                            && final(out)@ == old(out)@ && final(self)@ == (RunView {
                            calls: run.calls.drop_first(),
                            ..run
                        }),
                        Ok(arguments) => {
                            let current = CurrentView {
                                call_id: call.id,
                                name: call.name,
                                arguments,
                            };
                            &&& final(self)@ == (RunView {
                                calls: run.calls.drop_first(),
                                current: Some(current),
                                ..run
                            })
                            &&& if approval_of(tools@, call.name) == Some(true) {
                                &&& r matches Ok(CallStep::Ask(request)) && request.request_id
                                    == request_id && request.call_id@ == call.id
                                    && request.tool_name@ == call.name && request.arguments@
                                    == arguments
                                &&& event_views(final(out)@) == event_views(old(out)@).push(
                                    AgentEventView::ApprovalRequired {
                                        turn_id: run.turn_id,
                                        request_id: request_id@,
                                        call_id: call.id,
                                        tool_name: call.name,
                                        arguments,
                                    },
                                )
                            } else {
                                r == Ok::<CallStep, Error>(CallStep::Proceed) && final(out)@
                                    == old(out)@
                            }
                        },
                    }
                }
            }),
    {
        if self.calls.len() == 0 {
            return Ok(CallStep::NoneLeft);
        }
        let ghost run = self@;
        let call = self.calls.remove(0);
        assert(call@ == run.calls[0]);
        assert(call_views(self.calls@) =~= run.calls.drop_first());
        let arguments = match json_compact_of(call.function.arguments.as_str()) {
            Ok(arguments) => arguments,
            Err(_) => {
                assert(self@ =~= RunView { calls: run.calls.drop_first(), ..run });
                return Err(fail("decode tool arguments"));
            },
        };
        let ask = match tools.requires_approval(call.function.name.as_str()) {
            Some(needed) => needed,
            None => false,
        };
        let current = CurrentCall {
            call_id: call.id.clone(),
            name: call.function.name.clone(),
            arguments: arguments.clone(),
        };
        self.current = Some(current);
        assert(self@ =~= RunView {
            calls: run.calls.drop_first(),
            current: Some(
                CurrentView {
                    call_id: call@.id,
                    name: call@.name,
                    arguments: arguments@,
                },
            ),
            ..run
        });
        if !ask {
            return Ok(CallStep::Proceed);
        }
        let request = ApprovalRequest {
            request_id,
            call_id: call.id,
            tool_name: call.function.name,
            arguments,
        };
        let event = AgentEvent::ApprovalRequired {
            turn_id: self.turn_id,
            request_id: request.request_id.clone(),
            call_id: request.call_id.clone(),
            tool_name: request.tool_name.clone(),
            arguments: request.arguments.clone(),
        };
        proof {
            lemma_events_push(out@, event);
        }
        out.push(event);
        Ok(CallStep::Ask(request))
    }

    /// Takes in what the user decided. A refusal is recorded as the result of
    /// the call; changed arguments take the place of those the model gave.
    pub fn on_decision(
        &mut self,
        session: &mut Session,
        decision: ApprovalDecision,
        out: &mut Vec<AgentEvent>,
    ) -> (r: Result<bool, Error>)
        requires
            old(session).wf(),
            old(self)@.current is Some,
        ensures
            final(session).wf(),
            ({
                let run = old(self)@;
                let current = run.current->0;
                match decision {
                    ApprovalDecision::Approve => r == Ok::<bool, Error>(true) && final(self)@ == run
                        && final(session)@ == old(session)@ && final(out)@ == old(out)@,
                    ApprovalDecision::Modify(arguments) => r == Ok::<bool, Error>(true)
                        && final(self)@ == (RunView {
                        current: Some(CurrentView { arguments: arguments@, ..current }),
                        ..run
                    }) && final(session)@ == old(session)@ && final(out)@ == old(out)@,
                    ApprovalDecision::Reject => rejected(
                        run,
                        final(self)@,
                        old(session)@,
                        final(session)@,
                        event_views(old(out)@),
                        event_views(final(out)@),
                        went_on(r),
                        refusal(r),
                    ),
                }
            }),
    {
        let ghost run = self@;
        match decision {
            ApprovalDecision::Approve => Ok(true),
            ApprovalDecision::Modify(arguments) => {
                match self.current.take() {
                    Some(current) => {
                        let mut current = current;
                        current.arguments = arguments;
                        self.current = Some(current);
                    },
                    None => {},
                }
                assert(self@ =~= RunView {
                    current: Some(CurrentView { arguments: arguments@, ..run.current->0 }),
                    ..run
                });
                Ok(true)
            },
            ApprovalDecision::Reject => {
                match self.record_start(session) {
                    Ok(()) => {},
                    Err(e) => {
                        assert(rejected(
                            run,
                            self@,
                            old(session)@,
                            session@,
                            event_views(old(out)@),
                            event_views(out@),
                            None,
                            Some(e@),
                        ));
                        return Err(e);
                    },
                }
                let ghost middle = session@;
                let result = error_result("tool execution rejected by user");
                match self.finish_call(session, result, false, 0, out) {
                    Ok(()) => {
                        assert(rejected_after(
                            run,
                            self@,
                            middle,
                            session@,
                            event_views(old(out)@),
                            event_views(out@),
                            Some(false),
                            None,
                        ));
                        Ok(false)
                    },
                    Err(e) => {
                        assert(rejected_after(
                            run,
                            self@,
                            middle,
                            session@,
                            event_views(old(out)@),
                            event_views(out@),
                            None,
                            Some(e@),
                        ));
                        Err(e)
                    },
                }
            },
        }
    }

    /// Records that the current call begins.
    fn record_start(&self, session: &mut Session) -> (r: Result<(), Error>)
        requires
            old(session).wf(),
            self@.current is Some,
        ensures
            final(session).wf(),
            started(old(session)@, final(session)@, self@.current->0, refusal(r)),
    {
        match &self.current {
            None => Err(fail("session has no active turn")),
            Some(current) => {
                let record = ToolCallRecord {
                    call_id: current.call_id.clone(),
                    name: current.name.clone(),
                    arguments: current.arguments.clone(),
                };
                let ghost event = SessionEvent::ToolStarted(record);
                assert(is_start(event, self@.current->0));
                session.record_tool_started(record)
            },
        }
    }

    /// Begins the current call: it is recorded and reported, and handed out to
    /// be carried out.
    pub fn start_call(&self, session: &mut Session, out: &mut Vec<AgentEvent>) -> (r: Result<
        ToolOrder,
        Error,
    >)
        requires
            old(session).wf(),
            self@.current is Some,
        ensures
            final(session).wf(),
            started(old(session)@, final(session)@, self@.current->0, refusal(r)),
            match r {
                Ok(order) => order.name@ == self@.current->0.name && order.arguments@
                    == self@.current->0.arguments && event_views(final(out)@) == event_views(
                    old(out)@,
                ).push(
                    AgentEventView::ToolStarted {
                        turn_id: self@.turn_id,
                        call_id: self@.current->0.call_id,
                        name: self@.current->0.name,
                        arguments: self@.current->0.arguments,
                    },
                ),
                Err(_) => final(out)@ == old(out)@,
            },
    {
        match self.record_start(session) {
            Ok(()) => {},
            Err(e) => {
                return Err(e);
            },
        }
        match &self.current {
            None => Err(fail("session has no active turn")),
            Some(current) => {
                let event = AgentEvent::ToolStarted {
                    turn_id: self.turn_id,
                    call_id: current.call_id.clone(),
                    name: current.name.clone(),
                    arguments: current.arguments.clone(),
                };
                proof {
                    lemma_events_push(out@, event);
                }
                out.push(event);
                Ok(
                    ToolOrder { name: current.name.clone(), arguments: current.arguments.clone() },
                )
            },
        }
    }

    /// Takes in how the current call ended.
    pub fn finish_call(
        &mut self,
        session: &mut Session,
        result: String,
        success: bool,
        duration_ms: u64,
        out: &mut Vec<AgentEvent>,
    ) -> (r: Result<(), Error>)
        requires
            old(session).wf(),
            old(self)@.current is Some,
        ensures
            final(session).wf(),
            ({
                let run = old(self)@;
                let current = run.current->0;
                &&& finished(
                    old(session)@,
                    final(session)@,
                    current,
                    result@,
                    success,
                    duration_ms,
                    refusal(r),
                )
                &&& match r {
                    Ok(()) => final(self)@ == (RunView { current: None, ..run }) && event_views(
                        final(out)@,
                    ) == event_views(old(out)@).push(
                        finish_report(run.turn_id, current, result@, success),
                    ),
                    Err(_) => final(self)@ == run && final(out)@ == old(out)@,
                }
            }),
    {
        let ghost run = self@;
        let (call_id, name) = match &self.current {
            Some(current) => (current.call_id.clone(), current.name.clone()),
            None => (String::new(), String::new()),
        };
        let record = ToolResultRecord {
            call_id: call_id.clone(),
            name: name.clone(),
            result: result.clone(),
            success,
            duration_ms,
        };
        let ghost event = SessionEvent::ToolFinished(record);
        assert(is_finish(event, run.current->0, result@, success, duration_ms));
        match session.record_tool_finished(record) {
            Ok(()) => {},
            Err(e) => {
                return Err(e);
            },
        }
        self.current = None;
        assert(self@ =~= RunView { current: None, ..run });
        let event = AgentEvent::ToolFinished {
            turn_id: self.turn_id,
            call_id,
            name,
            result,
            success,
        };
        proof {
            lemma_events_push(out@, event);
        }
        out.push(event);
        Ok(())
    }
}

/// Whether a call goes on to be carried out.
pub open spec fn went_on(r: Result<bool, Error>) -> Option<bool> {
    match r {
        Ok(b) => Some(b),
        Err(_) => None,
    }
}

/// The second half of a refused call: it is recorded as ended, and reported.
pub open spec fn rejected_after(
    run: RunView,
    next: RunView,
    middle: SessionView,
    after: SessionView,
    old_reports: Seq<AgentEventView>,
    reports: Seq<AgentEventView>,
    on: Option<bool>,
    error: Option<Seq<char>>,
) -> bool {
    let current = run.current->0;
    let result = error_json("tool execution rejected by user"@);
    &&& finished(middle, after, current, result, false, 0, error)
    &&& error is Some ==> next == run && reports == old_reports && on is None
    &&& error is None ==> next == (RunView { current: None, ..run }) && on == Some(false)
        && reports == old_reports.push(finish_report(run.turn_id, current, result, false))
}

/// The outcome of a refused call: it is recorded as begun and as ended, with a
/// result that says that it was refused, and it is not carried out.
pub open spec fn rejected(
    run: RunView,
    next: RunView,
    before: SessionView,
    after: SessionView,
    old_reports: Seq<AgentEventView>,
    reports: Seq<AgentEventView>,
    on: Option<bool>,
    error: Option<Seq<char>>,
) -> bool {
    ||| (error is Some && on is None && started(before, after, run.current->0, error) && next == run
        && reports == old_reports)
    ||| exists|middle: SessionView|
        started(before, middle, run.current->0, None) && #[trigger] rejected_after(
            run,
            next,
            middle,
            after,
            old_reports,
            reports,
            on,
            error,
        )
}

/// Ends a turn: well where nothing went wrong, as cancelled where the user
/// wished so, and as failed otherwise.
pub fn conclude_turn(
    session: &mut Session,
    turn_id: TurnId,
    result: Result<(), Error>,
    cancelled: bool,
    out: &mut Vec<AgentEvent>,
) -> (r: Result<(), Error>)
    requires
        old(session).wf(),
    ensures
        final(session).wf(),
        match result {
            Ok(()) => concluded_well(
                old(session)@,
                final(session)@,
                turn_id,
                event_views(old(out)@),
                event_views(final(out)@),
                refusal(r),
            ),
            Err(error) => final(out)@ == old(out)@ && concluded_badly(
                old(session)@,
                final(session)@,
                turn_id,
                cancelled,
                error@,
                refusal(r),
            ),
        },
{
    match result {
        Ok(()) => {
            match session.finish_turn(&turn_id) {
                Ok(()) => {},
                Err(e) => {
                    return Err(e);
                },
            }
            let event = AgentEvent::TurnCompleted { turn_id };
            proof {
                lemma_events_push(out@, event);
            }
            out.push(event);
            Ok(())
        },
        Err(error) => {
            if cancelled {
                let ghost event = SessionEvent::TurnCancelled { reason: error.message };
                assert(is_bad_end(event, true, error@));
                match session.cancel_turn(&turn_id, error.message.clone()) {
                    Ok(()) => {
                        assert(ended_badly(
                            old(session)@,
                            session@,
                            turn_id,
                            true,
                            error@,
                            None,
                        ));
                        Err(error)
                    },
                    Err(e) => {
                        assert(ended_badly(
                            old(session)@,
                            session@,
                            turn_id,
                            true,
                            error@,
                            Some(e@),
                        ));
                        assert(some_refusal(old(session)@, session@, turn_id, true, error@));
                        Err(fail("persist cancelled turn"))
                    },
                }
            } else {
                let failure = TurnFailure { message: error.message.clone(), recoverable: true };
                let ghost event = SessionEvent::TurnFailed(failure);
                assert(is_bad_end(event, false, error@));
                match session.fail_turn(&turn_id, failure) {
                    Ok(()) => {
                        assert(ended_badly(
                            old(session)@,
                            session@,
                            turn_id,
                            false,
                            error@,
                            None,
                        ));
                        Err(error)
                    },
                    Err(e) => {
                        assert(ended_badly(
                            old(session)@,
                            session@,
                            turn_id,
                            false,
                            error@,
                            Some(e@),
                        ));
                        assert(some_refusal(old(session)@, session@, turn_id, false, error@));
                        Err(fail("persist failed turn"))
                    },
                }
            }
        },
    }
}

/// A turn ended well: the session says so, and it is reported.
pub open spec fn concluded_well(
    before: SessionView,
    after: SessionView,
    turn_id: TurnId,
    old_reports: Seq<AgentEventView>,
    reports: Seq<AgentEventView>,
    error: Option<Seq<char>>,
) -> bool {
    &&& closed(before, after, turn_id, SessionEvent::TurnCompleted, error)
    &&& error is None ==> reports == old_reports.push(AgentEventView::TurnCompleted { turn_id })
    &&& error is Some ==> reports == old_reports
}

/// The event of a turn that ended badly.
pub open spec fn is_bad_end(event: SessionEvent, cancelled: bool, message: Seq<char>) -> bool {
    if cancelled {
        event matches SessionEvent::TurnCancelled { reason } && reason@ == message
    } else {
        event matches SessionEvent::TurnFailed(failure) && failure.message@ == message
            && failure.recoverable
    }
}

/// The session recorded that a turn ended badly, or refused it.
pub open spec fn ended_badly(
    before: SessionView,
    after: SessionView,
    turn_id: TurnId,
    cancelled: bool,
    message: Seq<char>,
    error: Option<Seq<char>>,
) -> bool {
    exists|event: SessionEvent| #[trigger]
        is_bad_end(event, cancelled, message) && closed(before, after, turn_id, event, error)
}

/// The session refused to record that a turn ended badly.
pub open spec fn some_refusal(
    before: SessionView,
    after: SessionView,
    turn_id: TurnId,
    cancelled: bool,
    message: Seq<char>,
) -> bool {
    exists|m: Seq<char>| #[trigger]
        ended_badly(before, after, turn_id, cancelled, message, Some(m))
}

/// A turn ended badly: the session says so, and what went wrong is handed on. A
/// session that cannot say so is another failure.
pub open spec fn concluded_badly(
    before: SessionView,
    after: SessionView,
    turn_id: TurnId,
    cancelled: bool,
    message: Seq<char>,
    error: Option<Seq<char>>,
) -> bool {
    ||| (error == Some(message) && ended_badly(before, after, turn_id, cancelled, message, None))
    ||| (error == Some(
        if cancelled {
            "persist cancelled turn"@
        } else {
            "persist failed turn"@
        },
    ) && some_refusal(before, after, turn_id, cancelled, message))
}

/// Checks how an agent is set up, before it takes up a session.
pub fn check_setup(
    tool_timeout_nanos: u128,
    max_tool_output_bytes: usize,
    session_workspace: &str,
    workspace: &str,
) -> (r: Result<(), Error>)
    ensures
        if tool_timeout_nanos == 0 {
            r matches Err(e) && e@ == "tool timeout must be greater than zero"@
        } else if max_tool_output_bytes < MIN_OUTPUT_BYTES {
            r matches Err(e) && e@ == "max tool output must be at least 256 bytes"@
        } else if !same_path(session_workspace@, workspace@) {
            r matches Err(e) && e@ == "session workspace does not match agent workspace"@
        } else {
            r is Ok
        },
{
    if tool_timeout_nanos == 0 {
        return Err(fail("tool timeout must be greater than zero"));
    }
    if max_tool_output_bytes < MIN_OUTPUT_BYTES {
        return Err(fail("max tool output must be at least 256 bytes"));
    }
    if !is_same_path(session_workspace, workspace) {
        return Err(fail("session workspace does not match agent workspace"));
    }
    Ok(())
}

/// The setting switches automatic compaction off.
pub open spec fn switched_off(setting: Seq<char>) -> bool {
    let s = lowered(trimmed(setting));
    s == "0"@ || s == "false"@ || s == "off"@
}

/// Whether automatic compaction is on: it is unless the setting says otherwise.
pub fn auto_compact_enabled(setting: Option<String>) -> (r: bool)
    ensures
        r == (match setting {
            Some(text) => !switched_off(text@),
            None => true,
        }),
{
    match setting {
        Some(text) => {
            let s = to_lower(trim(text.as_str()).as_str());
            !(same(s.as_str(), "0") || same(s.as_str(), "false") || same(s.as_str(), "off"))
        },
        None => true,
    }
}

/// What a model is sent when it shall summarize.
pub fn compaction_request(source: String) -> (r: Vec<ChatMessage>)
    ensures
        message_views(r@) == seq![
            plain_message("system"@, COMPACTION_INSTRUCTION@),
            plain_message("user"@, source@),
        ],
        message_views(r@).last().role == "user"@,
        message_views(r@).last().content == source@,
{
    let mut out: Vec<ChatMessage> = Vec::new();
    out.push(ChatMessage::plain("system", COMPACTION_INSTRUCTION.to_owned()));
    let ghost text = source@;
    out.push(ChatMessage::plain("user", source));
    assert(message_views(out@) =~= seq![
        plain_message("system"@, COMPACTION_INSTRUCTION@),
        plain_message("user"@, text),
    ]);
    out
}

/// The rounds of tool calls never exceed the limit, and where they have reached
/// it nothing that the model asks for is carried out.
pub proof fn tool_rounds_are_bounded(
    run: RunView,
    next: RunView,
    before: SessionView,
    after: SessionView,
    reports: Seq<AgentEventView>,
    message_id: u128,
    content: Seq<char>,
    reasoning: Option<Seq<char>>,
    calls: Seq<CallView>,
    progress: Option<Progress>,
    error: Option<Seq<char>>,
)
    requires
        run.tool_loops <= run.max_tool_loops,
        response_outcome(
            run,
            next,
            before,
            after,
            reports,
            message_id,
            content,
            reasoning,
            calls,
            progress,
            error,
        ),
    ensures
        next.tool_loops <= next.max_tool_loops,
        next.max_tool_loops == run.max_tool_loops,
        at_limit(run) ==> next == run && !(error is None && progress == Some(Progress::CallTools)),
        error is None && progress == Some(Progress::CallTools) ==> next.tool_loops == run.tool_loops
            + 1,
{
}

} // verus!
