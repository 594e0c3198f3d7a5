//! The daemon that Jobs run in, and what its clients ask of it.
use crate::error::{fail, Error};
use crate::ids::{hyphenated, uuid_text, SessionId};
use crate::job::model::{status_name, JobEvent, JobStatus};
use crate::paths::{join_path, under};
use crate::seqs::{lemma_slot, lemma_slot_is, slot_of};
use crate::text::{blank, decimal, decimal_of, is_blank, maybe, same, trim, trimmed};
use vstd::prelude::*;

verus! {

/// The version of the form in which clients and the daemon speak.
pub const PROTOCOL_VERSION: u32 = 2;

/// Where the daemon's files lie.
#[derive(Debug)]
pub struct DaemonPaths {
    pub root: String,
    pub socket: String,
    pub pid: String,
}

impl DaemonPaths {
    /// Where the daemon's files lie: in the directory that is set for data, or
    /// in the user's home.
    pub fn discover(data_dir: Option<String>, home: Option<String>) -> (r: Result<Self, Error>)
        ensures
            match (maybe(data_dir), maybe(home)) {
                (Some(root), _) => r matches Ok(p) && paths_are(p, root),
                (None, Some(dir)) => r matches Ok(p) && paths_are(p, under(dir, ".noya"@)),
                (None, None) => r matches Err(e) && e@
                    == "cannot determine the user home directory"@,
            },
    {
        let root = match data_dir {
            Some(dir) => dir,
            None => match home {
                Some(dir) => join_path(dir.as_str(), ".noya"),
                None => {
                    return Err(fail("cannot determine the user home directory"));
                },
            },
        };
        let socket = join_path(root.as_str(), "daemon.sock");
        let pid = join_path(root.as_str(), "daemon.pid");
        Ok(DaemonPaths { root, socket, pid })
    }
}

/// The daemon's files lie in a directory.
pub open spec fn paths_are(p: DaemonPaths, root: Seq<char>) -> bool {
    p.root@ == root && p.socket@ == under(root, "daemon.sock"@) && p.pid@ == under(
        root,
        "daemon.pid"@,
    )
}

/// What a client asks.
#[derive(Debug)]
pub enum DaemonRequest {
    Hello { client_id: String },
    Prompt { request_id: String, input: String },
    Submit { request_id: String, source_session_id: Option<SessionId>, input: String },
    ListJobs { request_id: String },
    JobStatus { request_id: String, job_id: u128 },
    JobAttach { request_id: String, job_id: u128, cursor: Option<u64> },
    JobCancel { request_id: String, job_id: u128 },
    JobApprove { request_id: String, job_id: u128 },
    JobReject { request_id: String, job_id: u128 },
    JobRetry { request_id: String, job_id: u128 },
    Detach,
    Stop,
}

/// What the daemon does for a client.
#[derive(Debug)]
pub enum ClientAction {
    /// It says that something is wrong.
    Complain { message: String },
    /// It takes a Job in.
    Submit { request_id: String, source: Option<SessionId>, input: String },
    /// It shows how the Jobs stand.
    List { request_id: String },
    /// It shows a Job, with its events behind a place, and from then on reports
    /// new ones where `follow` is set.
    Show { request_id: String, job_id: u128, after: u64, follow: bool },
    /// It cancels a Job.
    Cancel { request_id: String, job_id: u128 },
    /// It answers a Job's question.
    Answer { request_id: String, job_id: u128, approve: bool },
    /// It tries a Job again.
    Retry { request_id: String, job_id: u128 },
    /// It takes leave, and stops where `stop` is set.
    Leave { reply: Reply, stop: bool },
}

/// The answer to a request.
#[derive(Debug)]
pub struct Reply {
    pub request_id: String,
    pub ok: bool,
    pub message: String,
    pub job_id: Option<u128>,
}

/// The answer to a request is this one.
pub open spec fn is_reply(
    r: Reply,
    request_id: Seq<char>,
    message: Seq<char>,
    job_id: Option<u128>,
) -> bool {
    r.request_id@ == request_id && r.ok && r.message@ == message && r.job_id == job_id
}

/// What the daemon does for a client that has said who it is.
pub open spec fn acts(request: DaemonRequest, action: ClientAction) -> bool {
    match request {
        DaemonRequest::Hello { client_id: _ } => action matches ClientAction::Complain { message }
            && message@ == "hello already completed"@,
        DaemonRequest::Prompt { request_id, input } => action == (ClientAction::Submit {
            request_id,
            source: None,
            input,
        }),
        DaemonRequest::Submit { request_id, source_session_id, input } => action == (
        ClientAction::Submit { request_id, source: source_session_id, input }),
        DaemonRequest::ListJobs { request_id } => action == (ClientAction::List { request_id }),
        DaemonRequest::JobStatus { request_id, job_id } => action == (ClientAction::Show {
            request_id,
            job_id,
            after: 0,
            follow: false,
        }),
        DaemonRequest::JobAttach { request_id, job_id, cursor } => action == (ClientAction::Show {
            request_id,
            job_id,
            after: match cursor {
                Some(n) => n,
                None => 0,
            },
            follow: true,
        }),
        DaemonRequest::JobCancel { request_id, job_id } => action == (ClientAction::Cancel {
            request_id,
            job_id,
        }),
        DaemonRequest::JobApprove { request_id, job_id } => action == (ClientAction::Answer {
            request_id,
            job_id,
            approve: true,
        }),
        DaemonRequest::JobReject { request_id, job_id } => action == (ClientAction::Answer {
            request_id,
            job_id,
            approve: false,
        }),
        DaemonRequest::JobRetry { request_id, job_id } => action == (ClientAction::Retry {
            request_id,
            job_id,
        }),
        DaemonRequest::Detach => action matches ClientAction::Leave { reply, stop } && is_reply(
            reply,
            "detach"@,
            "detached"@,
            None,
        ) && !stop,
        DaemonRequest::Stop => action matches ClientAction::Leave { reply, stop } && is_reply(
            reply,
            "stop"@,
            "stopping"@,
            None,
        ) && stop,
    }
}

/// The name by which a client says who it is: that must be its first request.
pub fn greet(request: DaemonRequest) -> (r: Result<String, Error>)
    ensures
        match request {
            DaemonRequest::Hello { client_id } => if blank(client_id@) {
                r matches Err(e) && e@ == "daemon client ID cannot be empty"@
            } else {
                r == Ok::<String, Error>(client_id)
            },
            _ => r matches Err(e) && e@ == "first daemon request must be hello"@,
        },
{
    match request {
        DaemonRequest::Hello { client_id } => {
            if is_blank(client_id.as_str()) {
                return Err(fail("daemon client ID cannot be empty"));
            }
            Ok(client_id)
        },
        _ => Err(fail("first daemon request must be hello")),
    }
}

/// What the daemon does for a client that has said who it is.
pub fn on_request(request: DaemonRequest) -> (r: ClientAction)
    ensures
        acts(request, r),
{
    match request {
        DaemonRequest::Hello { client_id: _ } => ClientAction::Complain {
            message: "hello already completed".to_owned(),
        },
        DaemonRequest::Prompt { request_id, input } => ClientAction::Submit {
            request_id,
            source: None,
            input,
        },
        DaemonRequest::Submit { request_id, source_session_id, input } => ClientAction::Submit {
            request_id,
            source: source_session_id,
            input,
        },
        DaemonRequest::ListJobs { request_id } => ClientAction::List { request_id },
        DaemonRequest::JobStatus { request_id, job_id } => ClientAction::Show {
            request_id,
            job_id,
            after: 0,
            follow: false,
        },
        DaemonRequest::JobAttach { request_id, job_id, cursor } => ClientAction::Show {
            request_id,
            job_id,
            after: match cursor {
                Some(n) => n,
                None => 0,
            },
            follow: true,
        },
        DaemonRequest::JobCancel { request_id, job_id } => ClientAction::Cancel {
            request_id,
            job_id,
        },
        DaemonRequest::JobApprove { request_id, job_id } => ClientAction::Answer {
            request_id,
            job_id,
            approve: true,
        },
        DaemonRequest::JobReject { request_id, job_id } => ClientAction::Answer {
            request_id,
            job_id,
            approve: false,
        },
        DaemonRequest::JobRetry { request_id, job_id } => ClientAction::Retry {
            request_id,
            job_id,
        },
        DaemonRequest::Detach => ClientAction::Leave {
            reply: Reply {
                request_id: "detach".to_owned(),
                ok: true,
                message: "detached".to_owned(),
                job_id: None,
            },
            stop: false,
        },
        DaemonRequest::Stop => ClientAction::Leave {
            reply: Reply {
                request_id: "stop".to_owned(),
                ok: true,
                message: "stopping".to_owned(),
                job_id: None,
            },
            stop: true,
        },
    }
}

/// What was done for a client.
#[derive(Debug, Clone, Copy, PartialEq, Eq, Structural)]
pub enum Done {
    Submitted(u128),
    Listed,
    Shown { job_id: u128, follow: bool },
    Standing { job_id: u128, status: JobStatus },
    Retried(u128),
}

/// How the daemon says what was done.
pub open spec fn done_message(d: Done) -> Seq<char> {
    match d {
        Done::Submitted(id) => "Job submitted: "@ + hyphenated(id),
        Done::Listed => "Job list sent"@,
        Done::Shown { job_id: _, follow } => if follow {
            "Job attached"@
        } else {
            "Job status sent"@
        },
        Done::Standing { job_id: _, status } => "Job is "@ + status_name(status),
        Done::Retried(id) => "Job retried as "@ + hyphenated(id),
    }
}

/// The Job that something was done to.
pub open spec fn done_job(d: Done) -> Option<u128> {
    match d {
        Done::Submitted(id) => Some(id),
        Done::Listed => None,
        Done::Shown { job_id, follow: _ } => Some(job_id),
        Done::Standing { job_id, status: _ } => Some(job_id),
        Done::Retried(id) => Some(id),
    }
}

/// The answer to a request for which something was done.
pub fn reply(request_id: String, done: Done) -> (r: Reply)
    ensures
        is_reply(r, request_id@, done_message(done), done_job(done)),
{
    let (message, job_id) = match done {
        Done::Submitted(id) => {
            let mut text: String = "Job submitted: ".to_owned();
            text.append(uuid_text(id).as_str());
            (text, Some(id))
        },
        Done::Listed => ("Job list sent".to_owned(), None),
        Done::Shown { job_id, follow } => {
            let text = if follow {
                "Job attached".to_owned()
            } else {
                "Job status sent".to_owned()
            };
            (text, Some(job_id))
        },
        Done::Standing { job_id, status } => {
            let mut text: String = "Job is ".to_owned();
            text.append(status.name());
            (text, Some(job_id))
        },
        Done::Retried(id) => {
            let mut text: String = "Job retried as ".to_owned();
            text.append(uuid_text(id).as_str());
            (text, Some(id))
        },
    };
    Reply { request_id, ok: true, message, job_id }
}

/// A Job that a client follows, and the last of its events that it knows.
#[derive(Debug, Clone, Copy, PartialEq, Eq, Structural)]
pub struct Attachment {
    pub job_id: u128,
    pub cursor: u64,
}

/// The Jobs that a client follows.
#[derive(Debug)]
pub struct Attachments {
    items: Vec<Attachment>,
}

/// The Jobs of attachments.
pub open spec fn attached_ids(s: Seq<Attachment>) -> Seq<u128> {
    s.map_values(|a: Attachment| a.job_id)
}

impl View for Attachments {
    type V = Map<u128, u64>;

    closed spec fn view(&self) -> Map<u128, u64> {
        Map::new(
            |id: u128| attached_ids(self.items@).contains(id),
            |id: u128| self.items@[slot_of(attached_ids(self.items@), id)].cursor,
        )
    }
}

impl Attachments {
    /// No Job occurs twice.
    pub closed spec fn wf(&self) -> bool {
        attached_ids(self.items@).no_duplicates()
    }

    /// No Jobs.
    pub fn new() -> (r: Self)
        ensures
            r.wf(),
            r@ == Map::<u128, u64>::empty(),
    {
        let out = Attachments { items: Vec::new() };
        assert(out@ =~= Map::<u128, u64>::empty());
        out
    }

    fn slot(&self, job_id: u128) -> (r: Option<usize>)
        ensures
            match r {
                Some(k) => k < self.items@.len() && k == slot_of(attached_ids(self.items@), job_id)
                    && self@.dom().contains(job_id) && self@[job_id]
                    == self.items@[k as int].cursor,
                None => slot_of(attached_ids(self.items@), job_id) == self.items@.len()
                    && !self@.dom().contains(job_id),
            },
    {
        let ghost ids = attached_ids(self.items@);
        let mut i: usize = 0;
        while i < self.items.len()
            invariant
                i <= self.items.len(),
                ids == attached_ids(self.items@),
                forall|j: int| 0 <= j < i ==> ids[j] != job_id,
            decreases self.items.len() - i,
        {
            if self.items[i].job_id == job_id {
                proof {
                    assert(ids[i as int] == job_id);
                    lemma_slot_is(ids, job_id, i as int);
                    lemma_slot(ids, job_id);
                }
                return Some(i);
            }
            assert(ids[i as int] != job_id);
            i += 1;
        }
        proof {
            lemma_slot_is(ids, job_id, i as int);
            lemma_slot(ids, job_id);
        }
        None
    }

    /// Follows a Job from a place on.
    pub fn attach(&mut self, job_id: u128, cursor: u64)
        requires
            old(self).wf(),
        ensures
            final(self).wf(),
            final(self)@ == old(self)@.insert(job_id, cursor),
    {
        let ghost before = self.items@;
        let ghost ids = attached_ids(before);
        proof {
            lemma_slot(ids, job_id);
        }
        match self.slot(job_id) {
            Some(k) => {
                self.items.set(k, Attachment { job_id, cursor });
                assert(attached_ids(self.items@) =~= ids);
                proof {
                    assert forall|id: u128| self@.dom().contains(id) implies self@[id] == old(
                        self,
                    )@.insert(job_id, cursor)[id] by {
                        lemma_slot(ids, id);
                    }
                }
            },
            None => {
                self.items.push(Attachment { job_id, cursor });
                proof {
                    let now = attached_ids(self.items@);
                    assert(now =~= ids.push(job_id));
                    assert forall|i: int, j: int|
                        0 <= i < now.len() && 0 <= j < now.len() && i != j implies now[i]
                        != now[j] by {
                        if i < ids.len() {
                            assert(ids.contains(ids[i]));
                        }
                        if j < ids.len() {
                            assert(ids.contains(ids[j]));
                        }
                    }
                    assert forall|id: u128|
                        self@.dom().contains(id) == old(self)@.insert(job_id, cursor).dom().contains(
                            id,
                        ) by {
                        lemma_slot(ids, id);
                        lemma_slot(now, id);
                        crate::seqs::lemma_slot_push(ids, job_id, id);
                    }
                    assert forall|id: u128| self@.dom().contains(id) implies self@[id] == old(
                        self,
                    )@.insert(job_id, cursor)[id] by {
                        lemma_slot(ids, id);
                        lemma_slot(now, id);
                        crate::seqs::lemma_slot_push(ids, job_id, id);
                    }
                }
            },
        }
        assert(self@ =~= old(self)@.insert(job_id, cursor));
    }

    /// Takes in that a Job has a new event: whether the client is told, which it
    /// is where it follows the Job and does not know the event.
    pub fn on_notification(&mut self, job_id: u128, sequence: u64) -> (r: bool)
        requires
            old(self).wf(),
        ensures
            final(self).wf(),
            r == is_news(old(self)@, job_id, sequence),
            final(self)@ == (if r {
                old(self)@.insert(job_id, sequence)
            } else {
                old(self)@
            }),
    {
        match self.slot(job_id) {
            Some(k) => {
                if sequence > self.items[k].cursor {
                    self.attach(job_id, sequence);
                    true
                } else {
                    false
                }
            },
            None => false,
        }
    }
}

/// A client follows a Job, and does not know an event of it.
pub open spec fn is_news(attached: Map<u128, u64>, job_id: u128, sequence: u64) -> bool {
    attached.dom().contains(job_id) && sequence > attached[job_id]
}

/// A client is told of an event once: it is not told of it again, nor of an
/// earlier one of that Job, and following one Job does not change what is told
/// of another.
pub proof fn an_event_is_told_once(
    attached: Map<u128, u64>,
    job_id: u128,
    sequence: u64,
    other: u128,
    later: u64,
)
    requires
        is_news(attached, job_id, sequence),
    ensures
        ({
            let after = attached.insert(job_id, sequence);
            &&& later <= sequence ==> !is_news(after, job_id, later)
            &&& later > sequence ==> is_news(after, job_id, later)
            &&& other != job_id ==> is_news(after, other, later) == is_news(attached, other, later)
        }),
{
}

/// What a line means that is typed into a client.
#[derive(Debug)]
pub enum LineStep {
    Detach,
    List,
    Prompt { input: String },
    Nothing,
}

/// What a line means that is typed into a client: the commands count without the
/// space around them, and a prompt is sent as it is.
pub fn on_line(line: String) -> (r: LineStep)
    ensures
        ({
            let t = trimmed(line@);
            if t == "/detach"@ || t == "/quit"@ {
                r is Detach
            } else if t == "/status"@ {
                r is List
            } else if t.len() == 0 {
                r is Nothing
            } else {
                r == (LineStep::Prompt { input: line })
            }
        }),
{
    let text = trim(line.as_str());
    if same(text.as_str(), "/detach") || same(text.as_str(), "/quit") {
        return LineStep::Detach;
    }
    if same(text.as_str(), "/status") {
        return LineStep::List;
    }
    if text.as_str().is_empty() {
        return LineStep::Nothing;
    }
    LineStep::Prompt { input: line }
}

/// What a client makes of an answer: nothing where it answers another request,
/// a failure where it says so, and the Job that it names otherwise. `missing` is
/// the message where it names none but should.
pub fn on_reply(reply: &Reply, request_id: &str, missing: Option<&str>) -> (r: Option<
    Result<Option<u128>, Error>,
>)
    ensures
        if reply.request_id@ != request_id@ {
            r is None
        } else if !reply.ok {
            r matches Some(Err(e)) && e@ == reply.message@
        } else if missing is Some && reply.job_id is None {
            r matches Some(Err(e)) && e@ == missing->0@
        } else {
            r matches Some(Ok(id)) && id == reply.job_id
        },
{
    if !same(reply.request_id.as_str(), request_id) {
        return None;
    }
    if !reply.ok {
        return Some(Err(fail(reply.message.as_str())));
    }
    match (missing, reply.job_id) {
        (Some(message), None) => Some(Err(fail(message))),
        _ => Some(Ok(reply.job_id)),
    }
}

/// How an event of a Job is told to people; `agent` is how a report of the agent
/// is written.
pub fn describe_job_event(event: &JobEvent, agent: &str) -> (r: String)
    ensures
        r@ == (match *event {
            JobEvent::StateChanged { from: _, to, reason: _ } => "state -> "@ + status_name(to),
            JobEvent::Agent(_) => "agent: "@ + agent@,
            JobEvent::ApprovalRequired(approval) => "approval required: "@ + approval.tool_name@,
            JobEvent::Completed { output: _, diagnostics: _ } => "completed"@,
            JobEvent::Failed { message } => "failed: "@ + message@,
        }),
{
    match event {
        JobEvent::StateChanged { from: _, to, reason: _ } => {
            let mut out: String = "state -> ".to_owned();
            out.append(to.name());
            out
        },
        JobEvent::Agent(_) => {
            let mut out: String = "agent: ".to_owned();
            out.append(agent);
            out
        },
        JobEvent::ApprovalRequired(approval) => {
            let mut out: String = "approval required: ".to_owned();
            out.append(approval.tool_name.as_str());
            out
        },
        JobEvent::Completed { output: _, diagnostics: _ } => "completed".to_owned(),
        JobEvent::Failed { message } => {
            let mut out: String = "failed: ".to_owned();
            out.append(message.as_str());
            out
        },
    }
}

/// How a Job is told to people.
pub fn describe_job(job_id: u128, status: JobStatus, sequence: Option<u64>) -> (r: String)
    ensures
        r@ == "Job "@ + hyphenated(job_id) + " · "@ + status_name(status) + (match sequence {
            Some(n) => " · seq "@ + decimal(n as nat),
            None => Seq::empty(),
        }),
{
    let mut out: String = "Job ".to_owned();
    out.append(uuid_text(job_id).as_str());
    out.append(" · ");
    out.append(status.name());
    let ghost head = out@;
    match sequence {
        Some(n) => {
            out.append(" · seq ");
            out.append(decimal_of(n).as_str());
            assert(out@ =~= head + (" · seq "@ + decimal(n as nat)));
        },
        None => {
            assert(head + Seq::empty() =~= head);
        },
    }
    out
}

/// A client's request is carried out as it was put: a task keeps its words, a question is
/// answered as the client answered it, and whatever concerns a Job concerns the Job
/// that was named; every answer can be told by the identifier of its request.
pub proof fn a_request_is_carried_out_as_it_was_put(request: DaemonRequest, action: ClientAction)
    requires
        acts(request, action),
    ensures
        match action {
            ClientAction::Submit { request_id, source, input } => match request {
                DaemonRequest::Prompt { request_id: id, input: said } => id == request_id && said
                    == input && source is None,
                DaemonRequest::Submit { request_id: id, source_session_id, input: said } => id
                    == request_id && said == input && source == source_session_id,
                _ => false,
            },
            ClientAction::Cancel { request_id, job_id } => request == (DaemonRequest::JobCancel {
                request_id,
                job_id,
            }),
            ClientAction::Retry { request_id, job_id } => request == (DaemonRequest::JobRetry {
                request_id,
                job_id,
            }),
            ClientAction::Answer { request_id, job_id, approve } => if approve {
                request == (DaemonRequest::JobApprove { request_id, job_id })
            } else {
                request == (DaemonRequest::JobReject { request_id, job_id })
            },
            ClientAction::Show { request_id, job_id, after, follow } => match request {
                DaemonRequest::JobStatus { request_id: id, job_id: job } => id == request_id && job
                    == job_id && !follow && after == 0,
                DaemonRequest::JobAttach { request_id: id, job_id: job, cursor } => id == request_id
                    && job == job_id && follow && (cursor matches Some(n) ==> after == n),
                _ => false,
            },
            ClientAction::List { request_id } => request == (DaemonRequest::ListJobs { request_id }),
            ClientAction::Leave { stop, .. } => if stop {
                request is Stop
            } else {
                request is Detach
            },
            ClientAction::Complain { .. } => request is Hello,
        },
{
}

} // verus!
