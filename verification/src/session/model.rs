//! The records of a session: its summary, its transcript and its tree.
pub use crate::ids::{RunId, SessionId, TurnId};
use crate::ids::hyphenated;
use crate::llm::protocol::{ChatMessage, ToolCall};
use crate::text::maybe;
use vstd::prelude::*;

verus! {

/// What a new session is made from.
#[derive(Debug)]
pub struct CreateSession {
    pub workspace: String,
    pub model: String,
    pub model_id: String,
}

/// Which sessions to list.
#[derive(Debug)]
pub struct SessionFilter {
    pub workspace: Option<String>,
    pub include_archived: bool,
}

/// Where a session stands.
#[derive(Debug, Clone, Copy, PartialEq, Eq, Structural)]
pub enum SessionStatus {
    Idle,
    Running,
    Interrupted,
    Corrupt,
    Archived,
}

/// A Skill that a session has switched on.
#[derive(Debug)]
pub struct ActiveSkillRecord {
    pub name: String,
    pub source: String,
    pub digest: String,
    pub order: usize,
}

/// The view of an active Skill.
#[verifier::ext_equal]
pub struct SkillView {
    pub name: Seq<char>,
    pub source: Seq<char>,
    pub digest: Seq<char>,
    pub order: usize,
}

impl View for ActiveSkillRecord {
    type V = SkillView;

    open spec fn view(&self) -> SkillView {
        SkillView {
            name: self.name@,
            source: self.source@,
            digest: self.digest@,
            order: self.order,
        }
    }
}

impl Clone for ActiveSkillRecord {
    fn clone(&self) -> (r: Self)
        ensures
            r == *self,
    {
        ActiveSkillRecord {
            name: self.name.clone(),
            source: self.source.clone(),
            digest: self.digest.clone(),
            order: self.order,
        }
    }
}

/// The views of a list of active Skills.
pub open spec fn skill_views(skills: Seq<ActiveSkillRecord>) -> Seq<SkillView> {
    skills.map_values(|s: ActiveSkillRecord| s@)
}

/// A copy of a list of active Skills.
pub fn copy_skills(skills: &Vec<ActiveSkillRecord>) -> (r: Vec<ActiveSkillRecord>)
    ensures
        r@ == skills@,
{
    let mut out: Vec<ActiveSkillRecord> = Vec::new();
    let mut i: usize = 0;
    while i < skills.len()
        invariant
            i <= skills.len(),
            out@ == skills@.take(i as int),
        decreases skills.len() - i,
    {
        out.push(skills[i].clone());
        i += 1;
        assert(skills@.take(i as int) =~= skills@.take(i - 1).push(skills@[i - 1]));
    }
    assert(skills@.take(i as int) =~= skills@);
    out
}

/// What is kept of a session for lists. Times are nanoseconds since the epoch.
#[derive(Debug)]
pub struct SessionSummary {
    pub schema_version: u32,
    pub session_id: SessionId,
    pub title: String,
    pub workspace: String,
    pub model: String,
    pub model_id: String,
    pub created_at: i128,
    pub updated_at: i128,
    pub status: SessionStatus,
    pub last_seq: u64,
    pub completed_turns: usize,
    pub context_epoch: u64,
    pub compaction_through_seq: Option<u64>,
    pub parent_session_id: Option<SessionId>,
    pub active_branch_id: Option<u128>,
    pub active_head_seq: u64,
    pub branch_count: usize,
    pub archived: bool,
    pub active_skills: Vec<ActiveSkillRecord>,
}

/// The view of a summary.
#[verifier::ext_equal]
pub struct SummaryView {
    pub schema_version: u32,
    pub session_id: SessionId,
    pub title: Seq<char>,
    pub workspace: Seq<char>,
    pub model: Seq<char>,
    pub model_id: Seq<char>,
    pub created_at: i128,
    pub updated_at: i128,
    pub status: SessionStatus,
    pub last_seq: u64,
    pub completed_turns: usize,
    pub context_epoch: u64,
    pub compaction_through_seq: Option<u64>,
    pub parent_session_id: Option<SessionId>,
    pub active_branch_id: Option<u128>,
    pub active_head_seq: u64,
    pub branch_count: usize,
    pub archived: bool,
    pub active_skills: Seq<SkillView>,
}

impl View for SessionSummary {
    type V = SummaryView;

    open spec fn view(&self) -> SummaryView {
        SummaryView {
            schema_version: self.schema_version,
            session_id: self.session_id,
            title: self.title@,
            workspace: self.workspace@,
            model: self.model@,
            model_id: self.model_id@,
            created_at: self.created_at,
            updated_at: self.updated_at,
            status: self.status,
            last_seq: self.last_seq,
            completed_turns: self.completed_turns,
            context_epoch: self.context_epoch,
            compaction_through_seq: self.compaction_through_seq,
            parent_session_id: self.parent_session_id,
            active_branch_id: self.active_branch_id,
            active_head_seq: self.active_head_seq,
            branch_count: self.branch_count,
            archived: self.archived,
            active_skills: skill_views(self.active_skills@),
        }
    }
}

impl Clone for SessionSummary {
    fn clone(&self) -> (r: Self)
        ensures
            r@ == self@,
    {
        SessionSummary {
            schema_version: self.schema_version,
            session_id: self.session_id,
            title: self.title.clone(),
            workspace: self.workspace.clone(),
            model: self.model.clone(),
            model_id: self.model_id.clone(),
            created_at: self.created_at,
            updated_at: self.updated_at,
            status: self.status,
            last_seq: self.last_seq,
            completed_turns: self.completed_turns,
            context_epoch: self.context_epoch,
            compaction_through_seq: self.compaction_through_seq,
            parent_session_id: self.parent_session_id,
            active_branch_id: self.active_branch_id,
            active_head_seq: self.active_head_seq,
            branch_count: self.branch_count,
            archived: self.archived,
            active_skills: copy_skills(&self.active_skills),
        }
    }
}

/// What a model is sent, and about how many tokens it is.
#[derive(Debug)]
pub struct ModelContext {
    pub messages: Vec<ChatMessage>,
    pub estimated_tokens: usize,
}

/// How the program was set up when it took a session up. The sampling
/// temperature is kept as the bits of its floating-point form.
#[derive(Debug)]
pub struct RuntimeSnapshot {
    pub noya_version: String,
    pub workspace: String,
    pub model: String,
    pub model_id: String,
    pub system_prompt: String,
    pub tool_names: Vec<String>,
    pub max_tool_loops: usize,
    pub tool_timeout_ms: u64,
    pub max_tool_output_bytes: usize,
    pub temperature_bits: Option<u32>,
    pub tool_approval_mode: String,
    pub blocked_tools: Vec<String>,
    pub active_skills: Vec<ActiveSkillRecord>,
}

/// What the user asked.
#[derive(Debug)]
pub struct UserMessageRecord {
    pub message_id: u128,
    pub content: String,
}

/// What the model answered.
#[derive(Debug)]
pub struct AssistantRecord {
    pub message_id: u128,
    pub content: String,
    pub reasoning_content: Option<String>,
    pub tool_calls: Vec<ToolCall>,
}

/// A tool call that has begun; `arguments` is a compact JSON text.
#[derive(Debug)]
pub struct ToolCallRecord {
    pub call_id: String,
    pub name: String,
    pub arguments: String,
}

/// A tool call that has ended; `result` is a compact JSON text.
#[derive(Debug)]
pub struct ToolResultRecord {
    pub call_id: String,
    pub name: String,
    pub result: String,
    pub success: bool,
    pub duration_ms: u64,
}

/// Why a turn failed.
#[derive(Debug)]
pub struct TurnFailure {
    pub message: String,
    pub recoverable: bool,
}

/// A summary that stands for the turns up to a boundary.
#[derive(Debug)]
pub struct CompactionRecord {
    pub summary: String,
    pub through_seq: u64,
    pub through_turn_id: TurnId,
    pub keep_from_turn_id: Option<TurnId>,
    pub source_token_estimate: usize,
    pub summary_model: String,
}

/// What a compaction would summarize, and up to where.
#[derive(Debug)]
pub struct CompactionPlan {
    pub source: String,
    pub through_seq: u64,
    pub through_turn_id: TurnId,
    pub keep_from_turn_id: Option<TurnId>,
    pub source_token_estimate: usize,
}

/// The forms in which a session can be exported.
#[derive(Debug, Clone, Copy, PartialEq, Eq, Structural)]
pub enum ExportFormat {
    Markdown,
    Jsonl,
}

/// Who a transcript item comes from.
#[derive(Debug, Clone, Copy, PartialEq, Eq, Structural)]
pub enum TranscriptKind {
    User,
    Agent,
    Tool,
    System,
    Error,
}

/// One entry of the transcript that people read.
#[derive(Debug)]
pub struct TranscriptItem {
    pub id: u128,
    pub kind: TranscriptKind,
    pub content: String,
    pub turn_id: Option<TurnId>,
    pub tool_call_id: Option<String>,
    pub interrupted: bool,
}

/// The view of a transcript item.
#[verifier::ext_equal]
pub struct ItemView {
    pub id: u128,
    pub kind: TranscriptKind,
    pub content: Seq<char>,
    pub turn_id: Option<TurnId>,
    pub tool_call_id: Option<Seq<char>>,
    pub interrupted: bool,
}

impl View for TranscriptItem {
    type V = ItemView;

    open spec fn view(&self) -> ItemView {
        ItemView {
            id: self.id,
            kind: self.kind,
            content: self.content@,
            turn_id: self.turn_id,
            tool_call_id: maybe(self.tool_call_id),
            interrupted: self.interrupted,
        }
    }
}

impl Clone for TranscriptItem {
    fn clone(&self) -> (r: Self)
        ensures
            r@ == self@,
    {
        TranscriptItem {
            id: self.id,
            kind: self.kind,
            content: self.content.clone(),
            turn_id: self.turn_id,
            tool_call_id: self.tool_call_id.clone(),
            interrupted: self.interrupted,
        }
    }
}

/// The views of a list of items.
pub open spec fn item_views(items: Seq<TranscriptItem>) -> Seq<ItemView> {
    items.map_values(|i: TranscriptItem| i@)
}

/// Everything that happened in a session, for people.
#[derive(Debug)]
pub struct Transcript {
    pub items: Vec<TranscriptItem>,
}

impl View for Transcript {
    type V = Seq<ItemView>;

    open spec fn view(&self) -> Seq<ItemView> {
        item_views(self.items@)
    }
}

impl Clone for Transcript {
    fn clone(&self) -> (r: Self)
        ensures
            r@ == self@,
    {
        let mut items: Vec<TranscriptItem> = Vec::new();
        let mut i: usize = 0;
        while i < self.items.len()
            invariant
                i <= self.items.len(),
                item_views(items@) == self@.take(i as int),
            decreases self.items.len() - i,
        {
            let item = self.items[i].clone();
            assert(item_views(items@.push(item)) =~= item_views(items@).push(item@));
            items.push(item);
            i += 1;
            assert(self@.take(i as int) =~= self@.take(i - 1).push(self@[i - 1]));
        }
        assert(self@.take(i as int) =~= self@);
        Transcript { items }
    }
}

/// A session's summary together with its transcript.
#[derive(Debug)]
pub struct SessionSnapshot {
    pub summary: SessionSummary,
    pub transcript: Transcript,
}

/// The heading of a kind of item.
pub open spec fn kind_label(kind: TranscriptKind) -> Seq<char> {
    match kind {
        TranscriptKind::User => "User"@,
        TranscriptKind::Agent => "Noya"@,
        TranscriptKind::Tool => "Tool"@,
        TranscriptKind::System => "System"@,
        TranscriptKind::Error => "Error"@,
    }
}

/// The title and the facts at the top of an exported session.
pub open spec fn markdown_head(s: SummaryView) -> Seq<char> {
    "# "@ + s.title + "\n\n- Session: `"@ + hyphenated(s.session_id.0) + "`\n- Workspace: `"@
        + s.workspace + "`\n- Model: `"@ + s.model + "` / `"@ + s.model_id + "`\n\n"@
}

/// The sections of an exported session, one for each item.
pub open spec fn markdown_body(items: Seq<ItemView>) -> Seq<char>
    decreases items.len(),
{
    if items.len() == 0 {
        Seq::empty()
    } else {
        markdown_body(items.drop_last()) + "## "@ + kind_label(items.last().kind) + "\n\n"@
            + items.last().content + "\n\n"@
    }
}

impl Transcript {
    /// The transcript as a Markdown document.
    pub fn to_markdown(&self, summary: &SessionSummary) -> (r: String)
        ensures
            r@ == markdown_head(summary@) + markdown_body(self@),
    {
        let mut out: String = "# ".to_owned();
        out.append(summary.title.as_str());
        out.append("\n\n- Session: `");
        out.append(summary.session_id.to_text().as_str());
        out.append("`\n- Workspace: `");
        out.append(summary.workspace.as_str());
        out.append("`\n- Model: `");
        out.append(summary.model.as_str());
        out.append("` / `");
        out.append(summary.model_id.as_str());
        out.append("`\n\n");
        let ghost head = out@;
        assert(head =~= markdown_head(summary@));
        let mut i: usize = 0;
        assert(head + markdown_body(self@.take(0)) =~= head);
        while i < self.items.len()
            invariant
                i <= self.items.len(),
                out@ == head + markdown_body(self@.take(i as int)),
            decreases self.items.len() - i,
        {
            let item = &self.items[i];
            out.append("## ");
            out.append(
                match item.kind {
                    TranscriptKind::User => "User",
                    TranscriptKind::Agent => "Noya",
                    TranscriptKind::Tool => "Tool",
                    TranscriptKind::System => "System",
                    TranscriptKind::Error => "Error",
                },
            );
            out.append("\n\n");
            out.append(item.content.as_str());
            out.append("\n\n");
            i += 1;
            proof {
                let now = self@.take(i as int);
                assert(now.drop_last() =~= self@.take(i - 1));
                assert(now.last() == item@);
                assert(out@ =~= head + markdown_body(now));
            }
        }
        assert(self@.take(i as int) =~= self@);
        out
    }
}

/// One event's place in the session tree.
#[derive(Debug)]
pub struct SessionTreeNode {
    pub seq: u64,
    pub parent_seq: Option<u64>,
    pub event_type: String,
    pub turn_id: Option<TurnId>,
}

/// The view of a tree node.
#[verifier::ext_equal]
pub struct NodeView {
    pub seq: u64,
    pub parent_seq: Option<u64>,
    pub event_type: Seq<char>,
    pub turn_id: Option<TurnId>,
}

impl View for SessionTreeNode {
    type V = NodeView;

    open spec fn view(&self) -> NodeView {
        NodeView {
            seq: self.seq,
            parent_seq: self.parent_seq,
            event_type: self.event_type@,
            turn_id: self.turn_id,
        }
    }
}

/// A named branch of a session.
#[derive(Debug)]
pub struct SessionBranch {
    pub branch_id: u128,
    pub name: String,
    pub from_seq: u64,
    pub head_seq: u64,
    pub created_seq: u64,
    pub summary: Option<String>,
    pub summary_model: Option<String>,
}

/// The view of a branch.
#[verifier::ext_equal]
pub struct BranchView {
    pub branch_id: u128,
    pub name: Seq<char>,
    pub from_seq: u64,
    pub head_seq: u64,
    pub created_seq: u64,
    pub summary: Option<Seq<char>>,
    pub summary_model: Option<Seq<char>>,
}

impl View for SessionBranch {
    type V = BranchView;

    open spec fn view(&self) -> BranchView {
        BranchView {
            branch_id: self.branch_id,
            name: self.name@,
            from_seq: self.from_seq,
            head_seq: self.head_seq,
            created_seq: self.created_seq,
            summary: maybe(self.summary),
            summary_model: maybe(self.summary_model),
        }
    }
}

/// The events of a session as a tree, its branches, and where it stands.
#[derive(Debug)]
pub struct SessionTree {
    pub nodes: Vec<SessionTreeNode>,
    pub branches: Vec<SessionBranch>,
    pub active_branch_id: Option<u128>,
    pub active_head_seq: u64,
}

/// The view of a session tree.
#[verifier::ext_equal]
pub struct TreeView {
    pub nodes: Seq<NodeView>,
    pub branches: Seq<BranchView>,
    pub active_branch_id: Option<u128>,
    pub active_head_seq: u64,
}

/// The views of a list of nodes.
pub open spec fn node_views(nodes: Seq<SessionTreeNode>) -> Seq<NodeView> {
    nodes.map_values(|n: SessionTreeNode| n@)
}

/// The views of a list of branches.
pub open spec fn branch_views(branches: Seq<SessionBranch>) -> Seq<BranchView> {
    branches.map_values(|b: SessionBranch| b@)
}

impl View for SessionTree {
    type V = TreeView;

    open spec fn view(&self) -> TreeView {
        TreeView {
            nodes: node_views(self.nodes@),
            branches: branch_views(self.branches@),
            active_branch_id: self.active_branch_id,
            active_head_seq: self.active_head_seq,
        }
    }
}

impl Clone for SessionTreeNode {
    fn clone(&self) -> (r: Self)
        ensures
            r == *self,
    {
        SessionTreeNode {
            seq: self.seq,
            parent_seq: self.parent_seq,
            event_type: self.event_type.clone(),
            turn_id: self.turn_id,
        }
    }
}

impl Clone for SessionBranch {
    fn clone(&self) -> (r: Self)
        ensures
            r@ == self@,
    {
        SessionBranch {
            branch_id: self.branch_id,
            name: self.name.clone(),
            from_seq: self.from_seq,
            head_seq: self.head_seq,
            created_seq: self.created_seq,
            summary: self.summary.clone(),
            summary_model: self.summary_model.clone(),
        }
    }
}

impl Clone for SessionTree {
    fn clone(&self) -> (r: Self)
        ensures
            r@ == self@,
    {
        let mut nodes: Vec<SessionTreeNode> = Vec::new();
        let mut i: usize = 0;
        while i < self.nodes.len()
            invariant
                i <= self.nodes.len(),
                nodes@ == self.nodes@.take(i as int),
            decreases self.nodes.len() - i,
        {
            nodes.push(self.nodes[i].clone());
            i += 1;
            assert(self.nodes@.take(i as int) =~= self.nodes@.take(i - 1).push(self.nodes@[i - 1]));
        }
        assert(self.nodes@.take(i as int) =~= self.nodes@);
        let mut branches: Vec<SessionBranch> = Vec::new();
        let mut j: usize = 0;
        while j < self.branches.len()
            invariant
                j <= self.branches.len(),
                branch_views(branches@) == self@.branches.take(j as int),
            decreases self.branches.len() - j,
        {
            let branch = self.branches[j].clone();
            assert(branch_views(branches@.push(branch)) =~= branch_views(branches@).push(branch@));
            branches.push(branch);
            j += 1;
            assert(self@.branches.take(j as int) =~= self@.branches.take(j - 1).push(
                self@.branches[j - 1],
            ));
        }
        assert(self@.branches.take(j as int) =~= self@.branches);
        SessionTree {
            nodes,
            branches,
            active_branch_id: self.active_branch_id,
            active_head_seq: self.active_head_seq,
        }
    }
}

} // verus!
