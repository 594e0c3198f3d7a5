//! Branches of a session: where one begins, and which one is continued.
use crate::error::{fail, fail_about, Error};
use crate::ids::{hyphenated, random_uuid, uuid_text};
use crate::seqs::{lemma_slot, lemma_slot_push, slot_of};
use crate::session::durable::next_seq;
use crate::session::event::{event_name, EventEnvelope, SessionEvent, SCHEMA_VERSION};
use crate::session::forks::lemma_unfolded_begins;
use crate::session::laws::{
    lemma_line, lemma_line_path, lemma_line_projection, lemma_tree_sound, lemma_unfolded_stamp,
    tree_sound, unbranched,
};
use crate::session::manager::{lemma_numbered, unfolded};
use crate::session::model::{BranchView, NodeView, SessionBranch, SessionTree, TreeView};
use crate::session::projection::{
    context_messages, projection_of, replay_fold, step, Projection, ProjectionView,
};
use crate::session::tree::{
    active_path_of, boundary_of, branch_ids, branch_step, effective_parent, is_boundary,
    last_boundary, node_seqs, path_to, replay_step, rooted, tree_of, with_node,
};
use crate::text::{
    a_blank_text_trims_to_nothing, begins, blank, chars_of, decimal, decimal_of, is_blank,
    is_whitespace, maybe, starts_with, string_of, strip_prefix, trim, trimmed, whitespace,
};
use vstd::prelude::*;

verus! {

// ---------------------------------------------------------------------------
// Beginning a branch.
// ---------------------------------------------------------------------------

/// Why a branch cannot begin.
pub open spec fn branch_fault(
    p: ProjectionView,
    branch_id: u128,
    name: Seq<char>,
    from_seq: Option<u64>,
) -> Option<Seq<char>> {
    if p.active is Some {
        Some("cannot change branches during an active turn"@)
    } else if blank(name) {
        Some("branch name cannot be empty"@)
    } else if branch_ids(p.tree.branches).contains(branch_id) {
        Some("branch already exists"@)
    } else {
        match boundary_of(p.tree, from_seq) {
            Ok(_) => None,
            Err(m) => Some(m),
        }
    }
}

/// The event with which a branch begins: it follows the end of the turn that
/// the branch comes from.
pub open spec fn is_beginning(
    e: EventEnvelope,
    p: ProjectionView,
    branch_id: u128,
    name: Seq<char>,
    source: u64,
) -> bool {
    &&& e == (EventEnvelope {
        schema_version: SCHEMA_VERSION,
        seq: next_seq(p.meta.last_seq),
        parent_seq: Some(source),
        event_id: e.event_id,
        session_id: p.meta.session_id,
        run_id: None,
        turn_id: None,
        timestamp: e.timestamp,
        event: e.event,
    })
    &&& e.event matches SessionEvent::BranchCreated { branch_id: id, name: n, from_seq } && id
        == branch_id && n@ == trimmed(name) && from_seq == source
}

/// The outcome of beginning a branch.
pub open spec fn branch_outcome(
    events: Seq<EventEnvelope>,
    branch_id: u128,
    name: Seq<char>,
    from_seq: Option<u64>,
    r: Result<EventEnvelope, Error>,
) -> bool {
    match projection_of(events) {
        Err(m) => r matches Err(e) && e@ == m,
        Ok(p) => match branch_fault(p, branch_id, name, from_seq) {
            Some(m) => r matches Err(e) && e@ == m,
            None => r matches Ok(e) && is_beginning(
                e,
                p,
                branch_id,
                name,
                boundary_of(p.tree, from_seq)->Ok_0,
            ),
        },
    }
}

/// The event with which a branch begins, to be put at the end of the session's
/// log: at the end of the turn that is named, or of the latest.
pub fn create_branch_as(
    events: &[EventEnvelope],
    branch_id: u128,
    name: &str,
    from_seq: Option<u64>,
) -> (r: Result<EventEnvelope, Error>)
    ensures
        branch_outcome(events@, branch_id, name@, from_seq, r),
{
    let projection = match Projection::replay(events) {
        Ok(projection) => projection,
        Err(e) => {
            return Err(e);
        },
    };
    proof {
        projection.lemma_wf();
    }
    if projection.active_turn_id().is_ok() {
        return Err(fail("cannot change branches during an active turn"));
    }
    if is_blank(name) {
        return Err(fail("branch name cannot be empty"));
    }
    let tree = projection.tree();
    if tree.branch(branch_id).is_some() {
        proof {
            lemma_slot(branch_ids(tree@.branches), branch_id);
        }
        return Err(fail("branch already exists"));
    }
    let source = match tree.completed_turn_boundary(from_seq) {
        Ok(source) => source,
        Err(e) => {
            return Err(e);
        },
    };
    let summary = projection.summary();
    let mut event = EventEnvelope::new(
        summary.session_id,
        summary.last_seq.saturating_add(1),
        None,
        None,
        SessionEvent::BranchCreated { branch_id, name: trim(name), from_seq: source },
    );
    event.parent_seq = Some(source);
    Ok(event)
}

/// The event with which a branch with a new identifier begins.
pub fn create_branch(events: &[EventEnvelope], name: &str, from_seq: Option<u64>) -> (r: Result<
    EventEnvelope,
    Error,
>)
    ensures
        exists|branch_id: u128| #[trigger]
            branch_outcome(events@, branch_id, name@, from_seq, r),
{
    let branch_id: u128 = random_uuid();
    let out = create_branch_as(events, branch_id, name, from_seq);
    assert(branch_outcome(events@, branch_id, name@, from_seq, out));
    out
}

// ---------------------------------------------------------------------------
// Continuing a branch.
// ---------------------------------------------------------------------------

/// Why a branch cannot be continued, with a summary of what another branch came
/// to, or without.
pub open spec fn selection_fault(
    p: ProjectionView,
    branch_id: u128,
    summary: Option<Seq<char>>,
) -> Option<Seq<char>> {
    let k = slot_of(branch_ids(p.tree.branches), branch_id);
    if p.active is Some {
        Some("cannot change branches during an active turn"@)
    } else if !branch_ids(p.tree.branches).contains(branch_id) {
        Some("selected branch does not exist"@)
    } else {
        match summary {
            None => None,
            Some(text) => if blank(text) {
                Some("branch summary cannot be empty"@)
            } else if p.tree.active_head_seq < p.tree.branches[k].from_seq {
                Some("branch summary source is before branch origin"@)
            } else {
                None
            },
        }
    }
}

/// The event that makes a session stand at the head of a branch.
pub open spec fn is_selection(e: EventEnvelope, p: ProjectionView, b: BranchView) -> bool {
    &&& e == (EventEnvelope {
        schema_version: SCHEMA_VERSION,
        seq: next_seq(p.meta.last_seq),
        parent_seq: None,
        event_id: e.event_id,
        session_id: p.meta.session_id,
        run_id: None,
        turn_id: None,
        timestamp: e.timestamp,
        event: e.event,
    })
    &&& e.event == (SessionEvent::BranchSelected { branch_id: b.branch_id, head_seq: b.head_seq })
}

/// The event that brings to a branch what the one that is left came to. It
/// follows the head of the branch.
pub open spec fn is_handover(
    e: EventEnvelope,
    p: ProjectionView,
    b: BranchView,
    summary: Seq<char>,
    model: Seq<char>,
) -> bool {
    &&& e == (EventEnvelope {
        schema_version: SCHEMA_VERSION,
        seq: next_seq(next_seq(p.meta.last_seq)),
        parent_seq: Some(b.head_seq),
        event_id: e.event_id,
        session_id: p.meta.session_id,
        run_id: None,
        turn_id: None,
        timestamp: e.timestamp,
        event: e.event,
    })
    &&& e.event matches SessionEvent::BranchSummary {
        branch_id,
        from_seq,
        summary: s,
        summary_model: m,
    } && branch_id == b.branch_id && from_seq == p.tree.active_head_seq && s@ == summary && m@
        == model
}

/// The events that are put at the end of the log when a branch is selected.
pub open spec fn are_selecting(
    added: Seq<EventEnvelope>,
    p: ProjectionView,
    b: BranchView,
    summary: Option<Seq<char>>,
    model: Seq<char>,
) -> bool {
    &&& added.len() == (if summary is Some {
        2nat
    } else {
        1nat
    })
    &&& is_selection(added[0], p, b)
    &&& summary matches Some(text) ==> is_handover(added[1], p, b, text, model)
}

/// The events that make the session stand at the head of a branch, to be put at
/// the end of its log. A summary of the branch that is left becomes part of the
/// context.
pub fn select_branch(
    events: &[EventEnvelope],
    branch_id: u128,
    summary: Option<String>,
    summary_model: String,
) -> (r: Result<Vec<EventEnvelope>, Error>)
    ensures
        match projection_of(events@) {
            Err(m) => r matches Err(e) && e@ == m,
            Ok(p) => match selection_fault(p, branch_id, maybe(summary)) {
                Some(m) => r matches Err(e) && e@ == m,
                None => r matches Ok(added) && are_selecting(
                    added@,
                    p,
                    p.tree.branches[slot_of(branch_ids(p.tree.branches), branch_id)],
                    maybe(summary),
                    summary_model@,
                ),
            },
        },
{
    let projection = match Projection::replay(events) {
        Ok(projection) => projection,
        Err(e) => {
            return Err(e);
        },
    };
    if projection.active_turn_id().is_ok() {
        return Err(fail("cannot change branches during an active turn"));
    }
    let tree = projection.tree();
    let ghost k = slot_of(branch_ids(tree@.branches), branch_id);
    proof {
        lemma_slot(branch_ids(tree@.branches), branch_id);
    }
    let (head_seq, from_seq): (u64, u64) = match tree.branch(branch_id) {
        Some(branch) => (branch.head_seq, branch.from_seq),
        None => {
            return Err(fail("selected branch does not exist"));
        },
    };
    assert(branch_ids(tree@.branches)[k] == tree@.branches[k].branch_id);
    let last = projection.summary();
    let next: u64 = last.last_seq.saturating_add(1);
    let mut added: Vec<EventEnvelope> = Vec::new();
    added.push(
        EventEnvelope::new(
            last.session_id,
            next,
            None,
            None,
            SessionEvent::BranchSelected { branch_id, head_seq },
        ),
    );
    if let Some(text) = summary {
        if is_blank(text.as_str()) {
            return Err(fail("branch summary cannot be empty"));
        }
        if tree.active_head_seq < from_seq {
            return Err(fail("branch summary source is before branch origin"));
        }
        let mut handover = EventEnvelope::new(
            last.session_id,
            next.saturating_add(1),
            None,
            None,
            SessionEvent::BranchSummary {
                branch_id,
                from_seq: tree.active_head_seq,
                summary: text,
                summary_model,
            },
        );
        handover.parent_seq = Some(head_seq);
        added.push(handover);
    }
    Ok(added)
}

// ---------------------------------------------------------------------------
// What the user asks for, and sees.
// ---------------------------------------------------------------------------

/// What a user asks for with a branch command.
#[derive(Debug, PartialEq, Eq)]
pub enum BranchRequest {
    Create(String),
    Select { prefix: String, summary: Option<String> },
}

/// The view of a request.
pub enum RequestView {
    Create(Seq<char>),
    Select { prefix: Seq<char>, summary: Option<Seq<char>> },
}

impl View for BranchRequest {
    type V = RequestView;

    open spec fn view(&self) -> RequestView {
        match self {
            BranchRequest::Create(name) => RequestView::Create(name@),
            BranchRequest::Select { prefix, summary } => RequestView::Select {
                prefix: prefix@,
                summary: maybe(*summary),
            },
        }
    }
}

/// Where the word that holds position `from` ends.
pub open spec fn word_end(s: Seq<char>, from: int) -> int
    decreases s.len() - from,
{
    if 0 <= from < s.len() && !whitespace(s[from]) {
        word_end(s, from + 1)
    } else {
        from
    }
}

/// What an argument asks for: behind `select` the beginning of a branch's
/// identifier and what is handed over, else the name of a new branch.
pub open spec fn request_in(argument: Seq<char>) -> RequestView {
    let text = trimmed(argument);
    if begins(text, "select "@) {
        let rest = trimmed(text.skip("select "@.len() as int));
        let end = word_end(rest, 0);
        let words = trimmed(rest.skip(end));
        RequestView::Select {
            prefix: rest.take(end),
            summary: if words.len() == 0 {
                None
            } else {
                Some(words)
            },
        }
    } else {
        RequestView::Create(text)
    }
}

proof fn lemma_word_end(s: Seq<char>, from: int, to: int)
    requires
        0 <= from <= to <= s.len(),
        forall|i: int| from <= i < to ==> !whitespace(#[trigger] s[i]),
        to < s.len() ==> whitespace(s[to]),
    ensures
        word_end(s, from) == to,
    decreases to - from,
{
    if from < to {
        lemma_word_end(s, from + 1, to);
    }
}

/// Reads the argument of a branch command.
pub fn read_request(argument: &str) -> (r: BranchRequest)
    ensures
        r@ == request_in(argument@),
{
    let text = trim(argument);
    match strip_prefix(text.as_str(), "select ") {
        Some(rest) => {
            let chars = chars_of(trim(rest.as_str()).as_str());
            let mut end: usize = 0;
            while end < chars.len() && !is_whitespace(chars[end])
                invariant
                    end <= chars.len(),
                    forall|i: int| 0 <= i < end ==> !whitespace(#[trigger] chars@[i]),
                decreases chars.len() - end,
            {
                end += 1;
            }
            proof {
                lemma_word_end(chars@, 0, end as int);
                assert(chars@.subrange(0, end as int) =~= chars@.take(end as int));
                assert(chars@.subrange(end as int, chars@.len() as int) =~= chars@.skip(
                    end as int,
                ));
            }
            let words = trim(string_of(&chars, end, chars.len()).as_str());
            BranchRequest::Select {
                prefix: string_of(&chars, 0, end),
                summary: if words.as_str().is_empty() {
                    None
                } else {
                    Some(words)
                },
            }
        },
        None => BranchRequest::Create(text),
    }
}

/// The branches whose identifier begins with `prefix`.
pub open spec fn branches_named(branches: Seq<BranchView>, prefix: Seq<char>) -> Seq<u128>
    decreases branches.len(),
{
    if branches.len() == 0 {
        Seq::empty()
    } else {
        let before = branches_named(branches.drop_last(), prefix);
        if begins(hyphenated(branches.last().branch_id), prefix) {
            before.push(branches.last().branch_id)
        } else {
            before
        }
    }
}

/// The branch that the beginning of an identifier names.
pub fn resolve_branch(tree: &SessionTree, prefix: &str) -> (r: Result<u128, Error>)
    ensures
        ({
            let found = branches_named(tree@.branches, prefix@);
            if prefix@.len() == 0 {
                r matches Err(e) && e@ == "branch ID prefix cannot be empty"@
            } else if found.len() == 1 {
                r == Ok::<u128, Error>(found[0])
            } else if found.len() == 0 {
                r matches Err(e) && e@ == "no branch matches '"@ + prefix@ + "'"@
            } else {
                r matches Err(e) && e@ == "branch prefix '"@ + prefix@ + "' is ambiguous"@
            }
        }),
{
    if prefix.is_empty() {
        return Err(fail("branch ID prefix cannot be empty"));
    }
    let ghost all = tree@.branches;
    let mut found: Vec<u128> = Vec::new();
    let mut i: usize = 0;
    while i < tree.branches.len()
        invariant
            i <= tree.branches.len(),
            all == tree@.branches,
            found@ == branches_named(all.take(i as int), prefix@),
        decreases tree.branches.len() - i,
    {
        let id: u128 = tree.branches[i].branch_id;
        proof {
            let now = all.take(i + 1);
            assert(now.drop_last() =~= all.take(i as int));
            assert(now.last() == tree.branches@[i as int]@);
        }
        if starts_with(uuid_text(id).as_str(), prefix) {
            found.push(id);
        }
        i += 1;
    }
    assert(all.take(i as int) =~= all);
    if found.len() == 1 {
        Ok(found[0])
    } else if found.len() == 0 {
        Err(fail_about("no branch matches '", prefix, "'"))
    } else {
        Err(fail_about("branch prefix '", prefix, "' is ambiguous"))
    }
}

/// A branch as it is listed, with a mark where the session stands on it.
pub open spec fn branch_line(b: BranchView, active: Option<u128>) -> Seq<char> {
    "\n"@ + (if active == Some(b.branch_id) {
        "* "@
    } else {
        "  "@
    }) + hyphenated(b.branch_id) + " "@ + b.name + " from "@ + decimal(b.from_seq as nat)
        + " to "@ + decimal(b.head_seq as nat)
}

/// The lines of branches.
pub open spec fn branch_lines(branches: Seq<BranchView>, active: Option<u128>) -> Seq<char>
    decreases branches.len(),
{
    if branches.len() == 0 {
        Seq::empty()
    } else {
        branch_lines(branches.drop_last(), active) + branch_line(branches.last(), active)
    }
}

/// A session's tree as it is shown: how many events there are, and the branches.
pub open spec fn tree_text(t: TreeView) -> Seq<char> {
    "Session tree: "@ + decimal(t.nodes.len()) + " events"@ + branch_lines(
        t.branches,
        t.active_branch_id,
    )
}

fn add_branch_line(text: &mut String, b: &SessionBranch, active: Option<u128>)
    ensures
        final(text)@ == old(text)@ + branch_line(b@, active),
{
    let ghost before = text@;
    text.append("\n");
    if active == Some(b.branch_id) {
        text.append("* ");
    } else {
        text.append("  ");
    }
    text.append(uuid_text(b.branch_id).as_str());
    text.append(" ");
    text.append(b.name.as_str());
    text.append(" from ");
    text.append(decimal_of(b.from_seq).as_str());
    text.append(" to ");
    text.append(decimal_of(b.head_seq).as_str());
    assert(text@ =~= before + branch_line(b@, active));
}

/// Shows a session's tree.
pub fn render_tree(tree: &SessionTree) -> (r: String)
    ensures
        r@ == tree_text(tree@),
{
    let mut text: String = "Session tree: ".to_owned();
    text.append(decimal_of(tree.nodes.len() as u64).as_str());
    text.append(" events");
    let ghost head = text@;
    let ghost all = tree@.branches;
    let mut i: usize = 0;
    assert(text@ =~= head + branch_lines(all.take(0), tree.active_branch_id));
    while i < tree.branches.len()
        invariant
            i <= tree.branches.len(),
            all == tree@.branches,
            text@ == head + branch_lines(all.take(i as int), tree.active_branch_id),
        decreases tree.branches.len() - i,
    {
        proof {
            let now = all.take(i + 1);
            assert(now.drop_last() =~= all.take(i as int));
            assert(now.last() == tree.branches@[i as int]@);
        }
        add_branch_line(&mut text, &tree.branches[i], tree.active_branch_id);
        i += 1;
        assert(text@ =~= head + branch_lines(all.take(i as int), tree.active_branch_id));
    }
    assert(all.take(i as int) =~= all);
    assert(text@ =~= tree_text(tree@));
    text
}

// ---------------------------------------------------------------------------
// What holds of branches.
// ---------------------------------------------------------------------------

/// One more node does not change the path to an earlier one.
proof fn lemma_path_stays(nodes: Seq<NodeView>, node: NodeView, i: int)
    requires
        rooted(nodes),
        0 <= i < nodes.len(),
    ensures
        path_to(nodes.push(node), i) == path_to(nodes, i),
    decreases i,
{
    let seqs = node_seqs(nodes);
    let more = nodes.push(node);
    assert(node_seqs(more) =~= seqs.push(node.seq));
    assert(more[i] == nodes[i]);
    if let Some(p) = nodes[i].parent_seq {
        lemma_slot(seqs, p);
        lemma_slot_push(seqs, node.seq, p);
        let j = slot_of(seqs, p);
        if 0 <= j < i {
            lemma_path_stays(nodes, node, j);
        }
    }
}

/// The path to a node that was just added: the one to its parent, and itself.
proof fn lemma_path_grows(nodes: Seq<NodeView>, node: NodeView, parent: u64)
    requires
        rooted(nodes),
        node.parent_seq == Some(parent),
        node_seqs(nodes).contains(parent),
        !node_seqs(nodes).contains(node.seq),
    ensures
        ({
            let more = nodes.push(node);
            &&& slot_of(node_seqs(more), node.seq) == nodes.len()
            &&& path_to(more, nodes.len() as int) == path_to(
                nodes,
                slot_of(node_seqs(nodes), parent),
            ).push(node.seq)
        }),
{
    let seqs = node_seqs(nodes);
    let more = nodes.push(node);
    assert(node_seqs(more) =~= seqs.push(node.seq));
    lemma_slot(seqs, parent);
    lemma_slot(seqs, node.seq);
    lemma_slot_push(seqs, node.seq, parent);
    lemma_slot_push(seqs, node.seq, node.seq);
    lemma_path_stays(nodes, node, slot_of(seqs, parent));
}

/// What happens next joins the path on which the session stands, and the branch
/// that it is on.
pub proof fn what_happens_next_joins_the_path(t: TreeView, e: EventEnvelope)
    requires
        tree_sound(t),
        effective_parent(e) == Some(t.active_head_seq),
        !(e.event is BranchCreated) && !(e.event is BranchSelected) && !(e.event is BranchSummary),
        replay_step(t, e) is Ok,
    ensures
        ({
            let n = replay_step(t, e)->Ok_0;
            &&& n.active_head_seq == e.seq
            &&& n.active_branch_id == t.active_branch_id
            &&& active_path_of(n) == active_path_of(t).push(e.seq)
        }),
{
    let n = replay_step(t, e)->Ok_0;
    lemma_path_grows(t.nodes, n.nodes.last(), t.active_head_seq);
}

/// The tree of a log has a node for each event.
proof fn lemma_nodes(events: Seq<EventEnvelope>)
    requires
        tree_of(events) is Ok,
        forall|i: int| 0 <= i < events.len() ==> (#[trigger] events[i]).seq == i + 1,
    ensures
        tree_of(events)->Ok_0.nodes.len() == events.len(),
        forall|i: int|
            0 <= i < events.len() ==> (#[trigger] tree_of(events)->Ok_0.nodes[i]).seq == i + 1,
    decreases events.len(),
{
    if events.len() > 1 {
        let before = events.drop_last();
        assert forall|i: int| 0 <= i < before.len() implies (#[trigger] before[i]).seq == i + 1 by {
            assert(before[i] == events[i]);
        }
        lemma_nodes(before);
        let n = tree_of(events)->Ok_0;
        let t = tree_of(before)->Ok_0;
        assert(events.last() == events[events.len() - 1]);
        assert forall|i: int| 0 <= i < events.len() implies (#[trigger] n.nodes[i]).seq == i
            + 1 by {
            if i < before.len() {
                assert(n.nodes[i] == t.nodes[i]);
            }
        }
    }
}

/// The place of a new event is a new one.
proof fn lemma_place_is_new(events: Seq<EventEnvelope>)
    requires
        projection_of(events) is Ok,
        events.len() < u64::MAX,
    ensures
        tree_sound(projection_of(events)->Ok_0.tree),
        next_seq(projection_of(events)->Ok_0.meta.last_seq) == events.len() + 1,
        !node_seqs(projection_of(events)->Ok_0.tree.nodes).contains((events.len() + 1) as u64),
        node_seqs(projection_of(events)->Ok_0.tree.nodes).contains(events.len() as u64),
{
    lemma_numbered(events);
    lemma_nodes(events);
    lemma_tree_sound(events);
    let t = tree_of(events)->Ok_0;
    let seqs = node_seqs(t.nodes);
    let n = events.len();
    assert(events.last() == events[n - 1]);
    assert(seqs[n - 1] == t.nodes[n - 1].seq);
    if seqs.contains((n + 1) as u64) {
        let i = choose|i: int| 0 <= i < seqs.len() && seqs[i] == (n + 1) as u64;
        assert(seqs[i] == t.nodes[i].seq);
    }
}

proof fn lemma_last_boundary(nodes: Seq<NodeView>, path: Seq<u64>)
    ensures
        -1 <= last_boundary(nodes, path) < path.len(),
        last_boundary(nodes, path) >= 0 ==> is_boundary(nodes, path[last_boundary(nodes, path)]),
    decreases path.len(),
{
    if path.len() > 0 && !is_boundary(nodes, path.last()) {
        lemma_last_boundary(nodes, path.drop_last());
    }
}

/// The end of a turn is in the tree.
proof fn lemma_boundary_is_there(t: TreeView, from_seq: Option<u64>)
    requires
        boundary_of(t, from_seq) is Ok,
    ensures
        is_boundary(t.nodes, boundary_of(t, from_seq)->Ok_0),
        node_seqs(t.nodes).contains(boundary_of(t, from_seq)->Ok_0),
{
    let source = boundary_of(t, from_seq)->Ok_0;
    lemma_last_boundary(t.nodes, active_path_of(t));
    let i = choose|i: int|
        0 <= i < t.nodes.len() && (#[trigger] t.nodes[i]).seq == source && t.nodes[i].event_type
            == "turn_completed"@;
    assert(node_seqs(t.nodes)[i] == source);
}

/// A branch begins where it was asked to: once its beginning is in the log, the
/// session stands at it, and the path there is the one to its source.
pub proof fn a_branch_begins_at_its_source(
    events: Seq<EventEnvelope>,
    e: EventEnvelope,
    branch_id: u128,
    name: Seq<char>,
    from_seq: Option<u64>,
)
    requires
        projection_of(events) is Ok,
        events.len() < u64::MAX,
        branch_outcome(events, branch_id, name, from_seq, Ok(e)),
    ensures
        tree_of(events.push(e)) is Ok,
        ({
            let before = projection_of(events)->Ok_0.tree;
            let after = tree_of(events.push(e))->Ok_0;
            let source = boundary_of(before, from_seq)->Ok_0;
            &&& after.active_branch_id == Some(branch_id)
            &&& after.active_head_seq == e.seq
            &&& active_path_of(after) == path_to(
                before.nodes,
                slot_of(node_seqs(before.nodes), source),
            ).push(e.seq)
        }),
{
    let p = projection_of(events)->Ok_0;
    let t = p.tree;
    let source = boundary_of(t, from_seq)->Ok_0;
    lemma_place_is_new(events);
    lemma_boundary_is_there(t, from_seq);
    assert(events.push(e).drop_last() =~= events);
    a_blank_text_trims_to_nothing(name);
    let seqs = node_seqs(t.nodes);
    let more = node_seqs(with_node(t, e, Some(source)).nodes);
    lemma_slot(seqs, source);
    assert(more =~= seqs.push(e.seq));
    assert(more[slot_of(seqs, source)] == source);
    let after = tree_of(events.push(e))->Ok_0;
    lemma_path_grows(t.nodes, after.nodes.last(), source);
}

/// Selecting a branch makes the session stand at its head, on the path there;
/// what is handed over comes behind it.
pub proof fn a_selected_branch_is_continued(
    events: Seq<EventEnvelope>,
    added: Seq<EventEnvelope>,
    branch_id: u128,
    summary: Option<Seq<char>>,
    model: Seq<char>,
)
    requires
        projection_of(events) is Ok,
        events.len() < u64::MAX - 1,
        ({
            let p = projection_of(events)->Ok_0;
            let k = slot_of(branch_ids(p.tree.branches), branch_id);
            &&& selection_fault(p, branch_id, summary) is None
            &&& are_selecting(added, p, p.tree.branches[k], summary, model)
        }),
    ensures
        tree_of(events + added) is Ok,
        ({
            let before = projection_of(events)->Ok_0.tree;
            let b = before.branches[slot_of(branch_ids(before.branches), branch_id)];
            let after = tree_of(events + added)->Ok_0;
            let to_head = path_to(before.nodes, slot_of(node_seqs(before.nodes), b.head_seq));
            &&& after.active_branch_id == Some(branch_id)
            &&& active_path_of(after) == (if summary is Some {
                to_head.push(added[1].seq)
            } else {
                to_head
            })
        }),
{
    let p = projection_of(events)->Ok_0;
    let t = p.tree;
    let k = slot_of(branch_ids(t.branches), branch_id);
    lemma_slot(branch_ids(t.branches), branch_id);
    let b = t.branches[k];
    assert(branch_ids(t.branches)[k] == b.branch_id);
    let seqs = node_seqs(t.nodes);
    lemma_place_is_new(events);
    lemma_slot(seqs, b.head_seq);
    let first = events.push(added[0]);
    assert(first.drop_last() =~= events);
    assert(seqs.contains(b.head_seq));
    let mid = tree_of(first)->Ok_0;
    let more = node_seqs(mid.nodes);
    assert(more =~= seqs.push(added[0].seq));
    lemma_slot_push(seqs, added[0].seq, b.head_seq);
    lemma_path_stays(t.nodes, mid.nodes.last(), slot_of(seqs, b.head_seq));
    if summary is Some {
        assert((events + added).drop_last() =~= first);
        assert((events + added).last() == added[1]);
        assert(more[slot_of(seqs, b.head_seq)] == b.head_seq);
        assert(!more.contains(added[1].seq)) by {
            lemma_numbered(events);
            lemma_nodes(events);
            if more.contains(added[1].seq) {
                let i = choose|i: int| 0 <= i < more.len() && more[i] == added[1].seq;
                if i < seqs.len() {
                    assert(seqs[i] == t.nodes[i].seq);
                }
            }
        }
        assert(rooted(mid.nodes)) by {
            assert forall|i: int| 0 <= i < first.len() implies (#[trigger] first[i]).seq > 0 by {
                lemma_numbered(events);
                if i < events.len() {
                    assert(first[i] == events[i]);
                }
            }
            lemma_tree_sound(first);
        }
        let after = tree_of(events + added)->Ok_0;
        lemma_path_grows(mid.nodes, after.nodes.last(), b.head_seq);
    } else {
        assert(events + added =~= first);
    }
}

/// Only a turn that was completed is named so.
proof fn lemma_completion_name(event: SessionEvent)
    requires
        event_name(event) == "turn_completed"@,
    ensures
        event is TurnCompleted,
{
    reveal_strlit("turn_completed");
    reveal_strlit("session_created");
    reveal_strlit("runtime_started");
    reveal_strlit("skill_activated");
    reveal_strlit("skill_deactivated");
    reveal_strlit("title_changed");
    reveal_strlit("model_changed");
    reveal_strlit("turn_started");
    reveal_strlit("assistant_completed");
    reveal_strlit("tool_started");
    reveal_strlit("tool_finished");
    reveal_strlit("turn_failed");
    reveal_strlit("turn_cancelled");
    reveal_strlit("turn_interrupted");
    reveal_strlit("context_reset");
    reveal_strlit("context_compacted");
    reveal_strlit("session_forked");
    reveal_strlit("branch_created");
    reveal_strlit("branch_selected");
    reveal_strlit("branch_summary");
    reveal_strlit("session_archived");
    let name = event_name(event);
    assert(name.len() == 14 && name[0] == 't' && name[6] == 'o');
}

/// The nodes of a tree are named like the events of its log.
proof fn lemma_node_names(events: Seq<EventEnvelope>)
    requires
        tree_of(events) is Ok,
    ensures
        tree_of(events)->Ok_0.nodes.len() == events.len(),
        forall|i: int|
            0 <= i < events.len() ==> (#[trigger] tree_of(events)->Ok_0.nodes[i]).event_type
                == event_name(events[i].event),
    decreases events.len(),
{
    if events.len() > 1 {
        let before = events.drop_last();
        lemma_node_names(before);
        let n = tree_of(events)->Ok_0;
        let t = tree_of(before)->Ok_0;
        assert forall|i: int| 0 <= i < events.len() implies (#[trigger] n.nodes[i]).event_type
            == event_name(events[i].event) by {
            if i < before.len() {
                assert(n.nodes[i] == t.nodes[i]);
                assert(before[i] == events[i]);
            }
        }
    }
}

/// Only the events on the path count.
proof fn lemma_fold_on_path(log: Seq<EventEnvelope>, path: Seq<u64>, b: nat, k: nat)
    requires
        1 <= b <= log.len(),
        1 <= k < log.len(),
        log.len() < u64::MAX,
        unbranched(log.drop_last()),
        unfolded(log.drop_last()) is Ok,
        forall|x: u64| 1 <= x < log.len() ==> (#[trigger] path.contains(x) <==> x <= b),
    ensures
        replay_fold(log, path, k) == unfolded(
            log.drop_last().take(
                if k <= b {
                    k as int
                } else {
                    b as int
                },
            ),
        ),
        replay_fold(log, path, k) is Ok,
    decreases k,
{
    let events = log.drop_last();
    assert(log[k - 1] == events[k - 1]);
    if k == 1 {
        assert(events.take(1)[0] == log[0]);
        lemma_unfolded_begins(events, 1);
    } else {
        lemma_fold_on_path(log, path, b, (k - 1) as nat);
        let at = if k <= b {
            k as int
        } else {
            b as int
        };
        lemma_unfolded_begins(events, at as nat);
        let e = log[k - 1];
        assert(e.seq == k);
        assert(path.contains(k as u64) <==> k <= b);
        let s = replay_fold(log, path, (k - 1) as nat)->Ok_0;
        let shorter = events.take(
            if k - 1 <= b {
                k - 1
            } else {
                b as int
            },
        );
        assert(unbranched(shorter)) by {
            assert forall|i: int| 0 <= i < shorter.len() implies shorter[i] == events[i] by {}
        }
        lemma_unfolded_stamp(shorter);
        assert(shorter[0] == events[0]);
        assert(e.session_id == s.meta.session_id);
    }
}

/// Beginning a branch takes a session back: the model is sent what it was sent
/// at the end of the turn that the branch comes from. The session was only
/// continued so far.
pub proof fn a_branch_takes_the_session_back(
    events: Seq<EventEnvelope>,
    e: EventEnvelope,
    branch_id: u128,
    name: Seq<char>,
    from_seq: Option<u64>,
)
    requires
        projection_of(events) is Ok,
        events.len() < u64::MAX - 1,
        unbranched(events),
        branch_outcome(events, branch_id, name, from_seq, Ok(e)),
    ensures
        projection_of(events.push(e)) is Ok,
        ({
            let source = boundary_of(projection_of(events)->Ok_0.tree, from_seq)->Ok_0;
            &&& 1 <= source <= events.len()
            &&& projection_of(events.take(source as int)) is Ok
            &&& context_messages(projection_of(events.push(e))->Ok_0) == context_messages(
                projection_of(events.take(source as int))->Ok_0,
            )
        }),
{
    let p = projection_of(events)->Ok_0;
    let t = p.tree;
    let log = events.push(e);
    let n = events.len();
    let source = boundary_of(t, from_seq)->Ok_0;
    assert(log.drop_last() =~= events);
    a_branch_begins_at_its_source(events, e, branch_id, name, from_seq);
    lemma_place_is_new(events);
    lemma_boundary_is_there(t, from_seq);
    lemma_line(events);
    lemma_line_projection(events);
    lemma_numbered(events);
    lemma_nodes(events);
    lemma_node_names(events);
    let i = choose|i: int|
        0 <= i < t.nodes.len() && (#[trigger] t.nodes[i]).seq == source && t.nodes[i].event_type
            == "turn_completed"@;
    assert(source == i + 1);
    lemma_completion_name(events[i].event);
    let seqs = node_seqs(t.nodes);
    lemma_slot(seqs, source);
    let j = slot_of(seqs, source);
    assert(seqs[j] == t.nodes[j].seq);
    assert(j == i);
    lemma_line_path(t, n, i);
    let path = active_path_of(tree_of(log)->Ok_0);
    let back = path_to(t.nodes, i);
    assert(path == back.push(e.seq));
    assert forall|x: u64| 1 <= x < log.len() implies (#[trigger] path.contains(x) <==> x
        <= source) by {
        if x <= source {
            assert(back[x - 1] == x);
            assert(path[x - 1] == x);
        }
        if path.contains(x) {
            let k = choose|k: int| 0 <= k < path.len() && path[k] == x;
            if k < back.len() {
                assert(path[k] == back[k]);
            }
        }
    }
    lemma_fold_on_path(log, path, source as nat, n);
    let then = events.take(source as int);
    assert(unbranched(then)) by {
        assert forall|k: int| 0 <= k < then.len() implies then[k] == events[k] by {}
    }
    lemma_unfolded_stamp(then);
    lemma_unfolded_begins(events, source as nat);
    lemma_line_projection(then);
    let s = replay_fold(log, path, n)->Ok_0;
    assert(s == unfolded(then)->Ok_0);
    assert(s.active is None);
    assert(path[back.len() as int] == e.seq);
    assert(path.contains(e.seq));
    assert(log[n as int] == e);
    assert(e.session_id == s.meta.session_id) by {
        assert(then[0] == events[0]);
        lemma_unfolded_stamp(events);
    }
    assert(replay_fold(log, path, n + 1) == step(s, e));
    assert(context_messages(projection_of(log)->Ok_0) =~= context_messages(s));
    assert(context_messages(projection_of(then)->Ok_0) =~= context_messages(s));
}

/// No two branches have the same identifier, and the branch that the session is
/// on ends where the session stands.
pub open spec fn branches_sound(t: TreeView) -> bool {
    &&& branch_ids(t.branches).no_duplicates()
    &&& t.active_branch_id matches Some(id) ==> {
        let k = slot_of(branch_ids(t.branches), id);
        k < t.branches.len() && t.branches[k].head_seq == t.active_head_seq
    }
}

/// The event names the branch.
pub open spec fn names_branch(event: SessionEvent, id: u128) -> bool {
    match event {
        SessionEvent::BranchCreated { branch_id, .. } => branch_id == id,
        SessionEvent::BranchSelected { branch_id, .. } => branch_id == id,
        SessionEvent::BranchSummary { branch_id, .. } => branch_id == id,
        _ => false,
    }
}

/// Replacing a branch by one with its identifier keeps the identifiers.
proof fn lemma_ids_kept(branches: Seq<BranchView>, k: int, b: BranchView)
    requires
        0 <= k < branches.len(),
        b.branch_id == branches[k].branch_id,
    ensures
        branch_ids(branches.update(k, b)) == branch_ids(branches),
{
    assert(branch_ids(branches.update(k, b)) =~= branch_ids(branches));
}

/// Every event keeps the branches distinct and the active one at its head, and
/// leaves alone every branch that it does not name and that the session is not
/// on.
pub proof fn other_branches_are_left_alone(t: TreeView, e: EventEnvelope)
    requires
        branches_sound(t),
        branch_step(t, e) is Ok,
    ensures
        branches_sound(branch_step(t, e)->Ok_0),
        branch_step(t, e)->Ok_0.branches.len() >= t.branches.len(),
        forall|i: int|
            0 <= i < t.branches.len() && t.active_branch_id != Some(
                (#[trigger] t.branches[i]).branch_id,
            ) && !names_branch(e.event, t.branches[i].branch_id) ==> branch_step(
                t,
                e,
            )->Ok_0.branches[i] == t.branches[i],
{
    let n = branch_step(t, e)->Ok_0;
    let ids = branch_ids(t.branches);
    if let Some(id) = t.active_branch_id {
        lemma_slot(ids, id);
        assert(ids[slot_of(ids, id)] == t.branches[slot_of(ids, id)].branch_id);
    }
    match e.event {
        SessionEvent::BranchCreated { branch_id, .. } => {
            assert(branch_ids(n.branches) =~= ids.push(branch_id));
            lemma_slot(ids, branch_id);
            lemma_slot_push(ids, branch_id, branch_id);
        },
        SessionEvent::BranchSelected { branch_id, .. } => {
            lemma_slot(ids, branch_id);
        },
        SessionEvent::BranchSummary { branch_id, .. } => {
            lemma_slot(ids, branch_id);
            let k = slot_of(ids, branch_id);
            assert(ids[k] == t.branches[k].branch_id);
            lemma_ids_kept(t.branches, k, n.branches[k]);
        },
        _ => {
            if effective_parent(e) == Some(t.active_head_seq) && t.active_branch_id is Some {
                let k = slot_of(ids, t.active_branch_id->0);
                lemma_ids_kept(t.branches, k, n.branches[k]);
            }
        },
    }
}

/// In the tree of every log the branches are distinct, and the one that the
/// session is on ends where the session stands.
pub proof fn the_branches_of_a_log_are_sound(events: Seq<EventEnvelope>)
    requires
        tree_of(events) is Ok,
    ensures
        branches_sound(tree_of(events)->Ok_0),
    decreases events.len(),
{
    if events.len() > 1 {
        let before = events.drop_last();
        the_branches_of_a_log_are_sound(before);
        let t = tree_of(before)->Ok_0;
        let grown = with_node(t, events.last(), effective_parent(events.last()));
        assert(branches_sound(grown));
        other_branches_are_left_alone(grown, events.last());
    }
}

} // verus!
