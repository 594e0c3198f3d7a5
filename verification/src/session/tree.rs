//! The session tree: every event's parent, the named branches, and the path
//! from the first event to where the session stands.
use crate::error::{fail, fail_about, fail_with, Error};
use crate::seqs::{lemma_slot, lemma_slot_is, slot_of};
use crate::session::event::{event_name, event_type, EventEnvelope, SessionEvent};
use crate::session::model::{
    BranchView, NodeView, SessionBranch, SessionTree, SessionTreeNode, TreeView,
};
use crate::text::{blank, decimal, decimal_of, is_blank, same};
use vstd::prelude::*;

verus! {

/// The sequence numbers of the nodes.
pub open spec fn node_seqs(nodes: Seq<NodeView>) -> Seq<u64> {
    nodes.map_values(|n: NodeView| n.seq)
}

/// The identifiers of the branches.
pub open spec fn branch_ids(branches: Seq<BranchView>) -> Seq<u128> {
    branches.map_values(|b: BranchView| b.branch_id)
}

/// The event that an event follows: the one it names, else the one just before.
pub open spec fn effective_parent(event: EventEnvelope) -> Option<u64> {
    match event.parent_seq {
        Some(p) => Some(p),
        None => if event.seq == 0 {
            None
        } else {
            Some((event.seq - 1) as u64)
        },
    }
}

/// Every node's parent stands before it, and no sequence number comes twice.
pub open spec fn rooted(nodes: Seq<NodeView>) -> bool {
    &&& node_seqs(nodes).no_duplicates()
    &&& forall|i: int|
        0 <= i < nodes.len() ==> match (#[trigger] nodes[i]).parent_seq {
            Some(p) => slot_of(node_seqs(nodes), p) < i,
            None => true,
        }
}

/// The sequence numbers from the root to the `i`-th node.
pub open spec fn path_to(nodes: Seq<NodeView>, i: int) -> Seq<u64>
    decreases i,
{
    if 0 <= i < nodes.len() {
        match nodes[i].parent_seq {
            Some(p) => {
                let j = slot_of(node_seqs(nodes), p);
                if 0 <= j < i {
                    path_to(nodes, j).push(nodes[i].seq)
                } else {
                    seq![nodes[i].seq]
                }
            },
            None => seq![nodes[i].seq],
        }
    } else {
        Seq::empty()
    }
}

/// The sequence numbers from the root to where the session stands.
pub open spec fn active_path_of(tree: TreeView) -> Seq<u64> {
    path_to(tree.nodes, slot_of(node_seqs(tree.nodes), tree.active_head_seq))
}

/// The tree of a session that has only begun.
pub open spec fn seedling(first: EventEnvelope) -> TreeView {
    TreeView {
        nodes: seq![
            NodeView {
                seq: 1,
                parent_seq: None,
                event_type: event_name(first.event),
                turn_id: first.turn_id,
            },
        ],
        branches: Seq::empty(),
        active_branch_id: None,
        active_head_seq: 1,
    }
}

/// The branch at `k`, with a new head.
pub open spec fn head_moved(branches: Seq<BranchView>, k: int, seq: u64) -> Seq<BranchView> {
    branches.update(k, BranchView { head_seq: seq, ..branches[k] })
}

/// What an event does to the branches and to where the session stands.
pub open spec fn branch_step(t: TreeView, e: EventEnvelope) -> Result<TreeView, Seq<char>> {
    match e.event {
        SessionEvent::BranchCreated { branch_id, name, from_seq } => {
            if blank(name@) {
                Err("branch name cannot be empty"@)
            } else if !node_seqs(t.nodes).contains(from_seq) {
                Err("branch source does not exist"@)
            } else if branch_ids(t.branches).contains(branch_id) {
                Err("branch already exists"@)
            } else {
                Ok(
                    TreeView {
                        branches: t.branches.push(
                            BranchView {
                                branch_id,
                                name: name@,
                                from_seq,
                                head_seq: e.seq,
                                created_seq: e.seq,
                                summary: None,
                                summary_model: None,
                            },
                        ),
                        active_branch_id: Some(branch_id),
                        active_head_seq: e.seq,
                        ..t
                    },
                )
            }
        },
        SessionEvent::BranchSelected { branch_id, head_seq } => {
            let k = slot_of(branch_ids(t.branches), branch_id);
            if k == t.branches.len() {
                Err("selected branch does not exist"@)
            } else if t.branches[k].head_seq != head_seq {
                Err("selected branch head is stale"@)
            } else {
                Ok(TreeView { active_branch_id: Some(branch_id), active_head_seq: head_seq, ..t })
            }
        },
        SessionEvent::BranchSummary { branch_id, from_seq, summary, summary_model } => {
            let k = slot_of(branch_ids(t.branches), branch_id);
            if blank(summary@) {
                Err("branch summary cannot be empty"@)
            } else if k == t.branches.len() {
                Err("branch summary references unknown branch"@)
            } else if t.branches[k].from_seq > from_seq {
                Err("branch summary source is before branch origin"@)
            } else {
                Ok(
                    TreeView {
                        branches: t.branches.update(
                            k,
                            BranchView {
                                summary: Some(summary@),
                                summary_model: Some(summary_model@),
                                head_seq: e.seq,
                                ..t.branches[k]
                            },
                        ),
                        active_head_seq: if t.active_branch_id == Some(branch_id) {
                            e.seq
                        } else {
                            t.active_head_seq
                        },
                        ..t
                    },
                )
            }
        },
        _ => {
            if effective_parent(e) == Some(t.active_head_seq) {
                Ok(
                    TreeView {
                        branches: match t.active_branch_id {
                            Some(id) => {
                                let k = slot_of(branch_ids(t.branches), id);
                                if k < t.branches.len() {
                                    head_moved(t.branches, k, e.seq)
                                } else {
                                    t.branches
                                }
                            },
                            None => t.branches,
                        },
                        active_head_seq: e.seq,
                        ..t
                    },
                )
            } else {
                Ok(t)
            }
        },
    }
}

/// The tree with one more node, before the event has any other effect.
pub open spec fn with_node(t: TreeView, e: EventEnvelope, parent: Option<u64>) -> TreeView {
    TreeView {
        nodes: t.nodes.push(
            NodeView {
                seq: e.seq,
                parent_seq: parent,
                event_type: event_name(e.event),
                turn_id: e.turn_id,
            },
        ),
        ..t
    }
}

/// The refusal of an event whose parent is not in the tree.
pub open spec fn unknown_parent(seq: u64, parent: u64) -> Seq<char> {
    "event "@ + decimal(seq as nat) + " references unknown parent "@ + decimal(parent as nat)
}

/// The tree after one more event of a log that is read back.
pub open spec fn replay_step(t: TreeView, e: EventEnvelope) -> Result<TreeView, Seq<char>> {
    let seqs = node_seqs(t.nodes);
    if seqs.contains(e.seq) {
        Err("duplicate session sequence "@ + decimal(e.seq as nat))
    } else {
        match effective_parent(e) {
            Some(p) if !seqs.contains(p) => Err(unknown_parent(e.seq, p)),
            parent => branch_step(with_node(t, e, parent), e),
        }
    }
}

/// The tree of a whole log: that of its first event, grown by each next one.
/// The first refusal is the outcome.
pub open spec fn tree_of(events: Seq<EventEnvelope>) -> Result<TreeView, Seq<char>>
    decreases events.len(),
{
    if events.len() == 0 {
        Err("session log is empty"@)
    } else if events.len() == 1 {
        if events[0].seq == 1 {
            Ok(seedling(events[0]))
        } else {
            Err("session tree must start at sequence 1"@)
        }
    } else {
        match tree_of(events.drop_last()) {
            Ok(t) => replay_step(t, events.last()),
            Err(m) => Err(m),
        }
    }
}

/// The tree after an event is added at its end.
pub open spec fn add_step(t: TreeView, e: EventEnvelope) -> Result<TreeView, Seq<char>> {
    let seqs = node_seqs(t.nodes);
    if seqs.contains(e.seq) {
        Err("duplicate session tree sequence "@ + decimal(e.seq as nat))
    } else {
        match e.parent_seq {
            Some(p) if !seqs.contains(p) => Err(unknown_parent(e.seq, p)),
            parent => branch_step(with_node(t, e, parent), e),
        }
    }
}

/// The position of the last completed turn on a path, counted from its front,
/// or -1.
pub open spec fn last_boundary(nodes: Seq<NodeView>, path: Seq<u64>) -> int
    decreases path.len(),
{
    if path.len() == 0 {
        -1
    } else if is_boundary(nodes, path.last()) {
        path.len() - 1
    } else {
        last_boundary(nodes, path.drop_last())
    }
}

/// A completed turn ends at `seq`.
pub open spec fn is_boundary(nodes: Seq<NodeView>, seq: u64) -> bool {
    exists|i: int|
        0 <= i < nodes.len() && (#[trigger] nodes[i]).seq == seq && nodes[i].event_type
            == "turn_completed"@
}

/// The end of a completed turn: the one named, which must be one, or the latest
/// on the path to where the session stands.
pub open spec fn boundary_of(t: TreeView, seq: Option<u64>) -> Result<u64, Seq<char>> {
    match seq {
        Some(target) => if is_boundary(t.nodes, target) {
            Ok(target)
        } else {
            Err("branch source must be a completed turn boundary"@)
        },
        None => {
            let path = active_path_of(t);
            let k = last_boundary(t.nodes, path);
            if k >= 0 {
                Ok(path[k])
            } else {
                Err("session has no completed turn boundary"@)
            }
        },
    }
}

fn parent_of(event: &EventEnvelope) -> (r: Option<u64>)
    ensures
        r == effective_parent(*event),
{
    match event.parent_seq {
        Some(p) => Some(p),
        None => if event.seq == 0 {
            None
        } else {
            Some(event.seq - 1)
        },
    }
}

fn unknown_parent_error(seq: u64, parent: u64) -> (r: Error)
    ensures
        r@ == unknown_parent(seq, parent),
{
    let mut text = decimal_of(seq);
    text.append(" references unknown parent ");
    let out = fail_about("event ", text.as_str(), decimal_of(parent).as_str());
    assert(out@ =~= unknown_parent(seq, parent));
    out
}

impl SessionTree {
    /// The position of the node with a sequence number.
    fn find_node(&self, seq: u64) -> (r: Option<usize>)
        ensures
            match r {
                Some(i) => i < self.nodes.len() && slot_of(node_seqs(self@.nodes), seq) == i,
                None => slot_of(node_seqs(self@.nodes), seq) == self.nodes.len()
                    && !node_seqs(self@.nodes).contains(seq),
            },
            r is Some <==> node_seqs(self@.nodes).contains(seq),
    {
        let ghost seqs = node_seqs(self@.nodes);
        let mut i: usize = 0;
        while i < self.nodes.len()
            invariant
                i <= self.nodes.len(),
                seqs == node_seqs(self@.nodes),
                forall|j: int| 0 <= j < i ==> seqs[j] != seq,
            decreases self.nodes.len() - i,
        {
            assert(seqs[i as int] == self.nodes@[i as int].seq);
            if self.nodes[i].seq == seq {
                proof {
                    lemma_slot_is(seqs, seq, i as int);
                    lemma_slot(seqs, seq);
                }
                return Some(i);
            }
            i += 1;
        }
        proof {
            lemma_slot_is(seqs, seq, i as int);
            lemma_slot(seqs, seq);
        }
        None
    }

    /// The position of the branch with an identifier.
    fn find_branch(&self, branch_id: u128) -> (r: Option<usize>)
        ensures
            match r {
                Some(i) => i < self.branches.len() && slot_of(
                    branch_ids(self@.branches),
                    branch_id,
                ) == i,
                None => slot_of(branch_ids(self@.branches), branch_id) == self.branches.len(),
            },
            r is Some <==> branch_ids(self@.branches).contains(branch_id),
    {
        let ghost ids = branch_ids(self@.branches);
        let mut i: usize = 0;
        while i < self.branches.len()
            invariant
                i <= self.branches.len(),
                ids == branch_ids(self@.branches),
                forall|j: int| 0 <= j < i ==> ids[j] != branch_id,
            decreases self.branches.len() - i,
        {
            assert(ids[i as int] == self.branches@[i as int].branch_id);
            if self.branches[i].branch_id == branch_id {
                proof {
                    lemma_slot_is(ids, branch_id, i as int);
                    lemma_slot(ids, branch_id);
                }
                return Some(i);
            }
            i += 1;
        }
        proof {
            lemma_slot_is(ids, branch_id, i as int);
            lemma_slot(ids, branch_id);
        }
        None
    }

    /// The branch with an identifier.
    pub fn branch(&self, branch_id: u128) -> (r: Option<&SessionBranch>)
        ensures
            match r {
                Some(b) => {
                    let k = slot_of(branch_ids(self@.branches), branch_id);
                    k < self@.branches.len() && b@ == self@.branches[k]
                },
                None => !branch_ids(self@.branches).contains(branch_id),
            },
            r is Some <==> branch_ids(self@.branches).contains(branch_id),
    {
        match self.find_branch(branch_id) {
            Some(i) => Some(&self.branches[i]),
            None => None,
        }
    }

    /// The tree of a log's first event.
    pub fn seed(first: &EventEnvelope) -> (r: Self)
        ensures
            r@ == seedling(*first),
            rooted(r@.nodes),
    {
        let node = SessionTreeNode {
            seq: 1,
            parent_seq: None,
            event_type: event_type(&first.event),
            turn_id: first.turn_id,
        };
        let mut nodes: Vec<SessionTreeNode> = Vec::new();
        nodes.push(node);
        let out = SessionTree {
            nodes,
            branches: Vec::new(),
            active_branch_id: None,
            active_head_seq: 1,
        };
        assert(out@ =~= seedling(*first));
        out
    }

    /// The tree of a log.
    pub fn replay(events: &[EventEnvelope]) -> (r: Result<Self, Error>)
        ensures
            match tree_of(events@) {
                Ok(t) => r matches Ok(tree) && tree@ == t && rooted(t.nodes),
                Err(m) => r matches Err(e) && e@ == m,
            },
    {
        if events.len() == 0 {
            return Err(fail("session log is empty"));
        }
        if events[0].seq != 1 {
            proof {
                lemma_bad_start(events@);
            }
            return Err(fail("session tree must start at sequence 1"));
        }
        let mut tree = Self::seed(&events[0]);
        let mut i: usize = 1;
        assert(events@.take(1) =~= seq![events@[0]]);
        while i < events.len()
            invariant
                1 <= i <= events.len(),
                tree_of(events@.take(i as int)) == Ok::<TreeView, Seq<char>>(tree@),
                rooted(tree@.nodes),
            decreases events.len() - i,
        {
            let event = &events[i];
            proof {
                let now = events@.take(i + 1);
                assert(now.drop_last() =~= events@.take(i as int));
                assert(now.last() == *event);
            }
            let outcome = tree.replay_one(event);
            match outcome {
                Ok(()) => {},
                Err(e) => {
                    proof {
                        lemma_refusal_stands(events@, i + 1);
                    }
                    return Err(e);
                },
            }
            i += 1;
        }
        assert(events@.take(i as int) =~= events@);
        Ok(tree)
    }

    /// Grows the tree by one event of a log that is read back. A refused event
    /// leaves it as it was.
    fn replay_one(&mut self, event: &EventEnvelope) -> (r: Result<(), Error>)
        requires
            rooted(old(self)@.nodes),
        ensures
            match replay_step(old(self)@, *event) {
                Ok(t) => r is Ok && final(self)@ == t,
                Err(m) => r matches Err(e) && e@ == m && final(self)@ == old(self)@,
            },
            rooted(final(self)@.nodes),
    {
        if self.find_node(event.seq).is_some() {
            return Err(fail_with("duplicate session sequence ", decimal_of(event.seq).as_str()));
        }
        let parent = parent_of(event);
        if let Some(p) = parent {
            if self.find_node(p).is_none() {
                return Err(unknown_parent_error(event.seq, p));
            }
        }
        self.push_and_step(event, parent)
    }

    /// Adds a node, and lets the event act on the branches.
    fn push_and_step(&mut self, event: &EventEnvelope, parent: Option<u64>) -> (r: Result<
        (),
        Error,
    >)
        requires
            rooted(old(self)@.nodes),
            !node_seqs(old(self)@.nodes).contains(event.seq),
            parent matches Some(p) ==> node_seqs(old(self)@.nodes).contains(p),
        ensures
            match branch_step(with_node(old(self)@, *event, parent), *event) {
                Ok(t) => r is Ok && final(self)@ == t,
                Err(m) => r matches Err(e) && e@ == m && final(self)@ == old(self)@,
            },
            rooted(final(self)@.nodes),
    {
        let ghost before = self@;
        let node = SessionTreeNode {
            seq: event.seq,
            parent_seq: parent,
            event_type: event_type(&event.event),
            turn_id: event.turn_id,
        };
        self.nodes.push(node);
        assert(self@ =~= with_node(before, *event, parent));
        proof {
            lemma_rooted_push(before.nodes, node@);
        }
        match self.apply_branch_event(event) {
            Ok(()) => Ok(()),
            Err(e) => {
                self.nodes.pop();
                assert(self@.nodes =~= before.nodes);
                assert(self@ =~= before);
                Err(e)
            },
        }
    }

    /// Lets an event act on the branches and on where the session stands. A
    /// refused event changes nothing.
    pub fn apply_branch_event(&mut self, event: &EventEnvelope) -> (r: Result<(), Error>)
        ensures
            match branch_step(old(self)@, *event) {
                Ok(t) => r is Ok && final(self)@ == t,
                Err(m) => r matches Err(e) && e@ == m && final(self)@ == old(self)@,
            },
            final(self)@.nodes == old(self)@.nodes,
            final(self).nodes == old(self).nodes,
    {
        let ghost before = self@;
        match &event.event {
            SessionEvent::BranchCreated { branch_id, name, from_seq } => {
                if is_blank(name.as_str()) {
                    return Err(fail("branch name cannot be empty"));
                }
                if self.find_node(*from_seq).is_none() {
                    return Err(fail("branch source does not exist"));
                }
                if self.find_branch(*branch_id).is_some() {
                    return Err(fail("branch already exists"));
                }
                let branch = SessionBranch {
                    branch_id: *branch_id,
                    name: name.clone(),
                    from_seq: *from_seq,
                    head_seq: event.seq,
                    created_seq: event.seq,
                    summary: None,
                    summary_model: None,
                };
                self.branches.push(branch);
                self.active_branch_id = Some(*branch_id);
                self.active_head_seq = event.seq;
                assert(self@.branches =~= before.branches.push(branch@));
            },
            SessionEvent::BranchSelected { branch_id, head_seq } => {
                match self.find_branch(*branch_id) {
                    None => {
                        return Err(fail("selected branch does not exist"));
                    },
                    Some(k) => {
                        if self.branches[k].head_seq != *head_seq {
                            return Err(fail("selected branch head is stale"));
                        }
                    },
                }
                self.active_branch_id = Some(*branch_id);
                self.active_head_seq = *head_seq;
            },
            SessionEvent::BranchSummary { branch_id, from_seq, summary, summary_model } => {
                if is_blank(summary.as_str()) {
                    return Err(fail("branch summary cannot be empty"));
                }
                match self.find_branch(*branch_id) {
                    None => {
                        return Err(fail("branch summary references unknown branch"));
                    },
                    Some(k) => {
                        if self.branches[k].from_seq > *from_seq {
                            return Err(fail("branch summary source is before branch origin"));
                        }
                        let mut branch = self.branches[k].clone();
                        branch.summary = Some(summary.clone());
                        branch.summary_model = Some(summary_model.clone());
                        branch.head_seq = event.seq;
                        self.branches.set(k, branch);
                        assert(self@.branches =~= before.branches.update(k as int, branch@));
                    },
                }
                let on_it = match self.active_branch_id {
                    Some(active) => active == *branch_id,
                    None => false,
                };
                if on_it {
                    self.active_head_seq = event.seq;
                }
            },
            _ => {
                let follows = match parent_of(event) {
                    Some(p) => p == self.active_head_seq,
                    None => false,
                };
                if follows {
                    self.active_head_seq = event.seq;
                    if let Some(id) = self.active_branch_id {
                        if let Some(k) = self.find_branch(id) {
                            let mut branch = self.branches[k].clone();
                            branch.head_seq = event.seq;
                            self.branches.set(k, branch);
                            assert(self@.branches =~= before.branches.update(k as int, branch@));
                        }
                    }
                }
            },
        }
        assert(self@.nodes =~= before.nodes);
        Ok(())
    }

    /// Adds an event at the end of the tree. A refused event leaves it as it
    /// was.
    pub fn add_node(&mut self, event: &EventEnvelope) -> (r: Result<(), Error>)
        requires
            rooted(old(self)@.nodes),
        ensures
            match add_step(old(self)@, *event) {
                Ok(t) => r is Ok && final(self)@ == t,
                Err(m) => r matches Err(e) && e@ == m && final(self)@ == old(self)@,
            },
            rooted(final(self)@.nodes),
    {
        if self.find_node(event.seq).is_some() {
            return Err(
                fail_with("duplicate session tree sequence ", decimal_of(event.seq).as_str()),
            );
        }
        if let Some(p) = event.parent_seq {
            if self.find_node(p).is_none() {
                return Err(unknown_parent_error(event.seq, p));
            }
        }
        self.push_and_step(event, event.parent_seq)
    }

    /// The sequence numbers from the root to where the session stands.
    pub fn active_path(&self) -> (r: Vec<u64>)
        requires
            rooted(self@.nodes),
        ensures
            r@ == active_path_of(self@),
    {
        match self.find_node(self.active_head_seq) {
            Some(i) => self.path(i),
            None => Vec::new(),
        }
    }

    fn path(&self, i: usize) -> (r: Vec<u64>)
        requires
            rooted(self@.nodes),
            i < self.nodes.len(),
        ensures
            r@ == path_to(self@.nodes, i as int),
        decreases i,
    {
        let ghost node = self@.nodes[i as int];
        assert(node == self.nodes@[i as int]@);
        match self.nodes[i].parent_seq {
            Some(p) => {
                match self.find_node(p) {
                    Some(j) => {
                        let mut out = self.path(j);
                        out.push(self.nodes[i].seq);
                        out
                    },
                    None => {
                        assert(false);
                        Vec::new()
                    },
                }
            },
            None => {
                let mut out: Vec<u64> = Vec::new();
                out.push(self.nodes[i].seq);
                assert(out@ =~= seq![self.nodes@[i as int].seq]);
                out
            },
        }
    }

    /// Whether a completed turn ends at `seq`.
    fn ends_turn(&self, seq: u64) -> (r: bool)
        ensures
            r == is_boundary(self@.nodes, seq),
    {
        let mut i: usize = 0;
        while i < self.nodes.len()
            invariant
                i <= self.nodes.len(),
                forall|j: int|
                    0 <= j < i ==> !((#[trigger] self@.nodes[j]).seq == seq
                        && self@.nodes[j].event_type == "turn_completed"@),
            decreases self.nodes.len() - i,
        {
            let node = &self.nodes[i];
            assert(self@.nodes[i as int] == node@);
            if node.seq == seq && same(node.event_type.as_str(), "turn_completed") {
                return true;
            }
            i += 1;
        }
        false
    }

    /// The end of a completed turn: the one named, which must be one, or the
    /// latest on the path to where the session stands.
    pub fn completed_turn_boundary(&self, seq: Option<u64>) -> (r: Result<u64, Error>)
        requires
            rooted(self@.nodes),
        ensures
            match boundary_of(self@, seq) {
                Ok(found) => r == Ok::<u64, Error>(found),
                Err(m) => r matches Err(e) && e@ == m,
            },
    {
        if let Some(target) = seq {
            return if self.ends_turn(target) {
                Ok(target)
            } else {
                Err(fail("branch source must be a completed turn boundary"))
            };
        }
        let path = self.active_path();
        let mut k: usize = path.len();
        assert(path@.take(k as int) =~= path@);
        while k > 0
            invariant
                k <= path.len(),
                last_boundary(self@.nodes, path@) == last_boundary(
                    self@.nodes,
                    path@.take(k as int),
                ),
                path@ == active_path_of(self@),
                seq is None,
            decreases k,
        {
            proof {
                assert(path@.take(k as int).drop_last() =~= path@.take(k - 1));
                assert(path@.take(k as int).last() == path@[k - 1]);
            }
            if self.ends_turn(path[k - 1]) {
                return Ok(path[k - 1]);
            }
            k -= 1;
        }
        Err(fail("session has no completed turn boundary"))
    }
}

proof fn lemma_bad_start(events: Seq<EventEnvelope>)
    requires
        events.len() > 0,
        events[0].seq != 1,
    ensures
        tree_of(events) == Err::<TreeView, Seq<char>>("session tree must start at sequence 1"@),
    decreases events.len(),
{
    if events.len() > 1 {
        lemma_bad_start(events.drop_last());
    }
}

/// Once a prefix of the log is refused, the whole log is refused for the same
/// reason.
pub proof fn lemma_refusal_stands(events: Seq<EventEnvelope>, k: int)
    requires
        0 < k <= events.len(),
        tree_of(events.take(k)) is Err,
    ensures
        tree_of(events) == tree_of(events.take(k)),
    decreases events.len(),
{
    if k < events.len() {
        let shorter = events.drop_last();
        assert(shorter.take(k) =~= events.take(k));
        lemma_refusal_stands(shorter, k);
    } else {
        assert(events.take(k) =~= events);
    }
}

proof fn lemma_rooted_push(nodes: Seq<NodeView>, node: NodeView)
    requires
        rooted(nodes),
        !node_seqs(nodes).contains(node.seq),
        node.parent_seq matches Some(p) ==> node_seqs(nodes).contains(p),
    ensures
        rooted(nodes.push(node)),
{
    let seqs = node_seqs(nodes);
    let next = nodes.push(node);
    assert(node_seqs(next) =~= seqs.push(node.seq));
    assert forall|i: int| 0 <= i < next.len() implies match (#[trigger] next[i]).parent_seq {
        Some(p) => slot_of(node_seqs(next), p) < i,
        None => true,
    } by {
        if let Some(p) = next[i].parent_seq {
            lemma_slot(seqs, p);
            crate::seqs::lemma_slot_push(seqs, node.seq, p);
            if i < nodes.len() {
                assert(next[i] == nodes[i]);
            }
        }
    }
}

} // verus!
