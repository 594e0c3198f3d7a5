use noya::ids::SessionId;
use noya::session::branches::{
    create_branch, create_branch_as, read_request, render_tree, resolve_branch, select_branch,
    BranchRequest,
};
use noya::session::durable::Session;
use noya::session::event::{EventEnvelope, SessionEvent};
use noya::session::manager::SessionManager;
use noya::session::model::{AssistantRecord, CreateSession, SessionTree};

trait Written {
    fn take_unsaved(&mut self) -> Vec<EventEnvelope>;
}

impl Written for Session {
    fn take_unsaved(&mut self) -> Vec<EventEnvelope> {
        let mut events = Vec::new();
        while let Some(event) = self.take_next() {
            self.confirm();
            events.push(event);
        }
        events
    }
}

const ID: u128 = 0x0123_4567_89ab_cdef_0123_4567_89ab_cdef;

fn exchange(session: &mut Session, index: usize) {
    let turn = session.begin_turn(format!("question {index}")).unwrap();
    session
        .record_assistant(AssistantRecord {
            message_id: index as u128,
            content: format!("answer {index}"),
            reasoning_content: None,
            tool_calls: Vec::new(),
        })
        .unwrap();
    session.finish_turn(&turn).unwrap();
}

fn log(turns: usize) -> (SessionId, Vec<EventEnvelope>) {
    let mut session = SessionManager::at("/data".to_string())
        .create(CreateSession {
            workspace: "/repo".to_string(),
            model: "qwen".to_string(),
            model_id: "qwen3-coder-plus".to_string(),
        })
        .unwrap();
    for index in 0..turns {
        exchange(&mut session, index);
    }
    (*session.id(), session.take_unsaved())
}

fn sent(id: SessionId, events: &[EventEnvelope]) -> Vec<String> {
    Session::open(id, events, None)
        .unwrap()
        .context()
        .messages
        .into_iter()
        .map(|message| message.content)
        .collect()
}

fn go_on(id: SessionId, events: &mut Vec<EventEnvelope>, index: usize) {
    let mut session = Session::open(id, events, None).unwrap();
    exchange(&mut session, index);
    events.extend(session.take_unsaved());
}

#[test]
fn a_branch_goes_back_to_its_turn() {
    let (id, mut events) = log(3);
    let event = create_branch_as(&events, ID, " try ", Some(8)).unwrap();
    assert_eq!(event.seq, 12);
    assert_eq!(event.parent_seq, Some(8));
    assert!(matches!(
        &event.event,
        SessionEvent::BranchCreated { branch_id: ID, name, from_seq: 8 } if name == "try"
    ));
    events.push(event);
    assert_eq!(
        sent(id, &events),
        ["question 0", "answer 0", "question 1", "answer 1"]
    );
    go_on(id, &mut events, 7);
    assert_eq!(sent(id, &events)[4..], ["question 7", "answer 7"]);
    let tree = SessionTree::replay(&events).unwrap();
    assert_eq!(tree.active_path(), [1, 2, 3, 4, 5, 6, 7, 8, 12, 13, 14, 15]);
    assert_eq!(tree.branch(ID).unwrap().head_seq, 15);
}

#[test]
fn a_branch_is_continued() {
    let (id, mut events) = log(3);
    events.push(create_branch_as(&events, ID, "try", Some(8)).unwrap());
    go_on(id, &mut events, 7);
    events.push(create_branch_as(&events, 10, "other", Some(11)).unwrap());
    assert_eq!(sent(id, &events).len(), 6);

    let notes = Some("it works".to_string());
    let added = select_branch(&events, ID, notes, "qwen".to_string()).unwrap();
    assert_eq!(added.len(), 2);
    assert_eq!(added[1].parent_seq, Some(15));
    events.extend(added);
    let context = sent(id, &events);
    assert_eq!(context[5], "answer 7");
    assert_eq!(context[6], "Summary from another branch:\nit works");

    let added = select_branch(&events, 10, None, "qwen".to_string()).unwrap();
    assert_eq!(added.len(), 1);
    events.extend(added);
    assert_eq!(sent(id, &events)[5], "answer 2");
    let before = events.len();
    go_on(id, &mut events, 8);
    assert_eq!(events[before].parent_seq, Some(16));
    assert_eq!(events[before + 1].parent_seq, None);
    assert_eq!(sent(id, &events)[6..], ["question 8", "answer 8"]);
}

#[test]
fn a_branch_needs_a_name_and_a_turn() {
    let (_, events) = log(1);
    let refused = |name: &str, from| create_branch(&events, name, from).unwrap_err().message;
    assert_eq!(refused(" ", None), "branch name cannot be empty");
    assert_eq!(
        refused("try", Some(4)),
        "branch source must be a completed turn boundary"
    );
    let (_, bare) = log(0);
    assert_eq!(
        create_branch(&bare, "try", None).unwrap_err().message,
        "session has no completed turn boundary"
    );
    assert!(create_branch(&[], "try", None).is_err());
    assert_eq!(create_branch(&events, "try", None).unwrap().parent_seq, Some(5));
}

#[test]
fn branches_do_not_change_during_a_turn() {
    let (id, mut events) = log(1);
    let mut session = Session::open(id, &events, None).unwrap();
    session.begin_turn("wait".to_string()).unwrap();
    events.extend(session.take_unsaved());
    let busy = "cannot change branches during an active turn";
    assert_eq!(create_branch(&events, "try", None).unwrap_err().message, busy);
    assert_eq!(
        select_branch(&events, ID, None, String::new()).unwrap_err().message,
        busy
    );
}

#[test]
fn a_branch_is_not_made_twice() {
    let (_, mut events) = log(1);
    events.push(create_branch_as(&events, ID, "try", None).unwrap());
    assert_eq!(
        create_branch_as(&events, ID, "try", None).unwrap_err().message,
        "branch already exists"
    );
    let selected = |id, notes: Option<&str>| {
        select_branch(&events, id, notes.map(str::to_string), String::new())
    };
    assert_eq!(
        selected(7, None).unwrap_err().message,
        "selected branch does not exist"
    );
    assert_eq!(
        selected(ID, Some(" ")).unwrap_err().message,
        "branch summary cannot be empty"
    );
    assert_eq!(selected(ID, None).unwrap().len(), 1);
}

#[test]
fn what_is_handed_over_comes_from_behind_the_branch() {
    let (id, mut events) = log(1);
    events.push(create_branch_as(&events, 10, "first", None).unwrap());
    go_on(id, &mut events, 1);
    events.push(create_branch_as(&events, 11, "second", None).unwrap());
    go_on(id, &mut events, 2);
    events.push(create_branch_as(&events, ID, "third", None).unwrap());
    let back = select_branch(&events, 10, None, String::new()).unwrap();
    events.extend(back);
    let tree = SessionTree::replay(&events).unwrap();
    assert_eq!(tree.active_head_seq, 9);
    assert_eq!(tree.branch(ID).unwrap().from_seq, 13);
    assert_eq!(
        select_branch(&events, ID, Some("notes".to_string()), String::new())
            .unwrap_err()
            .message,
        "branch summary source is before branch origin"
    );
    assert!(select_branch(&events, ID, None, String::new()).is_ok());
}

#[test]
fn branch_commands_are_read() {
    assert_eq!(
        read_request(" experiment two "),
        BranchRequest::Create("experiment two".to_string())
    );
    assert_eq!(
        read_request("select 0123  handoff notes "),
        BranchRequest::Select {
            prefix: "0123".to_string(),
            summary: Some("handoff notes".to_string()),
        }
    );
    assert_eq!(
        read_request("select 0123"),
        BranchRequest::Select {
            prefix: "0123".to_string(),
            summary: None,
        }
    );
    assert_eq!(
        read_request("select"),
        BranchRequest::Create("select".to_string())
    );
}

#[test]
fn branches_are_found_and_shown() {
    let (_, mut events) = log(1);
    events.push(create_branch_as(&events, 10, "first", None).unwrap());
    events.push(create_branch_as(&events, ID, "second", None).unwrap());
    let tree = SessionTree::replay(&events).unwrap();
    assert_eq!(resolve_branch(&tree, "0123").unwrap(), ID);
    assert_eq!(
        resolve_branch(&tree, "").unwrap_err().message,
        "branch ID prefix cannot be empty"
    );
    assert_eq!(
        resolve_branch(&tree, "0").unwrap_err().message,
        "branch prefix '0' is ambiguous"
    );
    assert_eq!(
        resolve_branch(&tree, "f").unwrap_err().message,
        "no branch matches 'f'"
    );
    assert_eq!(
        render_tree(&tree),
        "Session tree: 7 events\n  \
         00000000-0000-0000-0000-00000000000a first from 5 to 6\n* \
         01234567-89ab-cdef-0123-456789abcdef second from 5 to 7"
    );
}

#[test]
fn a_node_is_added_once_behind_its_parent() {
    let (id, events) = log(1);
    let mut tree = SessionTree::replay(&events).unwrap();
    let mut event = EventEnvelope::new(id, 6, None, None, SessionEvent::SessionArchived);
    event.parent_seq = Some(9);
    assert_eq!(
        tree.add_node(&event).unwrap_err().message,
        "event 6 references unknown parent 9"
    );
    event.parent_seq = Some(5);
    tree.add_node(&event).unwrap();
    assert_eq!(tree.active_head_seq, 6);
    assert_eq!(
        tree.add_node(&event).unwrap_err().message,
        "duplicate session tree sequence 6"
    );
}

#[test]
fn branches_stay_distinct_and_keep_their_heads() {
    let (id, mut events) = log(2);
    events.push(create_branch_as(&events, 10, "first", Some(5)).unwrap());
    go_on(id, &mut events, 3);
    events.push(create_branch_as(&events, ID, "second", Some(8)).unwrap());
    let before = SessionTree::replay(&events).unwrap();
    let head = before.branch(10).unwrap().head_seq;
    go_on(id, &mut events, 4);
    let tree = SessionTree::replay(&events).unwrap();
    assert_eq!(tree.branches.len(), 2);
    assert_eq!(tree.branch(10).unwrap().head_seq, head);
    assert_eq!(tree.active_branch_id, Some(ID));
    assert_eq!(tree.branch(ID).unwrap().head_seq, tree.active_head_seq);
}
