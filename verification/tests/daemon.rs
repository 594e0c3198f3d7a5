use noya::daemon::{
    describe_job, describe_job_event, greet, on_line, on_reply, on_request, reply, Attachments,
    ClientAction, DaemonPaths, DaemonRequest, Done, LineStep, Reply,
};
use noya::job::model::{JobEvent, JobStatus};

#[test]
fn paths_are_found() {
    let paths = DaemonPaths::discover(None, Some("/home/u".to_string())).unwrap();
    assert_eq!(paths.root, "/home/u/.noya");
    assert_eq!(paths.socket, "/home/u/.noya/daemon.sock");
    assert_eq!(paths.pid, "/home/u/.noya/daemon.pid");
    let given = DaemonPaths::discover(Some("/d".to_string()), None).unwrap();
    assert_eq!(given.root, "/d");
    assert_eq!(
        DaemonPaths::discover(None, None).unwrap_err().message,
        "cannot determine the user home directory"
    );
}

#[test]
fn a_client_says_hello_first() {
    assert_eq!(
        greet(DaemonRequest::Hello {
            client_id: "c".to_string()
        })
        .unwrap(),
        "c"
    );
    assert!(greet(DaemonRequest::Hello {
        client_id: " ".to_string()
    })
    .is_err());
    assert_eq!(
        greet(DaemonRequest::Stop).unwrap_err().message,
        "first daemon request must be hello"
    );
    assert!(matches!(
        on_request(DaemonRequest::Hello {
            client_id: "c".to_string()
        }),
        ClientAction::Complain { message } if message == "hello already completed"
    ));
}

#[test]
fn a_submission_is_passed_on() {
    assert!(matches!(
        on_request(DaemonRequest::Submit {
            request_id: "request".to_string(),
            source_session_id: None,
            input: "run the task".to_string(),
        }),
        ClientAction::Submit { input, source: None, .. } if input == "run the task"
    ));
    assert!(matches!(
        on_request(DaemonRequest::JobReject {
            request_id: "r".to_string(),
            job_id: 3
        }),
        ClientAction::Answer {
            job_id: 3,
            approve: false,
            ..
        }
    ));
    assert!(matches!(
        on_request(DaemonRequest::JobAttach {
            request_id: "r".to_string(),
            job_id: 3,
            cursor: None
        }),
        ClientAction::Show {
            job_id: 3,
            after: 0,
            follow: true,
            ..
        }
    ));
    assert!(matches!(
        on_request(DaemonRequest::Stop),
        ClientAction::Leave { stop: true, .. }
    ));
    assert!(matches!(
        on_request(DaemonRequest::Detach),
        ClientAction::Leave { stop: false, .. }
    ));
}

#[test]
fn replies_say_what_was_done() {
    let answer = reply(
        "r".to_string(),
        Done::Standing {
            job_id: 1,
            status: JobStatus::Cancelling,
        },
    );
    assert!(answer.ok);
    assert_eq!(answer.message, "Job is Cancelling");
    assert_eq!(
        reply("r".to_string(), Done::Submitted(0)).message,
        "Job submitted: 00000000-0000-0000-0000-000000000000"
    );
    assert_eq!(reply("r".to_string(), Done::Listed).message, "Job list sent");
}

#[test]
fn each_record_is_sent_once() {
    let mut attachments = Attachments::new();
    assert!(!attachments.on_notification(1, 1));
    attachments.attach(1, 1);
    assert!(!attachments.on_notification(1, 1));
    assert!(attachments.on_notification(1, 2));
    assert!(!attachments.on_notification(1, 2));
    assert!(!attachments.on_notification(2, 9));
    attachments.attach(1, 0);
    assert!(attachments.on_notification(1, 1));
}

#[test]
fn lines_are_commands_or_prompts() {
    assert!(matches!(on_line(" /quit \n".to_string()), LineStep::Detach));
    assert!(matches!(on_line("/detach".to_string()), LineStep::Detach));
    assert!(matches!(on_line("/status".to_string()), LineStep::List));
    assert!(matches!(on_line("  ".to_string()), LineStep::Nothing));
    assert!(matches!(on_line("go on".to_string()), LineStep::Prompt { .. }));
}

#[test]
fn a_client_waits_for_its_own_answer() {
    let answer = Reply {
        request_id: "r".to_string(),
        ok: true,
        message: "m".to_string(),
        job_id: Some(4),
    };
    assert!(on_reply(&answer, "other", None).is_none());
    assert_eq!(on_reply(&answer, "r", None).unwrap().unwrap(), Some(4));
    let refused = Reply {
        request_id: "r".to_string(),
        ok: false,
        message: "no".to_string(),
        job_id: None,
    };
    assert_eq!(
        on_reply(&refused, "r", None).unwrap().unwrap_err().message,
        "no"
    );
    let empty = Reply {
        request_id: "r".to_string(),
        ok: true,
        message: "m".to_string(),
        job_id: None,
    };
    assert_eq!(
        on_reply(&empty, "r", Some("no Job"))
            .unwrap()
            .unwrap_err()
            .message,
        "no Job"
    );
}

#[test]
fn jobs_are_described() {
    assert_eq!(
        describe_job(0, JobStatus::Queued, Some(7)),
        "Job 00000000-0000-0000-0000-000000000000 · Queued · seq 7"
    );
    assert_eq!(
        describe_job_event(
            &JobEvent::Failed {
                message: "m".to_string()
            },
            ""
        ),
        "failed: m"
    );
    assert_eq!(
        describe_job_event(
            &JobEvent::StateChanged {
                from: None,
                to: JobStatus::Running,
                reason: None
            },
            ""
        ),
        "state -> Running"
    );
}
