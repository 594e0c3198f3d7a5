//! The draft of a model's answer that outlives the program.
use crate::session::event::SCHEMA_VERSION;
use crate::session::model::{RunId, SessionId, TurnId};
use crate::text::maybe;
use vstd::prelude::*;

verus! {

/// What was saved of an answer while it was being given.
#[derive(Debug)]
pub struct ActiveDraft {
    pub schema_version: u32,
    pub session_id: SessionId,
    pub run_id: RunId,
    pub turn_id: TurnId,
    pub message_id: u128,
    pub content: String,
    pub updated_at: i128,
}

impl ActiveDraft {
    /// A draft that is saved now.
    pub fn new(
        session_id: SessionId,
        run_id: RunId,
        turn_id: TurnId,
        message_id: u128,
        content: String,
    ) -> (r: Self)
        ensures
            r == (ActiveDraft {
                schema_version: SCHEMA_VERSION,
                session_id,
                run_id,
                turn_id,
                message_id,
                content,
                updated_at: r.updated_at,
            }),
    {
        ActiveDraft {
            schema_version: SCHEMA_VERSION,
            session_id,
            run_id,
            turn_id,
            message_id,
            content,
            updated_at: crate::session::event::now(),
        }
    }
}

/// The draft is of this session and this turn, in a form that is known.
pub open spec fn belongs(draft: ActiveDraft, session_id: SessionId, turn_id: TurnId) -> bool {
    draft.schema_version == SCHEMA_VERSION && draft.session_id == session_id && draft.turn_id
        == turn_id
}

/// What a draft, if there is one, has kept of the answer of a turn.
pub fn partial_output(draft: Option<ActiveDraft>, session_id: SessionId, turn_id: TurnId) -> (r:
    Option<String>)
    ensures
        maybe(r) == (match draft {
            Some(d) => if belongs(d, session_id, turn_id) {
                Some(d.content@)
            } else {
                None
            },
            None => None,
        }),
{
    match draft {
        Some(draft) => if draft.schema_version == SCHEMA_VERSION && draft.session_id == session_id
            && draft.turn_id == turn_id {
            Some(draft.content)
        } else {
            None
        },
        None => None,
    }
}

} // verus!
