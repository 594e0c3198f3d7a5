//! What the user is asked before a tool runs.
use vstd::prelude::*;

verus! {

/// A tool call that waits for the user; `arguments` is a compact JSON text.
#[derive(Debug)]
pub struct ApprovalRequest {
    pub request_id: String,
    pub call_id: String,
    pub tool_name: String,
    pub arguments: String,
}

impl Clone for ApprovalRequest {
    fn clone(&self) -> (r: Self)
        ensures
            r == *self,
    {
        ApprovalRequest {
            request_id: self.request_id.clone(),
            call_id: self.call_id.clone(),
            tool_name: self.tool_name.clone(),
            arguments: self.arguments.clone(),
        }
    }
}

/// What the user decides; changed arguments are a compact JSON text.
#[derive(Debug, PartialEq, Eq)]
pub enum ApprovalDecision {
    Approve,
    Reject,
    Modify(String),
}

impl Clone for ApprovalDecision {
    fn clone(&self) -> (r: Self)
        ensures
            r == *self,
    {
        match self {
            ApprovalDecision::Approve => ApprovalDecision::Approve,
            ApprovalDecision::Reject => ApprovalDecision::Reject,
            ApprovalDecision::Modify(arguments) => ApprovalDecision::Modify(arguments.clone()),
        }
    }
}

/// The decision on a request that was put to the user, where `answer` is what
/// came back: nobody to ask, nobody there any more, and a cancelled turn all
/// count as a refusal.
pub fn settle(interactive: bool, answer: Option<ApprovalDecision>) -> (r: ApprovalDecision)
    ensures
        r == (if interactive && answer is Some {
            answer->0
        } else {
            ApprovalDecision::Reject
        }),
{
    if !interactive {
        return ApprovalDecision::Reject;
    }
    match answer {
        Some(decision) => decision,
        None => ApprovalDecision::Reject,
    }
}

} // verus!
