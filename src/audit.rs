use vstd::prelude::*;

verus! {

/// A covenant as stored: its version and its scopes written as JSON.
#[derive(Clone, Debug)]
pub struct CovenantRecord {
    pub version: String,
    pub scopes_json: String,
}

/// One audited action: when, by whom, what, in which scope and under which covenant version.
#[derive(Clone, Debug)]
pub struct AuditAction {
    pub created_at: i64,
    pub actor: String,
    pub action_type: String,
    pub scope: String,
    pub covenant_version: String,
    pub event_id: Option<String>,
    pub intent_id: Option<String>,
}

} // verus!
