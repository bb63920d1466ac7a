use vstd::prelude::*;

verus! {

/// The file names the compile command falls back to under the home directory.
pub const DEFAULT_EVENTS_FILE: &'static str = "resolved_events.jsonl";
pub const DEFAULT_PATTERNS_FILE: &'static str = "patterns.jsonl";
pub const DEFAULT_AUDIT_FILE: &'static str = "audit.jsonl";

/// Arguments of the compile command: the events to read, the pattern store to extend and the
/// audit log to append to; each falls back to a file under the home directory.
#[derive(Clone, Debug)]
pub struct CompileCommand {
    pub events: Option<String>,
    pub patterns: Option<String>,
    pub audit: Option<String>,
}

/// Arguments of the match command: the stored patterns, the event to match and how many
/// matches to print.
#[derive(Clone, Debug)]
pub struct PatternsMatchCommand {
    pub patterns: String,
    pub event: String,
    pub limit: usize,
}

} // verus!
