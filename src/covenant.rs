use vstd::prelude::*;

use crate::text::{trim_str, trimmed};
use crate::vote::texts;

verus! {

/// A covenant: named scopes, each with the capabilities it grants.
#[derive(Clone, Debug)]
pub struct Covenant {
    pub version: String,
    pub scopes: Vec<CovenantScope>,
}

#[derive(Clone, Debug)]
pub struct CovenantScope {
    pub name: String,
    pub capabilities: Vec<String>,
}

/// The actions a covenant can grant.
#[derive(Clone, Copy, Debug, PartialEq, Eq, Structural)]
pub enum CovenantAction {
    ProposalExecCommand,
    ProposalApplyPatch,
    InterventionExecApproval,
    InterventionPatchApproval,
    InterventionUserShell,
}

pub open spec fn capability_of(a: CovenantAction) -> Seq<char> {
    match a {
        CovenantAction::ProposalExecCommand => "proposal.exec_command"@,
        CovenantAction::ProposalApplyPatch => "proposal.apply_patch"@,
        CovenantAction::InterventionExecApproval => "intervention.exec_approval"@,
        CovenantAction::InterventionPatchApproval => "intervention.patch_approval"@,
        CovenantAction::InterventionUserShell => "intervention.user_shell"@,
    }
}

impl CovenantAction {
    /// The capability name of the action.
    pub fn as_capability(self) -> (r: &'static str)
        ensures
            r@ == capability_of(self),
    {
        match self {
            CovenantAction::ProposalExecCommand => "proposal.exec_command",
            CovenantAction::ProposalApplyPatch => "proposal.apply_patch",
            CovenantAction::InterventionExecApproval => "intervention.exec_approval",
            CovenantAction::InterventionPatchApproval => "intervention.patch_approval",
            CovenantAction::InterventionUserShell => "intervention.user_shell",
        }
    }
}

/// Whether some scope named `scope` grants `capability`.
pub open spec fn grants(scopes: Seq<CovenantScope>, scope: Seq<char>, capability: Seq<char>) -> bool {
    exists|i: int| 0 <= i < scopes.len() && (#[trigger] scopes[i]).name@ == scope && texts(scopes[i].capabilities@).contains(capability)
}

impl Covenant {
    /// Whether a scope named `scope` grants `capability`.
    pub fn allows(&self, scope: &str, capability: &str) -> (r: bool)
        ensures
            r == grants(self.scopes@, scope@, capability@),
    {
        let scope_s = scope.to_owned();
        let cap = capability.to_owned();
        let mut i: usize = 0;
        while i < self.scopes.len()
            invariant
                scope_s@ == scope@,
                cap@ == capability@,
                i <= self.scopes@.len(),
                forall|k: int| 0 <= k < i ==> !((#[trigger] self.scopes@[k]).name@ == scope@ && texts(self.scopes@[k].capabilities@).contains(capability@)),
            decreases self.scopes@.len() - i,
        {
            let entry = &self.scopes[i];
            if entry.name == scope_s && crate::compiler::contains_text(&entry.capabilities, &cap) {
                return true;
            }
            i += 1;
        }
        false
    }
}

/// Why a scope was refused.
#[derive(Clone, Debug)]
pub enum ScopeError {
    /// The scope was blank.
    Empty,
    /// The entity belongs to another scope.
    Mismatch { entity: String, expected: String, actual: String },
}

/// A scope as given, trimmed; a blank one is refused.
pub fn normalize_scope(scope: &str) -> (r: Result<String, ScopeError>)
    ensures
        trimmed(scope@).len() == 0 <==> r is Err,
        r is Err ==> r->Err_0 is Empty,
        r is Ok ==> r->Ok_0@ == trimmed(scope@),
{
    let t = trim_str(scope);
    if t.unicode_len() == 0 {
        Err(ScopeError::Empty)
    } else {
        Ok(t)
    }
}

/// Refuses an entity whose scope is not the one expected.
pub fn ensure_scope(expected: &str, actual: &str, entity: &str) -> (r: Result<(), ScopeError>)
    ensures
        r is Ok <==> expected@ == actual@,
        r is Err ==> r->Err_0 is Mismatch,
        r is Err ==> r->Err_0->entity@ == entity@ && r->Err_0->expected@ == expected@ && r->Err_0->actual@ == actual@,
{
    let e = expected.to_owned();
    let a = actual.to_owned();
    if e == a {
        Ok(())
    } else {
        Err(ScopeError::Mismatch { entity: entity.to_owned(), expected: e, actual: a })
    }
}

/// A named pattern kept in a covenant store.
#[derive(Clone, Debug)]
pub struct PatternEntry {
    pub name: String,
    pub scope: String,
    pub pattern: String,
    pub notes: Option<String>,
    pub updated_at: i64,
}

/// The position of the first entry named `name`, if any.
pub open spec fn first_named(entries: Seq<PatternEntry>, name: Seq<char>) -> Option<int> {
    if exists|i: int| 0 <= i < entries.len() && (#[trigger] entries[i]).name@ == name {
        Some(choose|i: int| 0 <= i < entries.len() && (#[trigger] entries[i]).name@ == name && forall|j: int| 0 <= j < i ==> (#[trigger] entries[j]).name@ != name)
    } else {
        None
    }
}

/// Creates or updates the pattern named `name` in `scope`. The first entry of that name is
/// updated when it belongs to `scope` (and refused, untouched, when it does not); without
/// one, a new entry is added at the end.
pub fn upsert_pattern(
    entries: &mut Vec<PatternEntry>,
    scope: &str,
    name: &str,
    pattern: &str,
    notes: Option<String>,
    now: i64,
) -> (r: Result<(), ScopeError>)
    ensures
        ({
            let old_e = old(entries)@;
            let new_e = final(entries)@;
            match first_named(old_e, name@) {
                Some(i) => {
                    &&& (r is Ok <==> old_e[i].scope@ == scope@)
                    &&& r is Err ==> new_e == old_e
                    &&& r is Ok ==> {
                        &&& new_e.len() == old_e.len()
                        &&& forall|j: int| 0 <= j < new_e.len() && j != i ==> new_e[j] == old_e[j]
                        &&& new_e[i].name == old_e[i].name
                        &&& new_e[i].scope == old_e[i].scope
                        &&& new_e[i].pattern@ == pattern@
                        &&& new_e[i].notes == notes
                        &&& new_e[i].updated_at == now
                    }
                },
                None => {
                    &&& r is Ok
                    &&& new_e.drop_last() == old_e
                    &&& new_e.len() == old_e.len() + 1
                    &&& new_e.last().name@ == name@
                    &&& new_e.last().scope@ == scope@
                    &&& new_e.last().pattern@ == pattern@
                    &&& new_e.last().notes == notes
                    &&& new_e.last().updated_at == now
                },
            }
        }),
{
    let name_s = name.to_owned();
    let mut i: usize = 0;
    while i < entries.len()
        invariant
            name_s@ == name@,
            i <= entries@.len(),
            entries@ == old(entries)@,
            forall|j: int| 0 <= j < i ==> (#[trigger] entries@[j]).name@ != name@,
        decreases entries@.len() - i,
    {
        if entries[i].name == name_s {
            proof {
                let c = choose|c: int| 0 <= c < entries@.len() && (#[trigger] entries@[c]).name@ == name@ && forall|j: int| 0 <= j < c ==> (#[trigger] entries@[j]).name@ != name@;
                assert(0 <= i < entries@.len() && entries@[i as int].name@ == name@);
                if c < i {
                } else if c > i {
                    assert(entries@[i as int].name@ != name@);
                }
                assert(first_named(old(entries)@, name@) == Some(i as int));
            }
            let checked = ensure_scope(scope, entries[i].scope.as_str(), "pattern");
            match checked {
                Err(e) => {
                    return Err(e);
                },
                Ok(()) => {},
            }
            let ghost before = entries@;
            let old_entry = &entries[i];
            let updated = PatternEntry {
                name: old_entry.name.clone(),
                scope: old_entry.scope.clone(),
                pattern: pattern.to_owned(),
                notes,
                updated_at: now,
            };
            entries.set(i, updated);
            return Ok(());
        }
        i += 1;
    }
    assert(first_named(old(entries)@, name@) is None);
    let ghost before = entries@;
    entries.push(PatternEntry {
        name: name_s,
        scope: scope.to_owned(),
        pattern: pattern.to_owned(),
        notes,
        updated_at: now,
    });
    assert(entries@.drop_last() =~= before);
    Ok(())
}

/// The position of the first identifier equal to `id`, if any.
pub fn find_by_id(ids: &Vec<String>, id: &str) -> (r: Option<usize>)
    ensures
        r is None <==> !texts(ids@).contains(id@),
        r is Some ==> r->0 < ids@.len() && ids@[r->0 as int]@ == id@ && forall|j: int| 0 <= j < r->0 ==> (#[trigger] ids@[j])@ != id@,
{
    let id_s = id.to_owned();
    let mut i: usize = 0;
    while i < ids.len()
        invariant
            id_s@ == id@,
            i <= ids@.len(),
            forall|j: int| 0 <= j < i ==> (#[trigger] ids@[j])@ != id@,
        decreases ids@.len() - i,
    {
        if ids[i] == id_s {
            assert(texts(ids@)[i as int] == id@);
            return Some(i);
        }
        i += 1;
    }
    assert(!texts(ids@).contains(id@)) by {
        if texts(ids@).contains(id@) {
            let k = choose|k: int| 0 <= k < texts(ids@).len() && texts(ids@)[k] == id@;
            assert(ids@[k]@ == id@);
        }
    }
    None
}

} // verus!
