use vstd::prelude::*;

use crate::compiler::opt_view;
use crate::stats::{clean_user_message, user_request};

verus! {

/// The settings a turn ran under.
#[derive(Clone, Debug)]
pub struct ContextSnapshot {
    pub model: String,
    pub approval_policy: String,
    pub sandbox_policy: String,
    pub personality: Option<String>,
}

pub struct ContextView {
    pub model: Seq<char>,
    pub approval_policy: Seq<char>,
    pub sandbox_policy: Seq<char>,
    pub personality: Option<Seq<char>>,
}

impl View for ContextSnapshot {
    type V = ContextView;

    open spec fn view(&self) -> ContextView {
        ContextView {
            model: self.model@,
            approval_policy: self.approval_policy@,
            sandbox_policy: self.sandbox_policy@,
            personality: opt_view(self.personality),
        }
    }
}

impl ContextSnapshot {
    pub fn copy(&self) -> (r: Self)
        ensures
            r@ == self@,
    {
        ContextSnapshot {
            model: self.model.clone(),
            approval_policy: self.approval_policy.clone(),
            sandbox_policy: self.sandbox_policy.clone(),
            personality: self.personality.clone(),
        }
    }

    pub fn same_as(&self, other: &Self) -> (r: bool)
        ensures
            r == (self@ == other@),
    {
        let p = match (&self.personality, &other.personality) {
            (Some(a), Some(b)) => *a == *b,
            (None, None) => true,
            _ => false,
        };
        self.model == other.model && self.approval_policy == other.approval_policy
            && self.sandbox_policy == other.sandbox_policy && p
    }
}

/// What one line of a session log says, as far as the statistics care.
#[derive(Clone, Debug)]
pub enum RolloutItem {
    TurnContext(ContextSnapshot),
    UserMessage(String),
    AgentMessage(String),
    /// A finished turn, with the agent's last message when the log gives it.
    TurnComplete(Option<String>),
    TurnStarted,
    /// An error, a stream error or an aborted turn.
    Failure,
    Other,
}

/// One line of a session log: its item and its time in milliseconds, when it has a readable one.
#[derive(Clone, Debug)]
pub struct RolloutRecord {
    pub timestamp_ms: Option<i64>,
    pub item: RolloutItem,
}

/// A user turn: the request, and the message it ended with.
#[derive(Clone, Debug)]
pub struct Turn {
    pub user_message: String,
    pub outcome_message: Option<String>,
    pub context: Option<ContextSnapshot>,
    pub last_agent_message: Option<String>,
}

pub struct TurnView {
    pub user_message: Seq<char>,
    pub outcome_message: Option<Seq<char>>,
    pub context: Option<ContextView>,
    pub last_agent_message: Option<Seq<char>>,
}

pub open spec fn ctx_view(c: Option<ContextSnapshot>) -> Option<ContextView> {
    match c {
        Some(s) => Some(s@),
        None => None,
    }
}

impl View for Turn {
    type V = TurnView;

    open spec fn view(&self) -> TurnView {
        TurnView {
            user_message: self.user_message@,
            outcome_message: opt_view(self.outcome_message),
            context: ctx_view(self.context),
            last_agent_message: opt_view(self.last_agent_message),
        }
    }
}

/// Where a scan of a session log stands: the turns so far, the settings in force, when the
/// last unanswered failure happened, and the recovery times measured.
pub struct ScanView {
    pub turns: Seq<TurnView>,
    pub current: Option<ContextView>,
    pub pending: Option<i64>,
    pub samples: Seq<int>,
}

/// A recovery time is measured when a failure is pending and the line has a time.
pub open spec fn recover(st: ScanView, ts: Option<i64>) -> ScanView {
    match (st.pending, ts) {
        (Some(start), Some(end)) => ScanView {
            samples: st.samples.push(end - start),
            pending: None,
            ..st
        },
        _ => st,
    }
}

/// One line of the log applied to the scan.
pub open spec fn scan_step(st: ScanView, ts: Option<i64>, item: RolloutItem, marker: Seq<char>) -> ScanView {
    match item {
        RolloutItem::TurnContext(c) => ScanView { current: Some(c@), ..st },
        RolloutItem::UserMessage(m) => {
            let req = user_request(m@, marker);
            if req.len() == 0 {
                st
            } else {
                ScanView {
                    turns: st.turns.push(
                        TurnView { user_message: req, outcome_message: None, context: st.current, last_agent_message: None },
                    ),
                    ..st
                }
            }
        },
        RolloutItem::AgentMessage(m) => if st.turns.len() > 0 {
            ScanView {
                turns: st.turns.update(st.turns.len() - 1, TurnView { last_agent_message: Some(m@), ..st.turns.last() }),
                ..st
            }
        } else {
            st
        },
        RolloutItem::TurnComplete(last) => {
            let st2 = if st.turns.len() > 0 {
                let t = st.turns.last();
                let outcome = match last {
                    Some(m) => Some(m@),
                    None => t.last_agent_message,
                };
                ScanView {
                    turns: st.turns.update(st.turns.len() - 1, TurnView { outcome_message: outcome, ..t }),
                    ..st
                }
            } else {
                st
            };
            recover(st2, ts)
        },
        RolloutItem::TurnStarted => recover(st, ts),
        RolloutItem::Failure => if st.pending is None {
            ScanView { pending: ts, ..st }
        } else {
            st
        },
        RolloutItem::Other => st,
    }
}

/// The scan of a whole log, from an empty start.
pub open spec fn scan(records: Seq<RolloutRecord>, marker: Seq<char>) -> ScanView
    decreases records.len(),
{
    if records.len() == 0 {
        ScanView { turns: seq![], current: None, pending: None, samples: seq![] }
    } else {
        let r = records.last();
        scan_step(scan(records.drop_last(), marker), r.timestamp_ms, r.item, marker)
    }
}

/// The figures of one session log.
#[derive(Clone, Debug)]
pub struct RolloutSummary {
    pub turns: Vec<Turn>,
    pub total_turns: usize,
    pub turns_with_outcome: usize,
    pub override_turns: usize,
    pub override_denominator: usize,
    pub recovery_samples_ms: Vec<i128>,
}

/// The settings of the first turn that has any.
pub open spec fn baseline(turns: Seq<TurnView>) -> Option<ContextView>
    decreases turns.len(),
{
    if turns.len() == 0 {
        None
    } else {
        match baseline(turns.drop_last()) {
            Some(b) => Some(b),
            None => turns.last().context,
        }
    }
}

/// How many turns have settings, and how many of those differ from the baseline.
pub open spec fn with_context(turns: Seq<TurnView>) -> nat
    decreases turns.len(),
{
    if turns.len() == 0 {
        0
    } else {
        with_context(turns.drop_last()) + if turns.last().context is Some { 1nat } else { 0nat }
    }
}

pub open spec fn overridden(turns: Seq<TurnView>) -> nat
    decreases turns.len(),
{
    if turns.len() == 0 {
        0
    } else {
        overridden(turns.drop_last()) + if turns.last().context is Some && baseline(turns) != turns.last().context {
            1nat
        } else {
            0nat
        }
    }
}

pub open spec fn with_outcome(turns: Seq<TurnView>) -> nat
    decreases turns.len(),
{
    if turns.len() == 0 {
        0
    } else {
        with_outcome(turns.drop_last()) + if turns.last().outcome_message is Some { 1nat } else { 0nat }
    }
}

pub open spec fn turn_views(v: Seq<Turn>) -> Seq<TurnView> {
    v.map_values(|t: Turn| t@)
}

struct Scan {
    turns: Vec<Turn>,
    current: Option<ContextSnapshot>,
    pending: Option<i64>,
    samples: Vec<i128>,
}

impl Scan {
    spec fn view_scan(&self) -> ScanView {
        ScanView {
            turns: turn_views(self.turns@),
            current: ctx_view(self.current),
            pending: self.pending,
            samples: self.samples@.map_values(|x: i128| x as int),
        }
    }

    fn recover(&mut self, ts: Option<i64>)
        ensures
            final(self).view_scan() == recover(old(self).view_scan(), ts),
    {
        match (self.pending, ts) {
            (Some(start), Some(end)) => {
                let ghost before = self.samples@;
                self.samples.push((end as i128) - (start as i128));
                self.pending = None;
                assert(self.samples@.map_values(|x: i128| x as int) =~= before.map_values(|x: i128| x as int).push(end - start));
            },
            _ => {},
        }
    }
}

/// Scans a session log: collects the user turns with the message each ended with, and the
/// time from each failure to the next turn start or completion; then counts the turns, those
/// with an outcome, those with settings and those whose settings differ from the first seen.
pub fn analyze_rollout(records: &Vec<RolloutRecord>, marker: &str) -> (r: RolloutSummary)
    ensures
        ({
            let st = scan(records@, marker@);
            &&& turn_views(r.turns@) == st.turns
            &&& r.recovery_samples_ms@.map_values(|x: i128| x as int) == st.samples
            &&& r.total_turns == st.turns.len()
            &&& r.turns_with_outcome == with_outcome(st.turns)
            &&& r.override_denominator == with_context(st.turns)
            &&& r.override_turns == overridden(st.turns)
        }),
{
    let mut s = Scan { turns: Vec::new(), current: None, pending: None, samples: Vec::new() };
    assert(s.view_scan().turns =~= Seq::<TurnView>::empty());
    assert(s.view_scan().samples =~= Seq::<int>::empty());
    let mut i: usize = 0;
    while i < records.len()
        invariant
            i <= records@.len(),
            s.view_scan() == scan(records@.take(i as int), marker@),
        decreases records@.len() - i,
    {
        let ghost st0 = s.view_scan();
        assert(records@.take(i + 1).drop_last() =~= records@.take(i as int));
        assert(records@.take(i + 1).last() == records@[i as int]);
        let rec = &records[i];
        let ts = rec.timestamp_ms;
        match &rec.item {
            RolloutItem::TurnContext(c) => {
                s.current = Some(c.copy());
            },
            RolloutItem::UserMessage(m) => {
                match clean_user_message(m.as_str(), marker) {
                    Some(req) => {
                        let ctx = match &s.current {
                            Some(c) => Some(c.copy()),
                            None => None,
                        };
                        let ghost before = s.turns@;
                        let t = Turn { user_message: req, outcome_message: None, context: ctx, last_agent_message: None };
                        s.turns.push(t);
                        assert(turn_views(s.turns@) =~= turn_views(before).push(t@));
                    },
                    None => {},
                }
            },
            RolloutItem::AgentMessage(m) => {
                if s.turns.len() > 0 {
                    let ghost before = s.turns@;
                    let mut t = s.turns.pop().unwrap();
                    t.last_agent_message = Some(m.clone());
                    let ghost tv = t@;
                    s.turns.push(t);
                    assert(turn_views(s.turns@) =~= turn_views(before).update(before.len() - 1, tv));
                }
            },
            RolloutItem::TurnComplete(last) => {
                if s.turns.len() > 0 {
                    let ghost before = s.turns@;
                    let mut t = s.turns.pop().unwrap();
                    let outcome = match last {
                        Some(m) => Some(m.clone()),
                        None => t.last_agent_message.clone(),
                    };
                    t.outcome_message = outcome;
                    let ghost tv = t@;
                    s.turns.push(t);
                    assert(turn_views(s.turns@) =~= turn_views(before).update(before.len() - 1, tv));
                }
                s.recover(ts);
            },
            RolloutItem::TurnStarted => {
                s.recover(ts);
            },
            RolloutItem::Failure => {
                if s.pending.is_none() {
                    s.pending = ts;
                }
            },
            RolloutItem::Other => {},
        }
        i += 1;
    }
    assert(records@.take(records@.len() as int) =~= records@);
    let ghost tv = turn_views(s.turns@);
    let mut total: usize = 0;
    let mut with_out: usize = 0;
    let mut denominator: usize = 0;
    let mut overrides: usize = 0;
    let mut base: Option<ContextSnapshot> = None;
    let mut k: usize = 0;
    while k < s.turns.len()
        invariant
            tv == turn_views(s.turns@),
            k <= s.turns@.len(),
            total == k,
            with_out == with_outcome(tv.take(k as int)),
            denominator == with_context(tv.take(k as int)),
            overrides == overridden(tv.take(k as int)),
            ctx_view(base) == baseline(tv.take(k as int)),
            with_out <= k,
            denominator <= k,
            overrides <= k,
        decreases s.turns@.len() - k,
    {
        let ghost p = tv.take(k as int);
        let ghost q = tv.take(k + 1);
        assert(q.drop_last() =~= p);
        assert(q.last() == s.turns@[k as int]@);
        let t = &s.turns[k];
        total += 1;
        if t.outcome_message.is_some() {
            with_out += 1;
        }
        match &t.context {
            Some(c) => {
                if base.is_none() {
                    base = Some(c.copy());
                }
                denominator += 1;
                let differs = match &base {
                    Some(b) => !b.same_as(c),
                    None => false,
                };
                if differs {
                    overrides += 1;
                }
            },
            None => {},
        }
        k += 1;
    }
    assert(tv.take(s.turns@.len() as int) =~= tv);
    RolloutSummary {
        turns: s.turns,
        total_turns: total,
        turns_with_outcome: with_out,
        override_turns: overrides,
        override_denominator: denominator,
        recovery_samples_ms: s.samples,
    }
}

} // verus!
