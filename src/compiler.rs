use vstd::prelude::*;

use crate::outcome::{Outcome, OutcomeView, outcome_label};
use crate::text::{keyword_signature, keyword_signature_of, normalize_text, normalized, select_trigger_key, trigger_key_of, trimmed};

verus! {

/// The least number of events (or of events that carry evidence) behind a pattern.
pub const MIN_EVIDENCE_COUNT: usize = 2;

/// One resolved event: what fired, what held, how it ended, what was done, and the references
/// that back it.
#[derive(Clone, Debug)]
pub struct ResolvedEvent {
    pub id: String,
    pub trigger: String,
    pub invariant: Option<String>,
    pub outcome: Outcome,
    pub response: Option<String>,
    pub evidence: Vec<String>,
}

pub struct EventView {
    pub id: Seq<char>,
    pub trigger: Seq<char>,
    pub invariant: Option<Seq<char>>,
    pub outcome: OutcomeView,
    pub response: Option<Seq<char>>,
    pub evidence: Seq<Seq<char>>,
}

pub open spec fn opt_view(o: Option<String>) -> Option<Seq<char>> {
    match o {
        Some(s) => Some(s@),
        None => None,
    }
}

impl View for ResolvedEvent {
    type V = EventView;

    open spec fn view(&self) -> EventView {
        EventView {
            id: self.id@,
            trigger: self.trigger@,
            invariant: opt_view(self.invariant),
            outcome: self.outcome@,
            response: opt_view(self.response),
            evidence: self.evidence@.map_values(|s: String| s@),
        }
    }
}

/// The key under which events cluster: the trigger's clustering text, and the normalized
/// invariant and response.
#[derive(Clone, Debug)]
pub struct PatternKey {
    pub trigger_key: String,
    pub invariant_key: Option<String>,
    pub response_key: Option<String>,
}

pub struct KeyView {
    pub trigger_key: Seq<char>,
    pub invariant_key: Option<Seq<char>>,
    pub response_key: Option<Seq<char>>,
}

impl View for PatternKey {
    type V = KeyView;

    open spec fn view(&self) -> KeyView {
        KeyView {
            trigger_key: self.trigger_key@,
            invariant_key: opt_view(self.invariant_key),
            response_key: opt_view(self.response_key),
        }
    }
}

pub open spec fn opt_normalized(o: Option<Seq<char>>) -> Option<Seq<char>> {
    match o {
        Some(s) => Some(normalized(s)),
        None => None,
    }
}

/// The clustering text of a trigger: its normalized form, or for more than six words its
/// keyword signature (unless that is empty).
pub open spec fn trigger_cluster_text(trigger: Seq<char>) -> Seq<char> {
    trigger_key_of(normalized(trigger), keyword_signature_of(normalized(trigger)))
}

/// The key of a pattern with the given trigger, invariant and response.
pub open spec fn key_of_parts(
    trigger: Seq<char>,
    inv: Option<Seq<char>>,
    response: Option<Seq<char>>,
) -> KeyView {
    KeyView {
        trigger_key: trigger_cluster_text(trigger),
        invariant_key: opt_normalized(inv),
        response_key: opt_normalized(response),
    }
}

pub open spec fn event_key(e: EventView) -> KeyView {
    key_of_parts(e.trigger, e.invariant, e.response)
}

fn normalize_opt(o: &Option<String>) -> (r: Option<String>)
    ensures
        opt_view(r) == opt_normalized(opt_view(*o)),
{
    match o {
        Some(s) => Some(normalize_text(s.as_str())),
        None => None,
    }
}

/// The clustering key of a trigger, invariant and response.
pub fn pattern_key(trigger: &str, inv: &Option<String>, response: &Option<String>) -> (r: PatternKey)
    ensures
        r@ == key_of_parts(trigger@, opt_view(*inv), opt_view(*response)),
{
    let n = normalize_text(trigger);
    let sig = keyword_signature(n.as_str());
    let trigger_key = select_trigger_key(n.as_str(), sig.as_str());
    PatternKey {
        trigger_key,
        invariant_key: normalize_opt(inv),
        response_key: normalize_opt(response),
    }
}

/// The key of an event.
pub fn event_key_of(e: &ResolvedEvent) -> (r: PatternKey)
    ensures
        r@ == event_key(e@),
{
    pattern_key(e.trigger.as_str(), &e.invariant, &e.response)
}

fn opt_eq(a: &Option<String>, b: &Option<String>) -> (r: bool)
    ensures
        r == (opt_view(*a) == opt_view(*b)),
{
    match (a, b) {
        (Some(x), Some(y)) => *x == *y,
        (None, None) => true,
        _ => false,
    }
}

impl PatternKey {
    pub fn copy(&self) -> (r: PatternKey)
        ensures
            r@ == self@,
    {
        PatternKey {
            trigger_key: self.trigger_key.clone(),
            invariant_key: self.invariant_key.clone(),
            response_key: self.response_key.clone(),
        }
    }

    pub fn same_as(&self, other: &PatternKey) -> (r: bool)
        ensures
            r == (self@ == other@),
    {
        self.trigger_key == other.trigger_key && opt_eq(&self.invariant_key, &other.invariant_key)
            && opt_eq(&self.response_key, &other.response_key)
    }
}

} // verus!

verus! {

/// The positions, in order, of the events whose key is `k`.
pub open spec fn member_indices(evs: Seq<EventView>, k: KeyView) -> Seq<int>
    decreases evs.len(),
{
    if evs.len() == 0 {
        seq![]
    } else {
        let r = member_indices(evs.drop_last(), k);
        if event_key(evs.last()) == k {
            r.push(evs.len() - 1)
        } else {
            r
        }
    }
}

/// The events whose key is `k`, in order.
pub open spec fn group_of(evs: Seq<EventView>, k: KeyView) -> Seq<EventView> {
    member_indices(evs, k).map_values(|i: int| evs[i])
}

/// The texts of `os` that are present and not blank, in order.
pub open spec fn present_texts(os: Seq<Option<Seq<char>>>) -> Seq<Seq<char>>
    decreases os.len(),
{
    if os.len() == 0 {
        seq![]
    } else {
        let r = present_texts(os.drop_last());
        match os.last() {
            Some(s) => if trimmed(s).len() > 0 {
                r.push(s)
            } else {
                r
            },
            None => r,
        }
    }
}

/// The plurality of the texts, or none when there is none.
pub open spec fn opt_plurality(s: Seq<Seq<char>>) -> Option<Seq<char>> {
    if s.len() == 0 {
        None
    } else {
        Some(crate::vote::plurality(s))
    }
}

/// The dominant outcome: the one that occurs most often, `Mixed` when two outcomes share the
/// highest count, `Unknown` for no outcomes at all.
pub open spec fn dominant_of(os: Seq<OutcomeView>) -> OutcomeView {
    if os.len() == 0 {
        OutcomeView::Unknown
    } else {
        let b = crate::vote::plurality_index(os);
        if exists|j: int|
            0 <= j < os.len() && crate::vote::count_of(os, #[trigger] os[j]) == crate::vote::count_of(
                os,
                os[b],
            ) && os[j] != os[b] {
            OutcomeView::Mixed
        } else {
            os[b]
        }
    }
}

/// The outcome the others are held against: none for `Unknown`, the first event's for `Mixed`,
/// else the dominant outcome itself.
pub open spec fn baseline_of(os: Seq<OutcomeView>, dominant: OutcomeView) -> Option<OutcomeView> {
    match dominant {
        OutcomeView::Unknown => None,
        OutcomeView::Mixed => if os.len() > 0 {
            Some(os[0])
        } else {
            None
        },
        _ => Some(dominant),
    }
}

/// `j` is the first position whose outcome differs from `base`.
pub open spec fn is_first_other(os: Seq<OutcomeView>, base: OutcomeView, j: int) -> bool {
    &&& 0 <= j < os.len()
    &&& os[j] != base
    &&& forall|i: int| 0 <= i < j ==> os[i] == base
}

/// The counterexample of a group: the first event whose outcome differs from the baseline,
/// written `"{trigger} -> {outcome}"`.
pub open spec fn counterexample_of(g: Seq<EventView>, dominant: OutcomeView) -> Option<Seq<char>> {
    let os = g.map_values(|e: EventView| e.outcome);
    match baseline_of(os, dominant) {
        None => None,
        Some(base) => if exists|j: int| is_first_other(os, base, j) {
            let j = choose|j: int| is_first_other(os, base, j);
            Some(g[j].trigger + " -> "@ + outcome_label(g[j].outcome))
        } else {
            None
        },
    }
}

/// What an event offers as evidence: its references, or its id when it has none.
pub open spec fn evidence_items(e: EventView) -> Seq<Seq<char>> {
    if e.evidence.len() == 0 {
        seq![e.id]
    } else {
        e.evidence
    }
}

pub open spec fn all_evidence(g: Seq<EventView>) -> Seq<Seq<char>>
    decreases g.len(),
{
    if g.len() == 0 {
        seq![]
    } else {
        all_evidence(g.drop_last()) + evidence_items(g.last())
    }
}

/// `s` with every repeat of an earlier entry left out.
pub open spec fn dedup(s: Seq<Seq<char>>) -> Seq<Seq<char>>
    decreases s.len(),
{
    if s.len() == 0 {
        seq![]
    } else {
        let d = dedup(s.drop_last());
        if d.contains(s.last()) {
            d
        } else {
            d.push(s.last())
        }
    }
}

/// How many events of `g` carry evidence.
pub open spec fn with_evidence(g: Seq<EventView>) -> nat
    decreases g.len(),
{
    if g.len() == 0 {
        0
    } else {
        with_evidence(g.drop_last()) + if g.last().evidence.len() > 0 {
            1nat
        } else {
            0nat
        }
    }
}

/// Which count a group must bring to `MIN_EVIDENCE_COUNT` to become a pattern.
#[derive(Clone, Copy, Debug, PartialEq, Eq, Structural)]
pub enum ClusteringPolicy {
    /// Every event counts.
    EventCount,
    /// Only events that carry evidence count.
    EvidenceCount,
}

pub open spec fn passes_gate(g: Seq<EventView>, policy: ClusteringPolicy) -> bool {
    match policy {
        ClusteringPolicy::EventCount => g.len() >= MIN_EVIDENCE_COUNT,
        ClusteringPolicy::EvidenceCount => with_evidence(g) >= MIN_EVIDENCE_COUNT,
    }
}

/// Whether compiling `evs` against the stored keys `existing` emits a pattern keyed `k`.
pub open spec fn emits(
    evs: Seq<EventView>,
    existing: Seq<KeyView>,
    policy: ClusteringPolicy,
    k: KeyView,
) -> bool {
    &&& member_indices(evs, k).len() > 0
    &&& passes_gate(group_of(evs, k), policy)
    &&& !existing.contains(k)
}

} // verus!

verus! {

use crate::vote::{texts, outcome_views, plurality_text_index, dominant_outcome};
use crate::text::{trim_str, chars_of, string_of};

pub proof fn lemma_member_indices(evs: Seq<EventView>, k: KeyView)
    ensures
        forall|t: int| 0 <= t < member_indices(evs, k).len() ==> 0 <= #[trigger] member_indices(evs, k)[t] < evs.len()
            && event_key(evs[member_indices(evs, k)[t]]) == k,
        forall|s: int, t: int| 0 <= s < t < member_indices(evs, k).len() ==> #[trigger] member_indices(evs, k)[s] < #[trigger] member_indices(evs, k)[t],
        forall|i: int| 0 <= i < evs.len() && event_key(#[trigger] evs[i]) == k ==> member_indices(evs, k).contains(i),
        member_indices(evs, k).len() <= evs.len(),
    decreases evs.len(),
{
    if evs.len() > 0 {
        let p = evs.drop_last();
        lemma_member_indices(p, k);
        let r = member_indices(p, k);
        assert forall|i: int| 0 <= i < evs.len() && event_key(#[trigger] evs[i]) == k implies member_indices(evs, k).contains(i) by {
            if i < evs.len() - 1 {
                assert(p[i] == evs[i]);
                assert(r.contains(i));
                let t = choose|t: int| 0 <= t < r.len() && r[t] == i;
                assert(member_indices(evs, k)[t] == i);
            } else {
                assert(evs.last() == evs[i]);
                assert(member_indices(evs, k)[r.len() as int] == i);
            }
        }
        assert forall|t: int| 0 <= t < member_indices(evs, k).len() implies 0 <= #[trigger] member_indices(evs, k)[t] < evs.len()
            && event_key(evs[member_indices(evs, k)[t]]) == k by {
            if t < r.len() {
                assert(member_indices(evs, k)[t] == r[t]);
                assert(p[r[t]] == evs[r[t]]);
            }
        }
    }
}

/// The members of the group keyed `k`.
pub fn group_members(keys: &Vec<PatternKey>, k: &PatternKey, Ghost(evs): Ghost<Seq<EventView>>) -> (r: Vec<usize>)
    requires
        keys@.len() == evs.len(),
        forall|i: int| 0 <= i < evs.len() ==> (#[trigger] keys@[i])@ == event_key(evs[i]),
    ensures
        r@.map_values(|i: usize| i as int) == member_indices(evs, k@),
{
    let mut r: Vec<usize> = Vec::new();
    let mut j: usize = 0;
    while j < keys.len()
        invariant
            keys@.len() == evs.len(),
            forall|i: int| 0 <= i < evs.len() ==> (#[trigger] keys@[i])@ == event_key(evs[i]),
            j <= keys@.len(),
            r@.map_values(|i: usize| i as int) == member_indices(evs.take(j as int), k@),
        decreases keys@.len() - j,
    {
        let ghost before = r@;
        assert(evs.take(j + 1).drop_last() =~= evs.take(j as int));
        assert(evs.take(j + 1).last() == evs[j as int]);
        if keys[j].same_as(k) {
            r.push(j);
            assert(r@.map_values(|i: usize| i as int) =~= before.map_values(|i: usize| i as int).push(j as int));
        }
        j += 1;
    }
    assert(evs.take(keys@.len() as int) =~= evs);
    r
}

/// A compiled pattern: the representative texts of its group, its dominant outcome and
/// counterexample, its evidence, and the positions of the events behind it.
#[derive(Clone, Debug)]
pub struct Pattern {
    pub key: PatternKey,
    pub trigger: String,
    pub invariant: Option<String>,
    pub counterexample: Option<String>,
    pub best_response: Option<String>,
    pub supporting_evidence: Vec<String>,
    pub outcome: Outcome,
    pub support_count: usize,
    pub members: Vec<usize>,
}

/// `p` is the pattern that the events `evs` keyed `k` compile into.
pub open spec fn is_pattern_of(p: Pattern, evs: Seq<EventView>, k: KeyView) -> bool {
    let g = group_of(evs, k);
    let os = g.map_values(|e: EventView| e.outcome);
    &&& p.key@ == k
    &&& p.trigger@ == crate::vote::plurality(g.map_values(|e: EventView| e.trigger))
    &&& opt_view(p.invariant) == opt_plurality(present_texts(g.map_values(|e: EventView| e.invariant)))
    &&& opt_view(p.best_response) == opt_plurality(present_texts(g.map_values(|e: EventView| e.response)))
    &&& p.outcome@ == dominant_of(os)
    &&& opt_view(p.counterexample) == counterexample_of(g, dominant_of(os))
    &&& texts(p.supporting_evidence@) == dedup(all_evidence(g))
    &&& p.support_count == g.len()
    &&& p.members@.map_values(|i: usize| i as int) == member_indices(evs, k)
}

pub open spec fn event_views(events: Seq<ResolvedEvent>) -> Seq<EventView> {
    events.map_values(|e: ResolvedEvent| e@)
}

/// The values a group votes on and the evidence it brings, gathered in member order.
struct Gathered {
    triggers: Vec<String>,
    invariants: Vec<String>,
    responses: Vec<String>,
    outcomes: Vec<Outcome>,
    evidence: Vec<String>,
    with_evidence: usize,
}

fn push_present(v: &mut Vec<String>, o: &Option<String>)
    ensures
        texts(final(v)@) == (match opt_view(*o) {
            Some(s) => if trimmed(s).len() > 0 {
                texts(old(v)@).push(s)
            } else {
                texts(old(v)@)
            },
            None => texts(old(v)@),
        }),
{
    match o {
        Some(s) => {
            let t = trim_str(s.as_str());
            if t.unicode_len() > 0 {
                let ghost before = v@;
                v.push(s.clone());
                assert(texts(v@) =~= texts(before).push(s@));
            }
        },
        None => {},
    }
}

fn push_all(v: &mut Vec<String>, items: &Vec<String>)
    ensures
        texts(final(v)@) == texts(old(v)@) + texts(items@),
{
    let ghost start = texts(v@);
    let mut i: usize = 0;
    while i < items.len()
        invariant
            i <= items@.len(),
            texts(v@) == start + texts(items@).take(i as int),
        decreases items@.len() - i,
    {
        let ghost before = v@;
        let c = items[i].clone();
        assert(c@ == texts(items@)[i as int]);
        v.push(c);
        assert(texts(v@) =~= texts(before).push(c@));
        assert(texts(items@).take(i + 1) =~= texts(items@).take(i as int).push(c@));
        assert(texts(v@) =~= start + texts(items@).take(i + 1));
        i += 1;
    }
    assert(texts(items@).take(items@.len() as int) =~= texts(items@));
}

fn gather(events: &Vec<ResolvedEvent>, members: &Vec<usize>) -> (r: Gathered)
    requires
        forall|t: int| 0 <= t < members@.len() ==> #[trigger] members@[t] < events@.len(),
    ensures
        ({
            let g = members@.map_values(|i: usize| events@[i as int]@);
            &&& texts(r.triggers@) == g.map_values(|e: EventView| e.trigger)
            &&& texts(r.invariants@) == present_texts(g.map_values(|e: EventView| e.invariant))
            &&& texts(r.responses@) == present_texts(g.map_values(|e: EventView| e.response))
            &&& outcome_views(r.outcomes@) == g.map_values(|e: EventView| e.outcome)
            &&& texts(r.evidence@) == all_evidence(g)
            &&& r.with_evidence == with_evidence(g)
        }),
{
    let ghost g = members@.map_values(|i: usize| events@[i as int]@);
    let mut out = Gathered {
        triggers: Vec::new(),
        invariants: Vec::new(),
        responses: Vec::new(),
        outcomes: Vec::new(),
        evidence: Vec::new(),
        with_evidence: 0,
    };
    let mut j: usize = 0;
    while j < members.len()
        invariant
            forall|t: int| 0 <= t < members@.len() ==> #[trigger] members@[t] < events@.len(),
            g == members@.map_values(|i: usize| events@[i as int]@),
            j <= members@.len(),
            texts(out.triggers@) == g.take(j as int).map_values(|e: EventView| e.trigger),
            texts(out.invariants@) == present_texts(g.take(j as int).map_values(|e: EventView| e.invariant)),
            texts(out.responses@) == present_texts(g.take(j as int).map_values(|e: EventView| e.response)),
            outcome_views(out.outcomes@) == g.take(j as int).map_values(|e: EventView| e.outcome),
            texts(out.evidence@) == all_evidence(g.take(j as int)),
            out.with_evidence == with_evidence(g.take(j as int)),
            out.with_evidence <= j,
        decreases members@.len() - j,
    {
        let e = &events[members[j]];
        let ghost ev = e@;
        assert(g[j as int] == ev);
        let ghost gj = g.take(j as int);
        let ghost gj1 = g.take(j + 1);
        assert(gj1 =~= gj.push(ev));
        assert(gj1.drop_last() =~= gj);
        assert(gj1.map_values(|e: EventView| e.trigger) =~= gj.map_values(|e: EventView| e.trigger).push(ev.trigger));
        assert(gj1.map_values(|e: EventView| e.invariant) =~= gj.map_values(|e: EventView| e.invariant).push(ev.invariant));
        assert(gj1.map_values(|e: EventView| e.invariant).drop_last() =~= gj.map_values(|e: EventView| e.invariant));
        assert(gj1.map_values(|e: EventView| e.response) =~= gj.map_values(|e: EventView| e.response).push(ev.response));
        assert(gj1.map_values(|e: EventView| e.response).drop_last() =~= gj.map_values(|e: EventView| e.response));
        assert(gj1.map_values(|e: EventView| e.outcome) =~= gj.map_values(|e: EventView| e.outcome).push(ev.outcome));

        let ghost t0 = out.triggers@;
        out.triggers.push(e.trigger.clone());
        assert(texts(out.triggers@) =~= texts(t0).push(ev.trigger));
        push_present(&mut out.invariants, &e.invariant);
        push_present(&mut out.responses, &e.response);
        let ghost o0 = out.outcomes@;
        out.outcomes.push(e.outcome.copy());
        assert(outcome_views(out.outcomes@) =~= outcome_views(o0).push(ev.outcome));
        if e.evidence.len() == 0 {
            let ghost e0 = out.evidence@;
            out.evidence.push(e.id.clone());
            assert(texts(out.evidence@) =~= texts(e0) + seq![ev.id]);
        } else {
            push_all(&mut out.evidence, &e.evidence);
            out.with_evidence = out.with_evidence + 1;
        }
        assert(texts(e.evidence@) == ev.evidence);
        j += 1;
    }
    assert(g.take(members@.len() as int) =~= g);
    out
}

} // verus!

verus! {

/// Whether the text `s` is among `v`.
pub fn contains_text(v: &Vec<String>, s: &String) -> (r: bool)
    ensures
        r == texts(v@).contains(s@),
{
    let mut i: usize = 0;
    while i < v.len()
        invariant
            i <= v@.len(),
            forall|k: int| 0 <= k < i ==> texts(v@)[k] != s@,
        decreases v@.len() - i,
    {
        if v[i] == *s {
            assert(texts(v@)[i as int] == s@);
            return true;
        }
        i += 1;
    }
    assert(!texts(v@).contains(s@)) by {
        if texts(v@).contains(s@) {
            let k = choose|k: int| 0 <= k < texts(v@).len() && texts(v@)[k] == s@;
        }
    }
    false
}

/// `items` without repeats, each kept where it first occurs.
pub fn dedup_texts(items: &Vec<String>) -> (r: Vec<String>)
    ensures
        texts(r@) == dedup(texts(items@)),
{
    let ghost iv = texts(items@);
    let mut out: Vec<String> = Vec::new();
    let mut i: usize = 0;
    while i < items.len()
        invariant
            iv == texts(items@),
            i <= items@.len(),
            texts(out@) == dedup(iv.take(i as int)),
        decreases items@.len() - i,
    {
        assert(iv.take(i + 1).drop_last() =~= iv.take(i as int));
        assert(iv.take(i + 1).last() == iv[i as int]);
        if !contains_text(&out, &items[i]) {
            let ghost before = out@;
            let c = items[i].clone();
            out.push(c);
            assert(texts(out@) =~= texts(before).push(c@));
        }
        i += 1;
    }
    assert(iv.take(items@.len() as int) =~= iv);
    out
}

fn push_text(out: &mut Vec<char>, s: &str)
    ensures
        final(out)@ == old(out)@ + s@,
{
    let cs = chars_of(s);
    let ghost start = out@;
    let mut i: usize = 0;
    while i < cs.len()
        invariant
            i <= cs@.len(),
            cs@ == s@,
            out@ == start + cs@.take(i as int),
        decreases cs@.len() - i,
    {
        out.push(cs[i]);
        i += 1;
        assert(out@ =~= start + cs@.take(i as int));
    }
    assert(cs@.take(cs@.len() as int) =~= cs@);
}

/// The counterexample of a group whose triggers and outcomes are given in member order.
fn select_counterexample(
    triggers: &Vec<String>,
    outcomes: &Vec<Outcome>,
    dominant: &Outcome,
    Ghost(g): Ghost<Seq<EventView>>,
) -> (r: Option<String>)
    requires
        texts(triggers@) == g.map_values(|e: EventView| e.trigger),
        outcome_views(outcomes@) == g.map_values(|e: EventView| e.outcome),
    ensures
        opt_view(r) == counterexample_of(g, dominant@),
{
    let ghost os = g.map_values(|e: EventView| e.outcome);
    let base = match dominant {
        Outcome::Unknown => {
            return None;
        },
        Outcome::Mixed => {
            if outcomes.len() == 0 {
                return None;
            }
            outcomes[0].copy()
        },
        _ => dominant.copy(),
    };
    assert(baseline_of(os, dominant@) == Some(base@));
    assert(texts(triggers@).len() == triggers@.len());
    assert(outcome_views(outcomes@).len() == outcomes@.len());
    let mut j: usize = 0;
    while j < outcomes.len()
        invariant
            os == g.map_values(|e: EventView| e.outcome),
            outcome_views(outcomes@) == os,
            texts(triggers@) == g.map_values(|e: EventView| e.trigger),
            j <= outcomes@.len(),
            triggers@.len() == outcomes@.len(),
            baseline_of(os, dominant@) == Some(base@),
            forall|i: int| 0 <= i < j ==> os[i] == base@,
        decreases outcomes@.len() - j,
    {
        if !outcomes[j].same_as(&base) {
            assert(is_first_other(os, base@, j as int));
            proof {
                let c = choose|c: int| is_first_other(os, base@, c);
                if c < j {
                    assert(os[c] == base@);
                } else if c > j {
                    assert(os[j as int] == base@);
                }
            }
            let mut text: Vec<char> = Vec::new();
            push_text(&mut text, triggers[j].as_str());
            push_text(&mut text, " -> ");
            let label = outcomes[j].label();
            push_text(&mut text, label.as_str());
            assert(texts(triggers@)[j as int] == triggers@[j as int]@);
            assert(triggers@[j as int]@ == g[j as int].trigger);
            assert(text@ =~= g[j as int].trigger + " -> "@ + crate::outcome::outcome_label(g[j as int].outcome));
            proof {
                let c = choose|c: int| is_first_other(os, base@, c);
                if c < j {
                    assert(os[c] == base@);
                } else if c > j {
                    assert(os[j as int] == base@);
                }
                assert(c == j);
                assert(counterexample_of(g, dominant@) == Some(g[j as int].trigger + " -> "@ + crate::outcome::outcome_label(g[j as int].outcome)));
            }
            return Some(string_of(&text));
        }
        j += 1;
    }
    assert(!exists|c: int| is_first_other(os, base@, c));
    None
}

/// The pattern of the group keyed `key`, whose members are `members`.
fn build_pattern(events: &Vec<ResolvedEvent>, key: PatternKey, members: Vec<usize>) -> (r: Pattern)
    requires
        members@.map_values(|i: usize| i as int) == member_indices(event_views(events@), key@),
        members@.len() > 0,
    ensures
        is_pattern_of(r, event_views(events@), key@),
{
    let ghost evs = event_views(events@);
    let ghost k = key@;
    proof {
        lemma_member_indices(evs, k);
        assert forall|t: int| 0 <= t < members@.len() implies #[trigger] members@[t] < events@.len() by {
            assert(members@.map_values(|i: usize| i as int)[t] == members@[t] as int);
        }
    }
    let ghost g = members@.map_values(|i: usize| events@[i as int]@);
    assert(g =~= group_of(evs, k)) by {
        assert forall|t: int| 0 <= t < g.len() implies g[t] == group_of(evs, k)[t] by {
            assert(members@.map_values(|i: usize| i as int)[t] == members@[t] as int);
        }
    }
    let gathered = gather(events, &members);
    assert(texts(gathered.triggers@).len() == gathered.triggers@.len());
    let ti = plurality_text_index(&gathered.triggers);
    let trigger = gathered.triggers[ti].clone();
    let inv = if gathered.invariants.len() == 0 {
        None
    } else {
        let b = plurality_text_index(&gathered.invariants);
        Some(gathered.invariants[b].clone())
    };
    let best_response = if gathered.responses.len() == 0 {
        None
    } else {
        let b = plurality_text_index(&gathered.responses);
        Some(gathered.responses[b].clone())
    };
    let outcome = dominant_outcome(&gathered.outcomes);
    let counterexample = select_counterexample(&gathered.triggers, &gathered.outcomes, &outcome, Ghost(g));
    let supporting_evidence = dedup_texts(&gathered.evidence);
    let support_count = members.len();
    Pattern {
        key,
        trigger,
        invariant: inv,
        counterexample,
        best_response,
        supporting_evidence,
        outcome,
        support_count,
        members,
    }
}

} // verus!

verus! {

pub open spec fn key_views(keys: Seq<PatternKey>) -> Seq<KeyView> {
    keys.map_values(|k: PatternKey| k@)
}

/// The position of the first event keyed `k`.
pub open spec fn first_index(evs: Seq<EventView>, k: KeyView) -> int {
    member_indices(evs, k)[0]
}

/// Compiler output order: more support first; equal support in order of first appearance.
pub open spec fn comes_before(evs: Seq<EventView>, a: Pattern, b: Pattern) -> bool {
    a.support_count > b.support_count || (a.support_count == b.support_count && first_index(
        evs,
        a.key@,
    ) < first_index(evs, b.key@))
}

/// `r` is what compiling `evs` against `existing` under `policy` gives: one pattern for each
/// key that `emits`, no other, each built as `is_pattern_of` says, in `comes_before` order.
pub open spec fn is_compilation(
    r: Seq<Pattern>,
    evs: Seq<EventView>,
    existing: Seq<KeyView>,
    policy: ClusteringPolicy,
) -> bool {
    &&& forall|t: int| 0 <= t < r.len() ==> is_pattern_of(#[trigger] r[t], evs, r[t].key@) && emits(evs, existing, policy, r[t].key@)
    &&& forall|k: KeyView| emits(evs, existing, policy, k) ==> exists|t: int| 0 <= t < r.len() && (#[trigger] r[t]).key@ == k
    &&& forall|s: int, t: int| 0 <= s < t < r.len() ==> comes_before(evs, #[trigger] r[s], #[trigger] r[t])
}

fn count_with_evidence(events: &Vec<ResolvedEvent>, members: &Vec<usize>) -> (r: usize)
    requires
        forall|t: int| 0 <= t < members@.len() ==> #[trigger] members@[t] < events@.len(),
    ensures
        r == with_evidence(members@.map_values(|i: usize| events@[i as int]@)),
{
    let ghost g = members@.map_values(|i: usize| events@[i as int]@);
    let mut c: usize = 0;
    let mut j: usize = 0;
    while j < members.len()
        invariant
            forall|t: int| 0 <= t < members@.len() ==> #[trigger] members@[t] < events@.len(),
            g == members@.map_values(|i: usize| events@[i as int]@),
            j <= members@.len(),
            c == with_evidence(g.take(j as int)),
            c <= j,
        decreases members@.len() - j,
    {
        assert(g.take(j + 1).drop_last() =~= g.take(j as int));
        assert(g.take(j + 1).last() == g[j as int]);
        assert(events@[members@[j as int] as int]@.evidence.len() == events@[members@[j as int] as int].evidence@.len());
        if events[members[j]].evidence.len() > 0 {
            c += 1;
        }
        j += 1;
    }
    assert(g.take(members@.len() as int) =~= g);
    c
}

fn contains_key(keys: &Vec<PatternKey>, k: &PatternKey) -> (r: bool)
    ensures
        r == key_views(keys@).contains(k@),
{
    let mut i: usize = 0;
    while i < keys.len()
        invariant
            i <= keys@.len(),
            forall|j: int| 0 <= j < i ==> key_views(keys@)[j] != k@,
        decreases keys@.len() - i,
    {
        if keys[i].same_as(k) {
            assert(key_views(keys@)[i as int] == k@);
            return true;
        }
        i += 1;
    }
    assert(!key_views(keys@).contains(k@)) by {
        if key_views(keys@).contains(k@) {
            let j = choose|j: int| 0 <= j < key_views(keys@).len() && key_views(keys@)[j] == k@;
        }
    }
    false
}

/// Inserts `p` into `out` after every pattern with at least its support.
fn insert_by_support(out: &mut Vec<Pattern>, p: Pattern, Ghost(evs): Ghost<Seq<EventView>>)
    requires
        forall|s: int, t: int| 0 <= s < t < old(out)@.len() ==> comes_before(evs, #[trigger] old(out)@[s], #[trigger] old(out)@[t]),
        forall|t: int| 0 <= t < old(out)@.len() && (#[trigger] old(out)@[t]).support_count >= p.support_count ==> comes_before(evs, old(out)@[t], p),
    ensures
        forall|s: int, t: int| 0 <= s < t < final(out)@.len() ==> comes_before(evs, #[trigger] final(out)@[s], #[trigger] final(out)@[t]),
        forall|x: Pattern| #[trigger] final(out)@.contains(x) <==> (old(out)@.contains(x) || x == p),
{
    let ghost before = out@;
    let ghost pv = p;
    let mut pos: usize = 0;
    while pos < out.len() && out[pos].support_count >= p.support_count
        invariant
            out@ == before,
            pos <= out@.len(),
            forall|s: int| 0 <= s < pos ==> (#[trigger] out@[s]).support_count >= p.support_count,
        decreases out@.len() - pos,
    {
        pos += 1;
    }
    out.insert(pos, p);
    assert(out@ =~= before.insert(pos as int, pv));
    assert forall|s: int, t: int| 0 <= s < t < out@.len() implies comes_before(evs, #[trigger] out@[s], #[trigger] out@[t]) by {
        if t < pos {
            assert(out@[s] == before[s] && out@[t] == before[t]);
        } else if t == pos {
            assert(out@[s] == before[s]);
        } else if s < pos {
            assert(out@[s] == before[s] && out@[t] == before[t - 1]);
        } else if s == pos {
            assert(out@[t] == before[t - 1]);
            assert(before[pos as int].support_count < pv.support_count);
            if t - 1 > pos {
                assert(comes_before(evs, before[pos as int], before[t - 1]));
            }
        } else {
            assert(out@[s] == before[s - 1] && out@[t] == before[t - 1]);
        }
    }
    assert forall|x: Pattern| #[trigger] out@.contains(x) <==> (before.contains(x) || x == pv) by {
        if out@.contains(x) {
            let k = choose|k: int| 0 <= k < out@.len() && out@[k] == x;
            if k < pos {
                assert(before[k] == x);
            } else if k > pos {
                assert(before[k - 1] == x);
            }
        }
        if before.contains(x) {
            let k = choose|k: int| 0 <= k < before.len() && before[k] == x;
            if k < pos {
                assert(out@[k] == x);
            } else {
                assert(out@[k + 1] == x);
            }
        }
        if x == pv {
            assert(out@[pos as int] == x);
        }
    }
}

/// Compiles resolved events into patterns. Events with equal keys form a group; a group
/// that passes the policy's evidence gate and whose key is not among `existing` becomes one
/// pattern. Patterns come out by descending support, equal support in order of first
/// appearance.
pub fn compile(events: &Vec<ResolvedEvent>, existing: &Vec<PatternKey>, policy: ClusteringPolicy) -> (r: Vec<Pattern>)
    ensures
        is_compilation(r@, event_views(events@), key_views(existing@), policy),
{
    let ghost evs = event_views(events@);
    let ghost ex = key_views(existing@);
    let mut keys: Vec<PatternKey> = Vec::new();
    let mut i: usize = 0;
    while i < events.len()
        invariant
            evs == event_views(events@),
            i <= events@.len(),
            keys@.len() == i,
            forall|j: int| 0 <= j < i ==> (#[trigger] keys@[j])@ == event_key(evs[j]),
        decreases events@.len() - i,
    {
        keys.push(event_key_of(&events[i]));
        i += 1;
    }
    let mut out: Vec<Pattern> = Vec::new();
    let mut i: usize = 0;
    proof {
        assert forall|k: KeyView| emits(evs, ex, policy, k) && first_index(evs, k) < 0 implies exists|t: int|
            0 <= t < out@.len() && (#[trigger] out@[t]).key@ == k by {
            lemma_member_indices(evs, k);
        }
    }
    while i < events.len()
        invariant
            evs == event_views(events@),
            ex == key_views(existing@),
            i <= events@.len(),
            keys@.len() == events@.len(),
            forall|j: int| 0 <= j < evs.len() ==> (#[trigger] keys@[j])@ == event_key(evs[j]),
            forall|t: int| 0 <= t < out@.len() ==> is_pattern_of(#[trigger] out@[t], evs, out@[t].key@)
                && emits(evs, ex, policy, out@[t].key@) && first_index(evs, out@[t].key@) < i,
            forall|k: KeyView| emits(evs, ex, policy, k) && first_index(evs, k) < i ==> exists|t: int|
                0 <= t < out@.len() && (#[trigger] out@[t]).key@ == k,
            forall|s: int, t: int| 0 <= s < t < out@.len() ==> comes_before(evs, #[trigger] out@[s], #[trigger] out@[t]),
        decreases events@.len() - i,
    {
        let ghost k = keys@[i as int]@;
        let members = group_members(&keys, &keys[i], Ghost(evs));
        proof {
            lemma_member_indices(evs, k);
            assert(member_indices(evs, k).contains(i as int));
            assert(members@.map_values(|i: usize| i as int).len() == members@.len());
            assert forall|t: int| 0 <= t < members@.len() implies #[trigger] members@[t] < events@.len() by {
                assert(members@.map_values(|i: usize| i as int)[t] == members@[t] as int);
            }
            assert(members@.map_values(|i: usize| i as int)[0] == members@[0] as int);
            assert(members@.map_values(|i: usize| i as int) =~= member_indices(evs, k));
        }
        let ghost g = members@.map_values(|i: usize| events@[i as int]@);
        assert(g =~= group_of(evs, k)) by {
            assert forall|t: int| 0 <= t < g.len() implies g[t] == group_of(evs, k)[t] by {
                assert(members@.map_values(|i: usize| i as int)[t] == members@[t] as int);
            }
        }
        let first = members[0] == i;
        proof {
            // the first member is the first event with this key
            if !first {
                let f = member_indices(evs, k)[0];
                let ti = choose|t: int| 0 <= t < member_indices(evs, k).len() && member_indices(evs, k)[t] == i;
                if ti > 0 {
                    assert(member_indices(evs, k)[0] < member_indices(evs, k)[ti]);
                }
                assert(f < i);
            } else {
                assert(first_index(evs, k) == i);
            }
        }
        let passes = match policy {
            ClusteringPolicy::EventCount => members.len() >= MIN_EVIDENCE_COUNT,
            ClusteringPolicy::EvidenceCount => count_with_evidence(events, &members) >= MIN_EVIDENCE_COUNT,
        };
        if first && passes && !contains_key(existing, &keys[i]) {
            let key = keys[i].copy();
            let p = build_pattern(events, key, members);
            let ghost pv = p;
            let ghost before = out@;
            proof {
                assert forall|t: int| 0 <= t < before.len() && (#[trigger] before[t]).support_count >= p.support_count implies comes_before(evs, before[t], p) by {
                    assert(first_index(evs, before[t].key@) < i);
                }
            }
            insert_by_support(&mut out, p, Ghost(evs));
            proof {
                assert forall|t: int| 0 <= t < out@.len() implies is_pattern_of(#[trigger] out@[t], evs, out@[t].key@)
                    && emits(evs, ex, policy, out@[t].key@) && first_index(evs, out@[t].key@) < i + 1 by {
                    assert(out@.contains(out@[t]));
                    if before.contains(out@[t]) {
                        let s = choose|s: int| 0 <= s < before.len() && before[s] == out@[t];
                    }
                }
                assert forall|k2: KeyView| emits(evs, ex, policy, k2) && first_index(evs, k2) < i + 1 implies exists|t: int|
                    0 <= t < out@.len() && (#[trigger] out@[t]).key@ == k2 by {
                    if first_index(evs, k2) < i {
                        let t = choose|t: int| 0 <= t < before.len() && (#[trigger] before[t]).key@ == k2;
                        assert(before.contains(before[t]));
                        assert(out@.contains(before[t]));
                    } else {
                        lemma_member_indices(evs, k2);
                        assert(event_key(evs[first_index(evs, k2)]) == k2);
                        assert(out@.contains(p));
                    }
                }
            }
        } else {
            proof {
                assert forall|k2: KeyView| emits(evs, ex, policy, k2) && first_index(evs, k2) < i + 1 implies exists|t: int|
                    0 <= t < out@.len() && (#[trigger] out@[t]).key@ == k2 by {
                    if first_index(evs, k2) == i {
                        lemma_member_indices(evs, k2);
                        assert(event_key(evs[first_index(evs, k2)]) == k2);
                        assert(k2 == k);
                    }
                }
            }
        }
        i += 1;
    }
    proof {
        assert forall|k: KeyView| emits(evs, ex, policy, k) implies exists|t: int| 0 <= t < out@.len() && (#[trigger] out@[t]).key@ == k by {
            lemma_member_indices(evs, k);
            assert(first_index(evs, k) < evs.len());
        }
    }
    out
}

} // verus!

verus! {

proof fn lemma_with_evidence_push(g: Seq<EventView>, e: EventView)
    ensures
        with_evidence(g.push(e)) >= with_evidence(g),
{
    assert(g.push(e).drop_last() =~= g);
}

proof fn lemma_group_push(evs: Seq<EventView>, e: EventView, k: KeyView)
    ensures
        group_of(evs.push(e), k) == (if event_key(e) == k {
            group_of(evs, k).push(e)
        } else {
            group_of(evs, k)
        }),
        member_indices(evs.push(e), k).len() >= member_indices(evs, k).len(),
{
    let s = evs.push(e);
    assert(s.drop_last() =~= evs);
    let r = member_indices(evs, k);
    lemma_member_indices(evs, k);
    if event_key(e) == k {
        assert(group_of(s, k) =~= group_of(evs, k).push(e)) by {
            assert forall|t: int| 0 <= t < r.len() implies group_of(s, k)[t] == group_of(evs, k)[t] by {
                assert(s[r[t]] == evs[r[t]]);
            }
        }
    } else {
        assert(group_of(s, k) =~= group_of(evs, k)) by {
            assert forall|t: int| 0 <= t < r.len() implies group_of(s, k)[t] == group_of(evs, k)[t] by {
                assert(s[r[t]] == evs[r[t]]);
            }
        }
    }
}

/// One more event never takes a pattern away: every key that compiling `evs` emits, compiling
/// `evs` with `e` added emits too (the evidence gate only counts up).
pub proof fn lemma_gate_monotone(
    r1: Seq<Pattern>,
    r2: Seq<Pattern>,
    evs: Seq<EventView>,
    e: EventView,
    existing: Seq<KeyView>,
    policy: ClusteringPolicy,
)
    requires
        is_compilation(r1, evs, existing, policy),
        is_compilation(r2, evs.push(e), existing, policy),
    ensures
        forall|t: int| 0 <= t < r1.len() ==> exists|u: int| 0 <= u < r2.len() && (#[trigger] r2[u]).key@ == (#[trigger] r1[t]).key@,
{
    assert forall|t: int| 0 <= t < r1.len() implies exists|u: int| 0 <= u < r2.len() && (#[trigger] r2[u]).key@ == (#[trigger] r1[t]).key@ by {
        let k = r1[t].key@;
        assert(emits(evs, existing, policy, k));
        lemma_group_push(evs, e, k);
        lemma_with_evidence_push(group_of(evs, k), e);
        assert(emits(evs.push(e), existing, policy, k));
    }
}

/// One more event adds one to the support of the pattern with its key and leaves every other
/// pattern's support as it was; and when counting events, an event whose key exactly one
/// earlier event had (and that is not stored) brings a new pattern of support two.
pub proof fn lemma_one_more_event(
    r1: Seq<Pattern>,
    r2: Seq<Pattern>,
    evs: Seq<EventView>,
    e: EventView,
    existing: Seq<KeyView>,
    policy: ClusteringPolicy,
)
    requires
        is_compilation(r1, evs, existing, policy),
        is_compilation(r2, evs.push(e), existing, policy),
    ensures
        forall|t: int| 0 <= t < r1.len() ==> exists|u: int| 0 <= u < r2.len() && (#[trigger] r2[u]).key@ == (#[trigger] r1[t]).key@
            && r2[u].support_count == r1[t].support_count + if event_key(e) == r1[t].key@ { 1int } else { 0int },
        policy == ClusteringPolicy::EventCount && group_of(evs, event_key(e)).len() == 1 && !existing.contains(event_key(e))
            ==> exists|u: int| 0 <= u < r2.len() && (#[trigger] r2[u]).key@ == event_key(e) && r2[u].support_count == 2,
{
    assert forall|t: int| 0 <= t < r1.len() implies exists|u: int| 0 <= u < r2.len() && (#[trigger] r2[u]).key@ == (#[trigger] r1[t]).key@
        && r2[u].support_count == r1[t].support_count + if event_key(e) == r1[t].key@ { 1int } else { 0int } by {
        let k = r1[t].key@;
        assert(emits(evs, existing, policy, k));
        lemma_group_push(evs, e, k);
        lemma_with_evidence_push(group_of(evs, k), e);
        assert(emits(evs.push(e), existing, policy, k));
        let u = choose|u: int| 0 <= u < r2.len() && (#[trigger] r2[u]).key@ == k;
        assert(is_pattern_of(r2[u], evs.push(e), k));
        assert(is_pattern_of(r1[t], evs, k));
    }
    let k = event_key(e);
    if policy == ClusteringPolicy::EventCount && group_of(evs, k).len() == 1 && !existing.contains(k) {
        lemma_group_push(evs, e, k);
        let s = evs.push(e);
        assert(s.drop_last() =~= evs);
        assert(s.last() == e);
        assert(member_indices(s, k).len() > 0);
        assert(emits(s, existing, policy, k));
        let u = choose|u: int| 0 <= u < r2.len() && (#[trigger] r2[u]).key@ == k;
        assert(is_pattern_of(r2[u], s, k));
    }
}

/// Compiling the same events again, against a store that holds the keys of the first run's
/// patterns, emits nothing.
pub proof fn lemma_recompile_emits_nothing(
    r1: Seq<Pattern>,
    r2: Seq<Pattern>,
    evs: Seq<EventView>,
    existing: Seq<KeyView>,
    policy: ClusteringPolicy,
)
    requires
        is_compilation(r1, evs, existing, policy),
        is_compilation(r2, evs, existing + r1.map_values(|p: Pattern| p.key@), policy),
    ensures
        r2.len() == 0,
{
    let stored = existing + r1.map_values(|p: Pattern| p.key@);
    if r2.len() > 0 {
        let k = r2[0].key@;
        assert(emits(evs, stored, policy, k));
        assert(!existing.contains(k)) by {
            if existing.contains(k) {
                let j = choose|j: int| 0 <= j < existing.len() && existing[j] == k;
                assert(stored[j] == k);
            }
        }
        assert(emits(evs, existing, policy, k));
        let t = choose|t: int| 0 <= t < r1.len() && (#[trigger] r1[t]).key@ == k;
        assert(stored[existing.len() + t] == k);
        assert(stored.contains(k));
    }
}

} // verus!

verus! {

/// The key of a stored pattern, from its trigger, invariant and response; the trigger
/// signature written with it is used when present, else recomputed.
pub open spec fn stored_key_of(
    trigger: Seq<char>,
    inv: Option<Seq<char>>,
    response: Option<Seq<char>>,
    signature: Option<Seq<char>>,
) -> KeyView {
    let n = normalized(trigger);
    let sig = match signature {
        Some(s) => s,
        None => keyword_signature_of(n),
    };
    KeyView {
        trigger_key: trigger_key_of(n, sig),
        invariant_key: opt_normalized(inv),
        response_key: opt_normalized(response),
    }
}

/// The key of a stored pattern (see `stored_key_of`).
pub fn stored_pattern_key(
    trigger: &str,
    inv: &Option<String>,
    response: &Option<String>,
    trigger_signature: &Option<String>,
) -> (r: PatternKey)
    ensures
        r@ == stored_key_of(trigger@, opt_view(*inv), opt_view(*response), opt_view(*trigger_signature)),
{
    let n = normalize_text(trigger);
    let sig = match trigger_signature {
        Some(s) => s.clone(),
        None => keyword_signature(n.as_str()),
    };
    let trigger_key = select_trigger_key(n.as_str(), sig.as_str());
    PatternKey {
        trigger_key,
        invariant_key: normalize_opt(inv),
        response_key: normalize_opt(response),
    }
}

/// A stored pattern whose signature was recomputed has the key its events had.
pub proof fn lemma_stored_key_recomputed(trigger: Seq<char>, inv: Option<Seq<char>>, response: Option<Seq<char>>)
    ensures
        stored_key_of(trigger, inv, response, None) == key_of_parts(trigger, inv, response),
{
}

} // verus!

verus! {

proof fn lemma_group_concat(s: Seq<EventView>, t: Seq<EventView>, k: KeyView)
    ensures
        group_of(s + t, k) == group_of(s, k) + group_of(t, k),
    decreases t.len(),
{
    if t.len() == 0 {
        assert(s + t =~= s);
        assert(group_of(t, k) =~= Seq::<EventView>::empty());
        assert(group_of(s, k) + group_of(t, k) =~= group_of(s, k));
    } else {
        let t0 = t.drop_last();
        let e = t.last();
        lemma_group_concat(s, t0, k);
        assert((s + t).drop_last() =~= s + t0);
        assert((s + t).last() == e);
        assert(t0.push(e) =~= t);
        assert((s + t0).push(e) =~= s + t);
        lemma_group_push(s + t0, e, k);
        lemma_group_push(t0, e, k);
        lemma_member_indices(s + t0, k);
        lemma_member_indices(t0, k);
        let r1 = member_indices(s + t0, k);
        let r2 = member_indices(t0, k);
        if event_key(e) == k {
            assert(group_of(s + t, k) =~= group_of(s + t0, k).push(e)) by {
                assert forall|q: int| 0 <= q < r1.len() implies group_of(s + t, k)[q] == group_of(s + t0, k)[q] by {
                    assert((s + t)[r1[q]] == (s + t0)[r1[q]]);
                }
            }
            assert(group_of(t, k) =~= group_of(t0, k).push(e)) by {
                assert forall|q: int| 0 <= q < r2.len() implies group_of(t, k)[q] == group_of(t0, k)[q] by {
                    assert(t[r2[q]] == t0[r2[q]]);
                }
            }
            assert(group_of(s, k) + group_of(t0, k).push(e) =~= (group_of(s, k) + group_of(t0, k)).push(e));
        } else {
            assert(group_of(s + t, k) =~= group_of(s + t0, k)) by {
                assert forall|q: int| 0 <= q < r1.len() implies group_of(s + t, k)[q] == group_of(s + t0, k)[q] by {
                    assert((s + t)[r1[q]] == (s + t0)[r1[q]]);
                }
            }
            assert(group_of(t, k) =~= group_of(t0, k)) by {
                assert forall|q: int| 0 <= q < r2.len() implies group_of(t, k)[q] == group_of(t0, k)[q] by {
                    assert(t[r2[q]] == t0[r2[q]]);
                }
            }
        }
    }
}

proof fn lemma_with_evidence_concat(g1: Seq<EventView>, g2: Seq<EventView>)
    ensures
        with_evidence(g1 + g2) == with_evidence(g1) + with_evidence(g2),
    decreases g2.len(),
{
    if g2.len() == 0 {
        assert(g1 + g2 =~= g1);
    } else {
        lemma_with_evidence_concat(g1, g2.drop_last());
        assert((g1 + g2).drop_last() =~= g1 + g2.drop_last());
        assert((g1 + g2).last() == g2.last());
    }
}

proof fn lemma_pair_group(x: EventView, y: EventView, k: KeyView)
    ensures
        group_of(seq![x, y], k).len() == group_of(seq![y, x], k).len(),
        with_evidence(group_of(seq![x, y], k)) == with_evidence(group_of(seq![y, x], k)),
{
    let xy = seq![x, y];
    let yx = seq![y, x];
    assert(xy.drop_last() =~= seq![x]);
    assert(yx.drop_last() =~= seq![y]);
    assert(seq![x].drop_last() =~= Seq::<EventView>::empty());
    assert(seq![y].drop_last() =~= Seq::<EventView>::empty());
    lemma_group_concat(seq![x], seq![y], k);
    lemma_group_concat(seq![y], seq![x], k);
    assert(seq![x] + seq![y] =~= xy);
    assert(seq![y] + seq![x] =~= yx);
    let gx = group_of(seq![x], k);
    let gy = group_of(seq![y], k);
    lemma_with_evidence_concat(gx, gy);
    lemma_with_evidence_concat(gy, gx);
}

/// Exchanging two neighbouring events (and so, step by step, any reordering of the events)
/// changes neither which keys compiling emits nor the support behind each key.
pub proof fn lemma_swap_keeps_emitted_keys(
    a: Seq<EventView>,
    x: EventView,
    y: EventView,
    b: Seq<EventView>,
    existing: Seq<KeyView>,
    policy: ClusteringPolicy,
    k: KeyView,
)
    ensures
        emits(a + seq![x, y] + b, existing, policy, k) == emits(a + seq![y, x] + b, existing, policy, k),
        group_of(a + seq![x, y] + b, k).len() == group_of(a + seq![y, x] + b, k).len(),
{
    let s1 = a + seq![x, y] + b;
    let s2 = a + seq![y, x] + b;
    lemma_group_concat(a + seq![x, y], b, k);
    lemma_group_concat(a, seq![x, y], k);
    lemma_group_concat(a + seq![y, x], b, k);
    lemma_group_concat(a, seq![y, x], k);
    lemma_pair_group(x, y, k);
    let ga = group_of(a, k);
    let gb = group_of(b, k);
    let gxy = group_of(seq![x, y], k);
    let gyx = group_of(seq![y, x], k);
    lemma_with_evidence_concat(ga, gxy);
    lemma_with_evidence_concat(ga + gxy, gb);
    lemma_with_evidence_concat(ga, gyx);
    lemma_with_evidence_concat(ga + gyx, gb);
    assert(member_indices(s1, k).len() == group_of(s1, k).len());
    assert(member_indices(s2, k).len() == group_of(s2, k).len());
}

/// Two compilations of event lists that differ by one exchange of neighbours hold patterns
/// with the same keys, and for each key the same support and the same dominant outcome.
pub proof fn lemma_swap_keeps_compilation_keys(
    r1: Seq<Pattern>,
    r2: Seq<Pattern>,
    a: Seq<EventView>,
    x: EventView,
    y: EventView,
    b: Seq<EventView>,
    existing: Seq<KeyView>,
    policy: ClusteringPolicy,
)
    requires
        is_compilation(r1, a + seq![x, y] + b, existing, policy),
        is_compilation(r2, a + seq![y, x] + b, existing, policy),
    ensures
        forall|t: int| 0 <= t < r1.len() ==> exists|u: int| 0 <= u < r2.len() && (#[trigger] r2[u]).key@ == (#[trigger] r1[t]).key@
            && r2[u].support_count == r1[t].support_count && r2[u].outcome@ == r1[t].outcome@,
{
    assert forall|t: int| 0 <= t < r1.len() implies exists|u: int| 0 <= u < r2.len() && (#[trigger] r2[u]).key@ == (#[trigger] r1[t]).key@
        && r2[u].support_count == r1[t].support_count && r2[u].outcome@ == r1[t].outcome@ by {
        let k = r1[t].key@;
        lemma_swap_keeps_emitted_keys(a, x, y, b, existing, policy, k);
        lemma_swap_keeps_dominant(a, x, y, b, k);
        assert(emits(a + seq![y, x] + b, existing, policy, k));
        let u = choose|u: int| 0 <= u < r2.len() && (#[trigger] r2[u]).key@ == k;
        assert(is_pattern_of(r2[u], a + seq![y, x] + b, k));
        assert(is_pattern_of(r1[t], a + seq![x, y] + b, k));
    }
}

} // verus!

verus! {

use crate::vote::{count_of, plurality_index, counts_of, is_first_max};

proof fn lemma_count_concat<T>(s: Seq<T>, t: Seq<T>, w: T)
    ensures
        count_of(s + t, w) == count_of(s, w) + count_of(t, w),
    decreases t.len(),
{
    if t.len() == 0 {
        assert(s + t =~= s);
    } else {
        lemma_count_concat(s, t.drop_last(), w);
        assert((s + t).drop_last() =~= s + t.drop_last());
        assert((s + t).last() == t.last());
    }
}

proof fn lemma_count_positive<T>(s: Seq<T>, w: T)
    requires
        count_of(s, w) > 0,
    ensures
        exists|j: int| 0 <= j < s.len() && s[j] == w,
    decreases s.len(),
{
    if s.last() == w {
        assert(s[s.len() - 1] == w);
    } else {
        lemma_count_positive(s.drop_last(), w);
        let j = choose|j: int| 0 <= j < s.len() - 1 && s.drop_last()[j] == w;
        assert(s[j] == w);
    }
}

proof fn lemma_count_member<T>(s: Seq<T>, j: int)
    requires
        0 <= j < s.len(),
    ensures
        count_of(s, s[j]) > 0,
    decreases s.len(),
{
    if j < s.len() - 1 {
        lemma_count_member(s.drop_last(), j);
        assert(s.drop_last()[j] == s[j]);
    }
}

proof fn lemma_plurality_exists<T>(s: Seq<T>)
    requires
        s.len() > 0,
    ensures
        is_first_max(counts_of(s), plurality_index(s)),
{
    let cs = counts_of(s);
    let b = lemma_first_max_witness(cs, cs.len() as int);
}

proof fn lemma_first_max_witness(cs: Seq<int>, n: int) -> (b: int)
    requires
        0 < n <= cs.len(),
    ensures
        0 <= b < n,
        forall|j: int| 0 <= j < n ==> cs[j] <= cs[b],
        forall|j: int| 0 <= j < b ==> cs[j] < cs[b],
        n == cs.len() ==> is_first_max(cs, b),
    decreases n,
{
    if n == 1 {
        0
    } else {
        let b0 = lemma_first_max_witness(cs, n - 1);
        if cs[n - 1] > cs[b0] {
            n - 1
        } else {
            b0
        }
    }
}

/// Two outcome lists in which every outcome occurs equally often have the same dominant
/// outcome.
pub proof fn lemma_dominant_by_counts(os: Seq<OutcomeView>, ot: Seq<OutcomeView>)
    requires
        forall|w: OutcomeView| #[trigger] count_of(os, w) == count_of(ot, w),
    ensures
        dominant_of(os) == dominant_of(ot),
{
    if os.len() > 0 {
        lemma_count_member(os, 0);
        assert(count_of(ot, os[0]) > 0);
        lemma_count_positive(ot, os[0]);
    }
    if ot.len() > 0 {
        lemma_count_member(ot, 0);
        assert(count_of(os, ot[0]) > 0);
        lemma_count_positive(os, ot[0]);
    }
    if os.len() > 0 && ot.len() > 0 {
        lemma_plurality_exists(os);
        lemma_plurality_exists(ot);
        let b = plurality_index(os);
        let c = plurality_index(ot);
        let m = count_of(os, os[b]);
        let n = count_of(ot, ot[c]);
        assert(counts_of(os)[b] == m);
        assert(counts_of(ot)[c] == n);
        lemma_count_member(ot, c);
        lemma_count_positive(os, ot[c]);
        let j = choose|j: int| 0 <= j < os.len() && os[j] == ot[c];
        assert(counts_of(os)[j] <= counts_of(os)[b]);
        lemma_count_member(os, b);
        lemma_count_positive(ot, os[b]);
        let k = choose|k: int| 0 <= k < ot.len() && ot[k] == os[b];
        assert(counts_of(ot)[k] <= counts_of(ot)[c]);
        assert(m == n);
        let tie_s = exists|i: int| 0 <= i < os.len() && count_of(os, #[trigger] os[i]) == count_of(os, os[b]) && os[i] != os[b];
        let tie_t = exists|i: int| 0 <= i < ot.len() && count_of(ot, #[trigger] ot[i]) == count_of(ot, ot[c]) && ot[i] != ot[c];
        if tie_s {
            let i = choose|i: int| 0 <= i < os.len() && count_of(os, #[trigger] os[i]) == count_of(os, os[b]) && os[i] != os[b];
            lemma_count_member(os, i);
            lemma_count_positive(ot, os[i]);
            let i2 = choose|i2: int| 0 <= i2 < ot.len() && ot[i2] == os[i];
            if ot[i2] != ot[c] {
                assert(count_of(ot, ot[i2]) == count_of(ot, ot[c]));
            } else {
                assert(count_of(ot, ot[k]) == count_of(ot, ot[c]));
                assert(ot[k] != ot[c]);
            }
            assert(tie_t);
        }
        if tie_t {
            let i = choose|i: int| 0 <= i < ot.len() && count_of(ot, #[trigger] ot[i]) == count_of(ot, ot[c]) && ot[i] != ot[c];
            lemma_count_member(ot, i);
            lemma_count_positive(os, ot[i]);
            let i2 = choose|i2: int| 0 <= i2 < os.len() && os[i2] == ot[i];
            if os[i2] != os[b] {
                assert(count_of(os, os[i2]) == count_of(os, os[b]));
            } else {
                assert(count_of(os, os[j]) == count_of(os, os[b]));
                assert(os[j] != os[b]);
            }
            assert(tie_s);
        }
        if !tie_s {
            assert(count_of(os, os[j]) == count_of(os, os[b]));
            assert(os[j] == os[b]);
        }
    }
}

/// Exchanging two neighbouring events (and so, step by step, any reordering of the events)
/// leaves each key's dominant outcome as it was.
pub proof fn lemma_swap_keeps_dominant(a: Seq<EventView>, x: EventView, y: EventView, b: Seq<EventView>, k: KeyView)
    ensures
        dominant_of(group_of(a + seq![x, y] + b, k).map_values(|e: EventView| e.outcome)) == dominant_of(
            group_of(a + seq![y, x] + b, k).map_values(|e: EventView| e.outcome),
        ),
{
    lemma_group_concat(a + seq![x, y], b, k);
    lemma_group_concat(a, seq![x, y], k);
    lemma_group_concat(a + seq![y, x], b, k);
    lemma_group_concat(a, seq![y, x], k);
    lemma_group_concat(seq![x], seq![y], k);
    lemma_group_concat(seq![y], seq![x], k);
    assert(seq![x] + seq![y] =~= seq![x, y]);
    assert(seq![y] + seq![x] =~= seq![y, x]);
    let f = |e: EventView| e.outcome;
    let ga = group_of(a, k).map_values(f);
    let gb = group_of(b, k).map_values(f);
    let gx = group_of(seq![x], k).map_values(f);
    let gy = group_of(seq![y], k).map_values(f);
    let s1 = group_of(a + seq![x, y] + b, k).map_values(f);
    let s2 = group_of(a + seq![y, x] + b, k).map_values(f);
    assert(s1 =~= ga + gx + gy + gb);
    assert(s2 =~= ga + gy + gx + gb);
    assert forall|w: OutcomeView| #[trigger] count_of(s1, w) == count_of(s2, w) by {
        lemma_count_concat(ga + gx + gy, gb, w);
        lemma_count_concat(ga + gx, gy, w);
        lemma_count_concat(ga, gx, w);
        lemma_count_concat(ga + gy + gx, gb, w);
        lemma_count_concat(ga + gy, gx, w);
        lemma_count_concat(ga, gy, w);
    }
    lemma_dominant_by_counts(s1, s2);
}

} // verus!

verus! {

/// Two events with the same key, compiled counting events against an empty store, give one
/// pattern of support two. Its outcome is theirs when they agree and `Mixed` when they do not;
/// then the second event is the counterexample. Its evidence is theirs, first-seen order,
/// without repeats.
pub proof fn lemma_two_events(r: Seq<Pattern>, e1: EventView, e2: EventView)
    requires
        is_compilation(r, seq![e1, e2], seq![], ClusteringPolicy::EventCount),
        event_key(e1) == event_key(e2),
    ensures
        r.len() == 1,
        r[0].key@ == event_key(e1),
        r[0].support_count == 2,
        e1.outcome == e2.outcome ==> r[0].outcome@ == e1.outcome && r[0].counterexample is None,
        e1.outcome != e2.outcome ==> r[0].outcome@ == OutcomeView::Mixed && opt_view(r[0].counterexample) == Some(
            e2.trigger + " -> "@ + outcome_label(e2.outcome),
        ),
        texts(r[0].supporting_evidence@) == dedup(evidence_items(e1) + evidence_items(e2)),
{
    let k = event_key(e1);
    let evs = seq![e1, e2];
    let empty = Seq::<EventView>::empty();
    lemma_group_push(empty, e1, k);
    lemma_group_push(seq![e1], e2, k);
    assert(empty.push(e1) =~= seq![e1]);
    assert(seq![e1].push(e2) =~= evs);
    assert(group_of(empty, k) =~= empty);
    let g = group_of(evs, k);
    assert(g =~= seq![e1, e2]);
    assert(evs.drop_last() =~= seq![e1]);
    assert(seq![e1].drop_last() =~= empty);
    assert(member_indices(evs, k).len() == 2);
    assert(!Seq::<KeyView>::empty().contains(k));
    assert(emits(evs, seq![], ClusteringPolicy::EventCount, k));
    let u = choose|u: int| 0 <= u < r.len() && (#[trigger] r[u]).key@ == k;
    assert forall|t: int| 0 <= t < r.len() implies (#[trigger] r[t]).key@ == k by {
        let kt = r[t].key@;
        assert(emits(evs, seq![], ClusteringPolicy::EventCount, kt));
        lemma_member_indices(evs, kt);
        let i = member_indices(evs, kt)[0];
        assert(event_key(evs[i]) == kt);
    }
    if r.len() > 1 {
        assert(comes_before(evs, r[0], r[1]));
        assert(is_pattern_of(r[0], evs, k));
        assert(is_pattern_of(r[1], evs, k));
    }
    assert(is_pattern_of(r[0], evs, k));
    assert(g.drop_last() =~= seq![e1]);
    assert(all_evidence(seq![e1]) =~= evidence_items(e1)) by {
        assert(seq![e1].drop_last() =~= empty);
        assert(seq![e1].last() == e1);
        assert(all_evidence(empty) == Seq::<Seq<char>>::empty());
        assert(Seq::<Seq<char>>::empty() + evidence_items(e1) =~= evidence_items(e1));
    }
    assert(g.last() == e2);
    assert(all_evidence(g) == evidence_items(e1) + evidence_items(e2));
    let os = g.map_values(|e: EventView| e.outcome);
    assert(os =~= seq![e1.outcome, e2.outcome]);
    lemma_plurality_exists(os);
    let b = plurality_index(os);
    assert(os.drop_last() =~= seq![e1.outcome]);
    assert(seq![e1.outcome].drop_last() =~= Seq::<OutcomeView>::empty());
    let o0 = Seq::<OutcomeView>::empty();
    assert(count_of(o0, e1.outcome) == 0);
    assert(count_of(o0, e2.outcome) == 0);
    assert(seq![e1.outcome].last() == e1.outcome);
    assert(count_of(seq![e1.outcome], e1.outcome) == 1);
    assert(count_of(seq![e1.outcome], e2.outcome) == if e1.outcome == e2.outcome { 1nat } else { 0nat });
    assert(os.last() == e2.outcome);
    assert(count_of(os, e1.outcome) == if e1.outcome == e2.outcome { 2nat } else { 1nat });
    assert(count_of(os, e2.outcome) == if e1.outcome == e2.outcome { 2nat } else { 1nat });
    assert(counts_of(os)[0] == count_of(os, os[0]));
    assert(counts_of(os)[1] == count_of(os, os[1]));
    if e1.outcome == e2.outcome {
        assert(os[b] == e1.outcome);
        assert(!exists|j: int| 0 <= j < os.len() && count_of(os, #[trigger] os[j]) == count_of(os, os[b]) && os[j] != os[b]);
        assert(dominant_of(os) == e1.outcome);
        match baseline_of(os, dominant_of(os)) {
            Some(base) => {
                assert(base == e1.outcome);
                assert(!exists|j: int| is_first_other(os, base, j));
            },
            None => {},
        }
    } else {
        let j = if b == 0 { 1int } else { 0int };
        assert(count_of(os, os[j]) == count_of(os, os[b]) && os[j] != os[b]);
        assert(dominant_of(os) == OutcomeView::Mixed);
        assert(baseline_of(os, OutcomeView::Mixed) == Some(e1.outcome));
        assert(is_first_other(os, e1.outcome, 1));
        let c = choose|c: int| is_first_other(os, e1.outcome, c);
        assert(c == 1);
    }
}

} // verus!
