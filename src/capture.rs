use vstd::prelude::*;

use crate::compiler::contains_text;
use crate::ranking::{RankEntry, TieBreak, rank_order, ranks_before};
use crate::text::{chars_of, string_of};
use crate::tokens::{plain_tokenize, plain_tokens};
use crate::vote::texts;

verus! {

pub type RecordId = u64;

#[derive(Clone, Debug)]
pub struct IntentToken {
    pub text: String,
}

#[derive(Clone, Debug)]
pub struct Hypothesis {
    pub summary: String,
}

#[derive(Clone, Debug)]
pub struct CaptureTest {
    pub description: String,
}

/// What came of a test.
#[derive(Clone, Debug)]
pub struct Outcome {
    pub summary: String,
    pub success: bool,
}

/// An intent and its outcome, with the intent's words.
#[derive(Clone, Debug)]
pub struct CompiledPattern {
    pub intent: String,
    pub outcome: String,
    pub tokens: Vec<String>,
}

impl CompiledPattern {
    /// The pattern of an intent and its outcome: the intent's text, the outcome's summary,
    /// and the words of the intent.
    pub fn compile(intent: &IntentToken, outcome: &Outcome) -> (r: Self)
        ensures
            r.intent@ == intent.text@,
            r.outcome@ == outcome.summary@,
            texts(r.tokens@) == plain_tokens(intent.text@),
    {
        let tokens = plain_tokenize(intent.text.as_str());
        CompiledPattern { intent: intent.text.clone(), outcome: outcome.summary.clone(), tokens }
    }

    pub fn copy(&self) -> (r: Self)
        ensures
            r.intent@ == self.intent@,
            r.outcome@ == self.outcome@,
            texts(r.tokens@) == texts(self.tokens@),
    {
        let mut tokens: Vec<String> = Vec::new();
        let mut i: usize = 0;
        while i < self.tokens.len()
            invariant
                i <= self.tokens@.len(),
                texts(tokens@) == texts(self.tokens@).take(i as int),
            decreases self.tokens@.len() - i,
        {
            let ghost before = tokens@;
            let t = self.tokens[i].clone();
            assert(t@ == texts(self.tokens@)[i as int]);
            tokens.push(t);
            assert(texts(tokens@) =~= texts(before).push(t@));
            assert(texts(self.tokens@).take(i + 1) =~= texts(self.tokens@).take(i as int).push(t@));
            assert(texts(tokens@) =~= texts(self.tokens@).take(i + 1));
            i += 1;
        }
        assert(texts(self.tokens@).take(self.tokens@.len() as int) =~= texts(self.tokens@));
        CompiledPattern { intent: self.intent.clone(), outcome: self.outcome.clone(), tokens }
    }
}

#[derive(Clone, Copy, Debug, PartialEq, Eq, Structural)]
pub enum RecordKind {
    IntentToken,
    Hypothesis,
    Test,
    Outcome,
    CompiledPattern,
}

#[derive(Clone, Debug)]
pub enum CapturePayload {
    IntentToken(IntentToken),
    Hypothesis(Hypothesis),
    Test(CaptureTest),
    Outcome(Outcome),
    CompiledPattern(CompiledPattern),
}

/// One step of a capture, with the records it follows from.
#[derive(Clone, Debug)]
pub struct CaptureRecord {
    pub id: RecordId,
    pub kind: RecordKind,
    pub links: Vec<RecordId>,
    pub payload: CapturePayload,
}

/// The records of one capture, numbered from 1 in the order they were added; record 1 is the
/// intent.
#[derive(Clone, Debug)]
pub struct CaptureFlow {
    records: Vec<CaptureRecord>,
    next_id: RecordId,
    intent_id: RecordId,
}

impl CaptureFlow {
    /// Record `k` has id `k + 1`, the next id follows the last, and the intent is record 1.
    pub closed spec fn wf(&self) -> bool {
        &&& self.records@.len() >= 1
        &&& self.next_id == self.records@.len() + 1
        &&& self.intent_id == 1
        &&& forall|k: int| 0 <= k < self.records@.len() ==> (#[trigger] self.records@[k]).id == k + 1
        &&& self.records@[0].kind == RecordKind::IntentToken
    }

    pub closed spec fn view_records(&self) -> Seq<CaptureRecord> {
        self.records@
    }

    pub closed spec fn next(&self) -> RecordId {
        self.next_id
    }

    /// A capture that holds the intent alone, as record 1.
    pub fn new(intent_token: IntentToken) -> (r: Self)
        ensures
            r.wf(),
            r.view_records().len() == 1,
            r.view_records()[0].id == 1,
            r.view_records()[0].links@ == Seq::<RecordId>::empty(),
            r.view_records()[0].payload == CapturePayload::IntentToken(intent_token),
    {
        let mut flow = CaptureFlow { records: Vec::new(), next_id: 1, intent_id: 0 };
        let intent_id = flow.push_record(
            RecordKind::IntentToken,
            Vec::new(),
            CapturePayload::IntentToken(intent_token),
        );
        flow.intent_id = intent_id;
        flow
    }

    /// Adds a hypothesis linked to the intent; returns its id.
    pub fn add_hypothesis(&mut self, hypothesis: Hypothesis) -> (r: RecordId)
        requires
            old(self).wf(),
            old(self).next() < u64::MAX,
        ensures
            final(self).wf(),
            r == old(self).next(),
            final(self).view_records().drop_last() == old(self).view_records(),
            final(self).view_records().last().kind == RecordKind::Hypothesis,
            final(self).view_records().last().links@ == seq![1u64],
            final(self).view_records().last().payload == CapturePayload::Hypothesis(hypothesis),
    {
        let links = vec![self.intent_id];
        self.push_record(RecordKind::Hypothesis, links, CapturePayload::Hypothesis(hypothesis))
    }

    /// Adds a test linked to a hypothesis; returns its id.
    pub fn add_test(&mut self, hypothesis_id: RecordId, test: CaptureTest) -> (r: RecordId)
        requires
            old(self).wf(),
            old(self).next() < u64::MAX,
        ensures
            final(self).wf(),
            r == old(self).next(),
            final(self).view_records().drop_last() == old(self).view_records(),
            final(self).view_records().last().kind == RecordKind::Test,
            final(self).view_records().last().links@ == seq![hypothesis_id],
            final(self).view_records().last().payload == CapturePayload::Test(test),
    {
        let links = vec![hypothesis_id];
        self.push_record(RecordKind::Test, links, CapturePayload::Test(test))
    }

    /// Adds an outcome linked to a test; returns its id.
    pub fn add_outcome(&mut self, test_id: RecordId, outcome: Outcome) -> (r: RecordId)
        requires
            old(self).wf(),
            old(self).next() < u64::MAX,
        ensures
            final(self).wf(),
            r == old(self).next(),
            final(self).view_records().drop_last() == old(self).view_records(),
            final(self).view_records().last().kind == RecordKind::Outcome,
            final(self).view_records().last().links@ == seq![test_id],
            final(self).view_records().last().payload == CapturePayload::Outcome(outcome),
    {
        let links = vec![test_id];
        self.push_record(RecordKind::Outcome, links, CapturePayload::Outcome(outcome))
    }

    /// Adds a compiled pattern linked to an outcome; returns its id.
    pub fn add_compiled_pattern(&mut self, outcome_id: RecordId, pattern: CompiledPattern) -> (r: RecordId)
        requires
            old(self).wf(),
            old(self).next() < u64::MAX,
        ensures
            final(self).wf(),
            r == old(self).next(),
            final(self).view_records().drop_last() == old(self).view_records(),
            final(self).view_records().last().kind == RecordKind::CompiledPattern,
            final(self).view_records().last().links@ == seq![outcome_id],
            final(self).view_records().last().payload == CapturePayload::CompiledPattern(pattern),
    {
        let links = vec![outcome_id];
        self.push_record(RecordKind::CompiledPattern, links, CapturePayload::CompiledPattern(pattern))
    }

    /// The records, in the order they were added.
    pub fn records(&self) -> (r: &[CaptureRecord])
        ensures
            r@ == self.view_records(),
    {
        self.records.as_slice()
    }

    fn push_record(&mut self, kind: RecordKind, links: Vec<RecordId>, payload: CapturePayload) -> (r: RecordId)
        requires
            old(self).next_id == old(self).records@.len() + 1,
            old(self).next_id < u64::MAX,
            forall|k: int| 0 <= k < old(self).records@.len() ==> (#[trigger] old(self).records@[k]).id == k + 1,
            old(self).records@.len() == 0 ==> kind == RecordKind::IntentToken,
            old(self).records@.len() > 0 ==> old(self).records@[0].kind == RecordKind::IntentToken,
        ensures
            r == old(self).next_id,
            final(self).next_id == old(self).next_id + 1,
            final(self).intent_id == old(self).intent_id,
            final(self).records@.drop_last() == old(self).records@,
            final(self).records@.len() == old(self).records@.len() + 1,
            final(self).records@.last().id == r,
            final(self).records@.last().kind == kind,
            final(self).records@.last().links == links,
            final(self).records@.last().payload == payload,
            forall|k: int| 0 <= k < final(self).records@.len() ==> (#[trigger] final(self).records@[k]).id == k + 1,
            final(self).records@[0].kind == RecordKind::IntentToken,
    {
        let id = self.next_id;
        self.next_id = self.next_id + 1;
        let ghost before = self.records@;
        self.records.push(CaptureRecord { id, kind, links, payload });
        assert(self.records@.drop_last() =~= before);
        id
    }
}

} // verus!

verus! {

use crate::text::{join_chars, join_with, views};

/// The tokens of `pattern` that also occur in `query`, in the pattern's order.
pub open spec fn matched_tokens(pattern: Seq<Seq<char>>, query: Seq<Seq<char>>) -> Seq<Seq<char>>
    decreases pattern.len(),
{
    if pattern.len() == 0 {
        seq![]
    } else {
        let r = matched_tokens(pattern.drop_last(), query);
        if query.contains(pattern.last()) {
            r.push(pattern.last())
        } else {
            r
        }
    }
}

/// The rationale of a match: the matched tokens, or that there were none.
pub open spec fn rationale_of(matched: Seq<Seq<char>>) -> Seq<char> {
    if matched.len() == 0 {
        "no shared intent tokens"@
    } else {
        "matched tokens: "@ + join_with(matched, ", "@)
    }
}

/// A pattern with the number of its tokens that a query shares, and why.
#[derive(Clone, Debug)]
pub struct PatternMatch {
    pub pattern: CompiledPattern,
    pub score: usize,
    pub rationale: String,
}

fn score_pattern(query: &Vec<String>, pattern: &CompiledPattern) -> (r: (usize, String))
    ensures
        r.0 == matched_tokens(texts(pattern.tokens@), texts(query@)).len(),
        r.1@ == rationale_of(matched_tokens(texts(pattern.tokens@), texts(query@))),
{
    let ghost pv = texts(pattern.tokens@);
    let ghost qv = texts(query@);
    let mut matched: Vec<Vec<char>> = Vec::new();
    let mut i: usize = 0;
    while i < pattern.tokens.len()
        invariant
            pv == texts(pattern.tokens@),
            qv == texts(query@),
            i <= pattern.tokens@.len(),
            views(matched@) == matched_tokens(pv.take(i as int), qv),
            matched@.len() <= i,
        decreases pattern.tokens@.len() - i,
    {
        assert(pv.take(i + 1).drop_last() =~= pv.take(i as int));
        assert(pv.take(i + 1).last() == pattern.tokens@[i as int]@);
        if contains_text(query, &pattern.tokens[i]) {
            let ghost before = matched@;
            let t = chars_of(pattern.tokens[i].as_str());
            matched.push(t);
            assert(views(matched@) =~= views(before).push(t@));
        }
        i += 1;
    }
    assert(pv.take(pattern.tokens@.len() as int) =~= pv);
    let score = matched.len();
    if score == 0 {
        (score, "no shared intent tokens".to_owned())
    } else {
        let sep = chars_of(", ");
        let joined = join_chars(&matched, &sep);
        let mut text = chars_of("matched tokens: ");
        let ghost start = text@;
        let mut k: usize = 0;
        while k < joined.len()
            invariant
                k <= joined@.len(),
                text@ == start + joined@.take(k as int),
            decreases joined@.len() - k,
        {
            text.push(joined[k]);
            k += 1;
            assert(text@ =~= start + joined@.take(k as int));
        }
        assert(joined@.take(joined@.len() as int) =~= joined@);
        (score, string_of(&text))
    }
}

/// `r` holds the patterns in the positions `order`, each with its score and rationale for
/// `query`, by descending score, equal scores in the order of `patterns`.
pub open spec fn is_ranking(r: Seq<PatternMatch>, patterns: Seq<CompiledPattern>, query: Seq<char>, order: Seq<int>) -> bool {
    &&& order.len() == patterns.len()
    &&& r.len() == order.len()
    &&& forall|t: int| 0 <= t < order.len() ==> 0 <= #[trigger] order[t] < patterns.len()
    &&& forall|s: int, t: int| 0 <= s < t < order.len() ==> #[trigger] order[s] != #[trigger] order[t]
    &&& forall|t: int| 0 <= t < order.len() ==> {
        let p = #[trigger] patterns[order[t]];
        let m = matched_tokens(texts(p.tokens@), plain_tokens(query));
        &&& r[t].pattern.intent@ == p.intent@
        &&& r[t].pattern.outcome@ == p.outcome@
        &&& texts(r[t].pattern.tokens@) == texts(p.tokens@)
        &&& r[t].score == m.len()
        &&& r[t].rationale@ == rationale_of(m)
    }
    &&& forall|s: int, t: int| 0 <= s < t < order.len() ==> #[trigger] r[s].score > #[trigger] r[t].score
        || (r[s].score == r[t].score && order[s] < order[t])
}

/// Ranks patterns against a query by how many of their tokens the query's words share.
#[derive(Clone, Copy, Debug, Default)]
pub struct PatternMatcher;

impl PatternMatcher {
    /// Every pattern with its score and rationale, by descending score; equal scores keep
    /// the order of `patterns`.
    pub fn rank(&self, query: &str, patterns: &[CompiledPattern]) -> (r: Vec<PatternMatch>)
        ensures
            r@.len() == patterns@.len(),
            exists|order: Seq<int>| #[trigger] is_ranking(r@, patterns@, query@, order),
    {
        let query_tokens = plain_tokenize(query);
        let mut scored: Vec<(usize, String)> = Vec::new();
        let mut entries: Vec<RankEntry> = Vec::new();
        let mut i: usize = 0;
        while i < patterns.len()
            invariant
                texts(query_tokens@) == plain_tokens(query@),
                i <= patterns@.len(),
                scored@.len() == i,
                entries@.len() == i,
                forall|k: int| 0 <= k < i ==> {
                    let m = matched_tokens(texts((#[trigger] patterns@[k]).tokens@), plain_tokens(query@));
                    &&& scored@[k].0 == m.len()
                    &&& scored@[k].1@ == rationale_of(m)
                    &&& entries@[k].score == scored@[k].0 as u64
                    &&& entries@[k].support_count == 0
                    &&& entries@[k].id@ == Seq::<char>::empty()
                },
            decreases patterns@.len() - i,
        {
            let s = score_pattern(&query_tokens, &patterns[i]);
            entries.push(RankEntry { score: s.0 as u64, support_count: 0, id: String::new() });
            scored.push(s);
            i += 1;
        }
        let n = patterns.len();
        let order = rank_order(&entries, TieBreak::SupportDesc, n);
        let mut out: Vec<PatternMatch> = Vec::new();
        let mut t: usize = 0;
        while t < order.len()
            invariant
                order@.len() == patterns@.len(),
                entries@.len() == patterns@.len(),
                scored@.len() == patterns@.len(),
                forall|q: int| 0 <= q < order@.len() ==> #[trigger] order@[q] < entries@.len(),
                forall|k: int| 0 <= k < patterns@.len() ==> {
                    let m = matched_tokens(texts((#[trigger] patterns@[k]).tokens@), plain_tokens(query@));
                    &&& scored@[k].0 == m.len()
                    &&& scored@[k].1@ == rationale_of(m)
                },
                t <= order@.len(),
                out@.len() == t,
                forall|q: int| 0 <= q < t ==> {
                    let p = patterns@[order@[q] as int];
                    &&& (#[trigger] out@[q]).pattern.intent@ == p.intent@
                    &&& out@[q].pattern.outcome@ == p.outcome@
                    &&& texts(out@[q].pattern.tokens@) == texts(p.tokens@)
                    &&& out@[q].score == scored@[order@[q] as int].0
                    &&& out@[q].rationale@ == scored@[order@[q] as int].1@
                },
            decreases order@.len() - t,
        {
            let k = order[t];
            let ghost before = out@;
            out.push(PatternMatch {
                pattern: patterns[k].copy(),
                score: scored[k].0,
                rationale: scored[k].1.clone(),
            });
            assert(out@[t as int] == out@.last());
            assert forall|q: int| 0 <= q < t implies #[trigger] out@[q] == before[q] by {}
            t += 1;
        }
        proof {
            let ord = order@.map_values(|x: usize| x as int);
            assert forall|s: int, u: int| 0 <= s < u < ord.len() implies #[trigger] ord[s] != #[trigger] ord[u] by {
                assert(ranks_before(entries@, TieBreak::SupportDesc, order@[s] as int, order@[u] as int));
                crate::ranking::lemma_ranks_before_order(entries@, TieBreak::SupportDesc, order@[s] as int, order@[u] as int, 0);
            }
            assert forall|s: int, u: int| 0 <= s < u < ord.len() implies #[trigger] out@[s].score > #[trigger] out@[u].score
                || (out@[s].score == out@[u].score && ord[s] < ord[u]) by {
                assert(ranks_before(entries@, TieBreak::SupportDesc, order@[s] as int, order@[u] as int));
            }
            assert forall|q: int| 0 <= q < ord.len() implies {
                let p = #[trigger] patterns@[ord[q]];
                let m = matched_tokens(texts(p.tokens@), plain_tokens(query@));
                &&& out@[q].pattern.intent@ == p.intent@
                &&& out@[q].pattern.outcome@ == p.outcome@
                &&& texts(out@[q].pattern.tokens@) == texts(p.tokens@)
                &&& out@[q].score == m.len()
                &&& out@[q].rationale@ == rationale_of(m)
            } by {
                assert(out@[q].score == scored@[order@[q] as int].0);
            }
            assert(is_ranking(out@, patterns@, query@, ord));
        }
        out
    }
}

/// The actions a capture may take.
#[derive(Clone, Debug)]
pub struct Covenant {
    allowed_actions: Vec<String>,
}

/// An action that the covenant does not allow.
#[derive(Clone, Debug)]
pub struct CovenantError {
    pub action: String,
}

impl Covenant {
    /// The allowed actions.
    pub closed spec fn allowed(&self) -> Seq<Seq<char>> {
        texts(self.allowed_actions@)
    }

    pub fn new(allowed_actions: Vec<String>) -> (r: Self)
        ensures
            r.allowed() == texts(allowed_actions@),
    {
        Covenant { allowed_actions }
    }

    /// Allows `action` when it is among the allowed actions; refuses it otherwise.
    pub fn enforce(&self, action: &str) -> (r: Result<(), CovenantError>)
        ensures
            r is Ok <==> self.allowed().contains(action@),
            r is Err ==> r->Err_0.action@ == action@,
    {
        let a = action.to_owned();
        if contains_text(&self.allowed_actions, &a) {
            Ok(())
        } else {
            Err(CovenantError { action: a })
        }
    }
}

} // verus!
