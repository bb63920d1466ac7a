use vstd::prelude::*;

use crate::compiler::contains_text;
use crate::text::{chars_of, string_of, strip_ends, trim_str, trimmed};
use crate::vote::texts;

verus! {

/// The tool that walks a person through a capture, one question at a time.
#[derive(Clone, Copy, Debug)]
pub struct CaptureHandler;

/// What the capture tool tells the model about itself.
pub fn capture_tool_description() -> (r: String)
    ensures
        r@ == "Capture intent, hypotheses, tests, outcomes, and patterns in a structured trace. Prompts the user for each step and returns a JSON record."@,
{
    "Capture intent, hypotheses, tests, outcomes, and patterns in a structured trace. Prompts the user for each step and returns a JSON record.".to_owned()
}

/// Why an answer to the capture prompts was refused.
#[derive(Clone, Debug)]
pub enum PromptError {
    /// The field named is missing or blank.
    MissingField(String),
    /// The test id given is not among the tests.
    UnknownTestId(String),
    /// No test id was given.
    NoTestIds,
}

/// The answer stored under `key`: the first pair with that key.
pub open spec fn answer_for(answers: Seq<(String, String)>, key: Seq<char>) -> Option<Seq<char>> {
    if exists|i: int| 0 <= i < answers.len() && (#[trigger] answers[i]).0@ == key {
        let i = choose|i: int| 0 <= i < answers.len() && (#[trigger] answers[i]).0@ == key && forall|j: int| 0 <= j < i ==> (#[trigger] answers[j]).0@ != key;
        Some(answers[i].1@)
    } else {
        None
    }
}

/// The answer under `key`, which must be present and not blank.
pub fn require_field(answers: &Vec<(String, String)>, key: &str) -> (r: Result<String, PromptError>)
    ensures
        match answer_for(answers@, key@) {
            Some(a) => if trimmed(a).len() > 0 {
                r is Ok && r->Ok_0@ == a
            } else {
                r is Err && r->Err_0 is MissingField && r->Err_0->MissingField_0@ == key@
            },
            None => r is Err && r->Err_0 is MissingField && r->Err_0->MissingField_0@ == key@,
        },
{
    let k = key.to_owned();
    let mut i: usize = 0;
    while i < answers.len()
        invariant
            k@ == key@,
            i <= answers@.len(),
            forall|j: int| 0 <= j < i ==> (#[trigger] answers@[j]).0@ != key@,
        decreases answers@.len() - i,
    {
        if answers[i].0 == k {
            proof {
                let c = choose|c: int| 0 <= c < answers@.len() && (#[trigger] answers@[c]).0@ == key@ && forall|j: int| 0 <= j < c ==> (#[trigger] answers@[j]).0@ != key@;
                assert(answers@[i as int].0@ == key@);
                if c < i {
                } else if c > i {
                    assert(answers@[i as int].0@ != key@);
                }
            }
            let value = answers[i].1.clone();
            let t = trim_str(value.as_str());
            if t.unicode_len() == 0 {
                return Err(PromptError::MissingField(k));
            }
            return Ok(value);
        }
        i += 1;
    }
    Err(PromptError::MissingField(k))
}

/// The separators of a list answer.
pub open spec fn is_list_separator(c: char) -> bool {
    c == ',' || c == ';' || c == '\n'
}

/// The pieces of `s` between separators, empty ones included.
pub open spec fn pieces(s: Seq<char>) -> Seq<Seq<char>>
    decreases s.len(),
{
    if s.len() == 0 {
        seq![seq![]]
    } else {
        let p = pieces(s.drop_last());
        let c = s.last();
        if is_list_separator(c) {
            p.push(seq![])
        } else {
            p.update(p.len() - 1, p.last().push(c))
        }
    }
}

/// The pieces trimmed, without the empty ones.
pub open spec fn kept_pieces(ps: Seq<Seq<char>>) -> Seq<Seq<char>>
    decreases ps.len(),
{
    if ps.len() == 0 {
        seq![]
    } else {
        let r = kept_pieces(ps.drop_last());
        let t = trimmed(ps.last());
        if t.len() > 0 {
            r.push(t)
        } else {
            r
        }
    }
}

proof fn lemma_pieces_nonempty(s: Seq<char>)
    ensures
        pieces(s).len() > 0,
    decreases s.len(),
{
    if s.len() > 0 {
        lemma_pieces_nonempty(s.drop_last());
    }
}

/// The entries of a list answer: split at commas, semicolons and line breaks, trimmed, blank
/// ones left out.
pub fn split_list(text: &str) -> (r: Vec<String>)
    ensures
        texts(r@) == kept_pieces(pieces(text@)),
{
    let cs = chars_of(text);
    let mut out: Vec<String> = Vec::new();
    let mut cur: Vec<char> = Vec::new();
    let mut i: usize = 0;
    while i < cs.len()
        invariant
            cs@ == text@,
            i <= cs@.len(),
            kept_pieces(pieces(cs@.take(i as int))) == kept_pieces(pieces(cs@.take(i as int)).drop_last()).push(
                trimmed(cur@),
            ) || trimmed(cur@).len() == 0,
            texts(out@) == kept_pieces(pieces(cs@.take(i as int)).drop_last()),
            pieces(cs@.take(i as int)).last() == cur@,
        decreases cs@.len() - i,
    {
        let ghost p = pieces(cs@.take(i as int));
        proof {
            lemma_pieces_nonempty(cs@.take(i as int));
            assert(cs@.take(i + 1).drop_last() =~= cs@.take(i as int));
            assert(cs@.take(i + 1).last() == cs@[i as int]);
        }
        let c = cs[i];
        if c == ',' || c == ';' || c == '\n' {
            let t = strip_ends(&cur, false);
            let ghost before = out@;
            if t.len() > 0 {
                out.push(string_of(&t));
                assert(texts(out@) =~= texts(before).push(t@));
            }
            cur = Vec::new();
            proof {
                let q = pieces(cs@.take(i + 1));
                assert(q == p.push(seq![]));
                assert(q.drop_last() =~= p);
                assert(p =~= p.drop_last().push(p.last()));
                assert(kept_pieces(p) == kept_pieces(p.drop_last().push(p.last())));
                assert(p.drop_last().push(p.last()).drop_last() =~= p.drop_last());
                assert(q.last() =~= cur@);
            }
        } else {
            let ghost old_cur = cur@;
            cur.push(c);
            proof {
                let q = pieces(cs@.take(i + 1));
                assert(q == p.update(p.len() - 1, p.last().push(c)));
                assert(q.drop_last() =~= p.drop_last());
                assert(q.last() == cur@);
                assert(q =~= q.drop_last().push(q.last()));
                assert(kept_pieces(q) == kept_pieces(q.drop_last().push(q.last())));
                assert(q.drop_last().push(q.last()).drop_last() =~= q.drop_last());
            }
        }
        i += 1;
    }
    proof {
        let p = pieces(cs@.take(i as int));
        lemma_pieces_nonempty(cs@.take(i as int));
        assert(cs@.take(cs@.len() as int) =~= cs@);
        assert(p =~= p.drop_last().push(p.last()));
        assert(kept_pieces(p) == kept_pieces(p.drop_last().push(p.last())));
        assert(p.drop_last().push(p.last()).drop_last() =~= p.drop_last());
    }
    let t = strip_ends(&cur, false);
    if t.len() > 0 {
        let ghost before = out@;
        out.push(string_of(&t));
        assert(texts(out@) =~= texts(before).push(t@));
    }
    out
}

/// A test id as given, trimmed, when it names one of `test_ids`.
pub fn validate_test_id(test_id: &str, test_ids: &Vec<String>) -> (r: Result<String, PromptError>)
    ensures
        texts(test_ids@).contains(trimmed(test_id@)) <==> r is Ok,
        r is Ok ==> r->Ok_0@ == trimmed(test_id@),
        r is Err ==> r->Err_0 is UnknownTestId && r->Err_0->UnknownTestId_0@ == trimmed(test_id@),
{
    let t = trim_str(test_id);
    if contains_text(test_ids, &t) {
        Ok(t)
    } else {
        Err(PromptError::UnknownTestId(t))
    }
}

/// All the ids given, trimmed, when every one names a test and there is at least one; else
/// the first unknown id, or that none was given.
pub fn validate_test_ids(ids: &Vec<String>, test_ids: &Vec<String>) -> (r: Result<Vec<String>, PromptError>)
    ensures
        r is Ok <==> (ids@.len() > 0 && forall|i: int| 0 <= i < ids@.len() ==> texts(test_ids@).contains(trimmed(#[trigger] ids@[i]@))),
        r is Ok ==> texts(r->Ok_0@) == ids@.map_values(|s: String| trimmed(s@)),
        r is Err && ids@.len() == 0 ==> r->Err_0 is NoTestIds,
        r is Err && ids@.len() > 0 ==> exists|i: int| 0 <= i < ids@.len() && !texts(test_ids@).contains(trimmed(#[trigger] ids@[i]@))
            && r->Err_0 is UnknownTestId && r->Err_0->UnknownTestId_0@ == trimmed(ids@[i]@),
{
    let mut validated: Vec<String> = Vec::new();
    let mut i: usize = 0;
    while i < ids.len()
        invariant
            i <= ids@.len(),
            forall|k: int| 0 <= k < i ==> texts(test_ids@).contains(trimmed(#[trigger] ids@[k]@)),
            texts(validated@) == ids@.take(i as int).map_values(|s: String| trimmed(s@)),
        decreases ids@.len() - i,
    {
        match validate_test_id(ids[i].as_str(), test_ids) {
            Ok(t) => {
                let ghost before = validated@;
                let ghost tv = t@;
                validated.push(t);
                assert(texts(validated@) =~= texts(before).push(tv));
                assert(ids@.take(i + 1).map_values(|s: String| trimmed(s@)) =~= ids@.take(i as int).map_values(|s: String| trimmed(s@)).push(trimmed(ids@[i as int]@)));
                assert(texts(validated@) =~= ids@.take(i + 1).map_values(|s: String| trimmed(s@)));
            },
            Err(e) => {
                return Err(e);
            },
        }
        i += 1;
    }
    if validated.len() == 0 {
        return Err(PromptError::NoTestIds);
    }
    assert(ids@.take(ids@.len() as int) =~= ids@);
    Ok(validated)
}

} // verus!
