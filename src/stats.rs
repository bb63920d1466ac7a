use vstd::prelude::*;

use crate::compiler::{dedup, dedup_texts};
use crate::matcher::{Ratio, jaccard, jaccard_of};
use crate::text::{chars_of, string_of, trim_str, trimmed};
use crate::tokens::{stemmed_tokens, tokenize};
use crate::vote::texts;

verus! {

/// The stemmed tokens of a text followed by each pair of neighbours joined with `_`.
pub open spec fn fingerprint_items(tokens: Seq<Seq<char>>) -> Seq<Seq<char>> {
    tokens + Seq::new(
        (if tokens.len() > 0 { tokens.len() - 1 } else { 0 }) as nat,
        |i: int| tokens[i] + seq!['_'] + tokens[i + 1],
    )
}

/// The semantic fingerprint of a text: its distinct stemmed tokens and token pairs.
pub fn semantic_fingerprint(text: &str) -> (r: Vec<String>)
    ensures
        texts(r@) == dedup(fingerprint_items(stemmed_tokens(text@))),
{
    let tokens = tokenize(text);
    let ghost tv = stemmed_tokens(text@);
    let mut items: Vec<String> = Vec::new();
    let mut i: usize = 0;
    while i < tokens.len()
        invariant
            texts(tokens@) == tv,
            i <= tokens@.len(),
            texts(items@) == tv.take(i as int),
        decreases tokens@.len() - i,
    {
        let ghost before = items@;
        let t = tokens[i].clone();
        assert(t@ == tv[i as int]);
        items.push(t);
        assert(texts(items@) =~= texts(before).push(t@));
        assert(tv.take(i + 1) =~= tv.take(i as int).push(t@));
        assert(texts(items@) =~= tv.take(i + 1));
        i += 1;
    }
    let ghost pairs = Seq::new(
        (if tv.len() > 0 { tv.len() - 1 } else { 0 }) as nat,
        |i: int| tv[i] + seq!['_'] + tv[i + 1],
    );
    assert(tv.take(tokens@.len() as int) =~= tv);
    assert(pairs.take(0) =~= Seq::<Seq<char>>::empty());
    assert(tv + pairs.take(0) =~= tv);
    let mut k: usize = 0;
    while tokens.len() > 0 && k < tokens.len() - 1
        invariant
            texts(tokens@) == tv,
            tv.len() == tokens@.len(),
            k + 1 <= tokens@.len() || k == 0,
            pairs == Seq::new(
                (if tv.len() > 0 { tv.len() - 1 } else { 0 }) as nat,
                |i: int| tv[i] + seq!['_'] + tv[i + 1],
            ),
            texts(items@) == tv + pairs.take(k as int),
        decreases tokens@.len() - k,
    {
        let mut cs = chars_of(tokens[k].as_str());
        cs.push('_');
        let next = chars_of(tokens[k + 1].as_str());
        let mut j: usize = 0;
        let ghost start = cs@;
        while j < next.len()
            invariant
                j <= next@.len(),
                cs@ == start + next@.take(j as int),
            decreases next@.len() - j,
        {
            cs.push(next[j]);
            j += 1;
            assert(cs@ =~= start + next@.take(j as int));
        }
        assert(next@.take(next@.len() as int) =~= next@);
        let ghost before = items@;
        let joined = string_of(&cs);
        items.push(joined);
        assert(tokens@[k as int]@ == tv[k as int]);
        assert(tokens@[k + 1]@ == tv[k + 1]);
        assert(joined@ =~= pairs[k as int]);
        assert(texts(items@) =~= texts(before).push(joined@));
        assert(pairs.take(k + 1) =~= pairs.take(k as int).push(joined@));
        assert(texts(items@) =~= tv + pairs.take(k + 1));
        k += 1;
    }
    proof {
        if tv.len() > 0 {
            assert(k == tv.len() - 1);
        }
        assert(pairs.take(k as int) =~= pairs);
    }
    dedup_texts(&items)
}

proof fn lemma_kept_len(ws: Seq<Seq<char>>)
    ensures
        crate::tokens::kept_stems(ws).len() <= ws.len(),
    decreases ws.len(),
{
    if ws.len() > 0 {
        lemma_kept_len(ws.drop_last());
    }
}

proof fn lemma_fingerprint_len(text: Seq<char>)
    ensures
        dedup(fingerprint_items(stemmed_tokens(text))).len() <= 2 * text.len(),
{
    let ws = crate::tokens::normalized_words(text);
    crate::matcher::lemma_words_len(text.map_values(|c: char| crate::text::fold_char(c)));
    lemma_kept_len(ws);
    crate::matcher::lemma_dedup_len(fingerprint_items(stemmed_tokens(text)));
}

/// The semantic similarity of an intent and an outcome: the Jaccard similarity of their
/// fingerprints, zero when either has none.
pub fn semantic_similarity(intent: &str, outcome: &str) -> (r: Ratio)
    requires
        2 * (intent@.len() + outcome@.len()) <= usize::MAX,
    ensures
        r == jaccard_of(
            dedup(fingerprint_items(stemmed_tokens(intent@))),
            dedup(fingerprint_items(stemmed_tokens(outcome@))),
        ),
{
    let left = semantic_fingerprint(intent);
    let right = semantic_fingerprint(outcome);
    proof {
        lemma_fingerprint_len(intent@);
        lemma_fingerprint_len(outcome@);
    }
    jaccard(&left, &right)
}

/// `m` occurs in `s` at position `i`.
pub open spec fn occurs_at(s: Seq<char>, m: Seq<char>, i: int) -> bool {
    s.subrange(i, i + m.len()) == m
}

/// The position of the first occurrence of `m` in `s`.
pub open spec fn is_first_occurrence(s: Seq<char>, m: Seq<char>, i: int) -> bool {
    &&& 0 <= i && i + m.len() <= s.len()
    &&& occurs_at(s, m, i)
    &&& forall|j: int| 0 <= j < i ==> !#[trigger] occurs_at(s, m, j)
}

/// A user message without what precedes the request marker (and the marker itself), trimmed.
pub open spec fn user_request(message: Seq<char>, marker: Seq<char>) -> Seq<char> {
    if exists|i: int| is_first_occurrence(message, marker, i) {
        let i = choose|i: int| is_first_occurrence(message, marker, i);
        trimmed(message.skip(i + marker.len()))
    } else {
        trimmed(message)
    }
}

fn matches_at(s: &Vec<char>, m: &Vec<char>, i: usize) -> (r: bool)
    requires
        i + m@.len() <= s@.len(),
    ensures
        r == occurs_at(s@, m@, i as int),
{
    let sl = s.len();
    let mut k: usize = 0;
    while k < m.len()
        invariant
            i + m@.len() <= s@.len(),
            sl == s@.len(),
            k <= m@.len(),
            forall|q: int| 0 <= q < k ==> s@[i + q] == m@[q],
        decreases m@.len() - k,
    {
        if s[i + k] != m[k] {
            assert(s@.subrange(i as int, i + m@.len())[k as int] != m@[k as int]);
            return false;
        }
        k += 1;
    }
    assert(s@.subrange(i as int, i + m@.len()) =~= m@);
    true
}

/// The request of a user message (see `user_request`); none when it is blank.
pub fn clean_user_message(message: &str, marker: &str) -> (r: Option<String>)
    ensures
        r is None <==> user_request(message@, marker@).len() == 0,
        r is Some ==> r->0@ == user_request(message@, marker@),
{
    let s = chars_of(message);
    let m = chars_of(marker);
    let mut found: Option<usize> = None;
    if m.len() <= s.len() {
        let last = s.len() - m.len();
        let mut i: usize = 0;
        let mut done = false;
        while !done
            invariant
                m@.len() <= s@.len(),
                last == s@.len() - m@.len(),
                s@ == message@,
                m@ == marker@,
                i <= last,
                forall|j: int| 0 <= j < i ==> !#[trigger] occurs_at(s@, m@, j),
                found is Some ==> is_first_occurrence(s@, m@, found->0 as int),
                done && found is None ==> forall|j: int| 0 <= j <= last ==> !#[trigger] occurs_at(s@, m@, j),
                !done ==> found is None,
            decreases last - i, (if done { 0int } else { 1int }),
        {
            if matches_at(&s, &m, i) {
                found = Some(i);
                done = true;
            } else if i == last {
                done = true;
            } else {
                i += 1;
            }
        }
        proof {
            if found is None {
                assert forall|j: int| !is_first_occurrence(s@, m@, j) by {
                    if is_first_occurrence(s@, m@, j) {
                        assert(j <= last);
                    }
                }
            }
        }
    } else {
        assert forall|j: int| !is_first_occurrence(s@, m@, j) by {}
    }
    let rest: Vec<char> = match found {
        Some(f) => {
            assert(is_first_occurrence(s@, m@, f as int));
            let mut out: Vec<char> = Vec::new();
            let start: usize = f + m.len();
            let mut k: usize = start;
            while k < s.len()
                invariant
                    start <= k <= s@.len(),
                    out@ == s@.subrange(start as int, k as int),
                decreases s@.len() - k,
            {
                out.push(s[k]);
                k += 1;
                assert(out@ =~= s@.subrange(start as int, k as int));
            }
            let ghost from = start as int;
            assert(out@ =~= s@.skip(from as int));
            out
        },
        None => s,
    };
    let trimmed_rest = crate::text::strip_ends(&rest, false);
    proof {
        match found {
            Some(f) => {
                let c = choose|c: int| is_first_occurrence(message@, marker@, c);
                if c < f {
                    assert(occurs_at(message@, marker@, c));
                } else if c > f {
                    assert(occurs_at(message@, marker@, f as int));
                }
            },
            None => {
                assert(!exists|i: int| is_first_occurrence(message@, marker@, i));
            },
        }
    }
    if trimmed_rest.len() == 0 {
        None
    } else {
        Some(string_of(&trimmed_rest))
    }
}

} // verus!
