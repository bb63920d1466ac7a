use vstd::prelude::*;

verus! {

/// How many times `v` occurs in `s`.
pub open spec fn count_of<T>(s: Seq<T>, v: T) -> nat
    decreases s.len(),
{
    if s.len() == 0 {
        0
    } else {
        count_of(s.drop_last(), v) + if s.last() == v {
            1nat
        } else {
            0nat
        }
    }
}

/// `b` is the first position among those whose entry of `counts` is largest.
pub open spec fn is_first_max(counts: Seq<int>, b: int) -> bool {
    &&& 0 <= b < counts.len()
    &&& forall|j: int| 0 <= j < counts.len() ==> counts[j] <= counts[b]
    &&& forall|j: int| 0 <= j < b ==> counts[j] < counts[b]
}

/// How many times each entry of `s` occurs in `s`.
pub open spec fn counts_of<T>(s: Seq<T>) -> Seq<int> {
    Seq::new(s.len(), |j: int| count_of(s, s[j]) as int)
}

/// The position of the plurality value of `s`: the first of the values that occur most often.
pub open spec fn plurality_index<T>(s: Seq<T>) -> int {
    choose|b: int| is_first_max(counts_of(s), b)
}

/// The plurality value of a non-empty `s`; a tie goes to the value seen first.
pub open spec fn plurality<T>(s: Seq<T>) -> T {
    s[plurality_index(s)]
}

pub proof fn lemma_first_max_unique(counts: Seq<int>, a: int, b: int)
    requires
        is_first_max(counts, a),
        is_first_max(counts, b),
    ensures
        a == b,
{
    if a < b {
        assert(counts[a] < counts[b]);
        assert(counts[b] <= counts[a]);
    } else if b < a {
        assert(counts[b] < counts[a]);
        assert(counts[a] <= counts[b]);
    }
}

/// The first position of a largest entry of `counts`.
pub fn first_max(counts: &Vec<usize>) -> (b: usize)
    requires
        counts@.len() > 0,
    ensures
        is_first_max(counts@.map_values(|c: usize| c as int), b as int),
{
    let ghost cs = counts@.map_values(|c: usize| c as int);
    let mut b: usize = 0;
    let mut i: usize = 1;
    while i < counts.len()
        invariant
            cs == counts@.map_values(|c: usize| c as int),
            1 <= i <= counts@.len(),
            b < i,
            forall|j: int| 0 <= j < i ==> cs[j] <= cs[b as int],
            forall|j: int| 0 <= j < b ==> cs[j] < cs[b as int],
        decreases counts@.len() - i,
    {
        if counts[i] > counts[b] {
            b = i;
        }
        i += 1;
    }
    b
}

pub proof fn lemma_count_step<T>(s: Seq<T>, j: int, v: T)
    requires
        0 <= j < s.len(),
    ensures
        count_of(s.take(j + 1), v) == count_of(s.take(j), v) + if s[j] == v {
            1nat
        } else {
            0nat
        },
{
    assert(s.take(j + 1).drop_last() =~= s.take(j));
}

pub proof fn lemma_count_le_len<T>(s: Seq<T>, v: T)
    ensures
        count_of(s, v) <= s.len(),
    decreases s.len(),
{
    if s.len() > 0 {
        lemma_count_le_len(s.drop_last(), v);
    }
}

} // verus!

verus! {

pub open spec fn texts(v: Seq<String>) -> Seq<Seq<char>> {
    v.map_values(|s: String| s@)
}

/// How many times the text `v` occurs in `s`.
pub fn count_text(s: &Vec<String>, v: &String) -> (r: usize)
    ensures
        r == count_of(texts(s@), v@),
{
    let ghost sv = texts(s@);
    let mut c: usize = 0;
    let mut i: usize = 0;
    while i < s.len()
        invariant
            sv == texts(s@),
            i <= s@.len(),
            c == count_of(sv.take(i as int), v@),
        decreases s@.len() - i,
    {
        proof {
            lemma_count_step(sv, i as int, v@);
            lemma_count_le_len(sv.take(i as int), v@);
        }
        if s[i] == *v {
            c += 1;
        }
        i += 1;
    }
    assert(sv.take(s@.len() as int) =~= sv);
    c
}

/// The position of the plurality text of a non-empty `s`.
pub fn plurality_text_index(s: &Vec<String>) -> (b: usize)
    requires
        s@.len() > 0,
    ensures
        b as int == plurality_index(texts(s@)),
        b < s@.len(),
{
    let ghost sv = texts(s@);
    let mut counts: Vec<usize> = Vec::new();
    let mut j: usize = 0;
    while j < s.len()
        invariant
            sv == texts(s@),
            j <= s@.len(),
            counts@.len() == j,
            forall|k: int| 0 <= k < j ==> counts@[k] as int == counts_of(sv)[k],
        decreases s@.len() - j,
    {
        let c = count_text(s, &s[j]);
        counts.push(c);
        j += 1;
    }
    let b = first_max(&counts);
    proof {
        assert(counts@.map_values(|c: usize| c as int) =~= counts_of(sv));
        lemma_first_max_unique(counts_of(sv), b as int, plurality_index(sv));
    }
    b
}

} // verus!

verus! {

use crate::outcome::{Outcome, OutcomeView};

pub open spec fn outcome_views(v: Seq<Outcome>) -> Seq<OutcomeView> {
    v.map_values(|o: Outcome| o@)
}

pub fn count_outcome(s: &Vec<Outcome>, v: &Outcome) -> (r: usize)
    ensures
        r == count_of(outcome_views(s@), v@),
{
    let ghost sv = outcome_views(s@);
    let mut c: usize = 0;
    let mut i: usize = 0;
    while i < s.len()
        invariant
            sv == outcome_views(s@),
            i <= s@.len(),
            c == count_of(sv.take(i as int), v@),
        decreases s@.len() - i,
    {
        proof {
            lemma_count_step(sv, i as int, v@);
            lemma_count_le_len(sv.take(i as int), v@);
        }
        if s[i].same_as(v) {
            c += 1;
        }
        i += 1;
    }
    assert(sv.take(s@.len() as int) =~= sv);
    c
}

/// The dominant outcome of `s` (see `dominant_of`).
pub fn dominant_outcome(s: &Vec<Outcome>) -> (r: Outcome)
    ensures
        r@ == crate::compiler::dominant_of(outcome_views(s@)),
{
    let ghost sv = outcome_views(s@);
    if s.len() == 0 {
        return Outcome::Unknown;
    }
    let mut counts: Vec<usize> = Vec::new();
    let mut j: usize = 0;
    while j < s.len()
        invariant
            sv == outcome_views(s@),
            j <= s@.len(),
            counts@.len() == j,
            forall|k: int| 0 <= k < j ==> counts@[k] as int == counts_of(sv)[k],
        decreases s@.len() - j,
    {
        let c = count_outcome(s, &s[j]);
        counts.push(c);
        j += 1;
    }
    let b = first_max(&counts);
    proof {
        assert(counts@.map_values(|c: usize| c as int) =~= counts_of(sv));
        lemma_first_max_unique(counts_of(sv), b as int, plurality_index(sv));
    }
    let mut i: usize = 0;
    while i < s.len()
        invariant
            sv == outcome_views(s@),
            counts@.len() == s@.len(),
            forall|k: int| 0 <= k < s@.len() ==> counts@[k] as int == counts_of(sv)[k],
            b < s@.len(),
            b as int == plurality_index(sv),
            i <= s@.len(),
            forall|k: int| 0 <= k < i ==> !(count_of(sv, #[trigger] sv[k]) == count_of(sv, sv[b as int]) && sv[k] != sv[b as int]),
        decreases s@.len() - i,
    {
        if counts[i] == counts[b] && !s[i].same_as(&s[b]) {
            assert(count_of(sv, sv[i as int]) == count_of(sv, sv[b as int]) && sv[i as int] != sv[b as int]);
            return Outcome::Mixed;
        }
        i += 1;
    }
    s[b].copy()
}

} // verus!
