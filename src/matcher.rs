use vstd::prelude::*;

use crate::compiler::{contains_text, dedup, dedup_texts};
use crate::outcome::{Outcome, OutcomeView};
use crate::text::{chars_of, seq_lt, string_of};
use crate::tokens::{plain_tokenize, plain_tokens};
use crate::vote::{count_of, texts};

verus! {

/// A non-negative fraction `num / den`; a zero `den` never occurs.
#[derive(Clone, Copy, Debug, PartialEq, Eq, Structural)]
pub struct Ratio {
    pub num: usize,
    pub den: usize,
}

pub open spec fn ratio_le(a: Ratio, b: Ratio) -> bool {
    (a.num as int) * (b.den as int) <= (b.num as int) * (a.den as int)
}

/// How many entries of `a` occur in `b`.
pub open spec fn shared_count(a: Seq<Seq<char>>, b: Seq<Seq<char>>) -> nat
    decreases a.len(),
{
    if a.len() == 0 {
        0
    } else {
        shared_count(a.drop_last(), b) + if b.contains(a.last()) {
            1nat
        } else {
            0nat
        }
    }
}

/// The Jaccard similarity of two token lists as a fraction: shared distinct tokens over all
/// distinct tokens; `0 / 1` when either side has none.
pub open spec fn jaccard_of(a: Seq<Seq<char>>, b: Seq<Seq<char>>) -> Ratio {
    let da = dedup(a);
    let db = dedup(b);
    if da.len() == 0 || db.len() == 0 {
        Ratio { num: 0, den: 1 }
    } else {
        let shared = shared_count(da, db);
        Ratio { num: shared as usize, den: (da.len() + db.len() - shared) as usize }
    }
}

pub proof fn lemma_shared_le(a: Seq<Seq<char>>, b: Seq<Seq<char>>)
    ensures
        shared_count(a, b) <= a.len(),
    decreases a.len(),
{
    if a.len() > 0 {
        lemma_shared_le(a.drop_last(), b);
    }
}

pub proof fn lemma_dedup_len(s: Seq<Seq<char>>)
    ensures
        dedup(s).len() <= s.len(),
        s.len() > 0 ==> dedup(s).len() > 0,
    decreases s.len(),
{
    if s.len() > 0 {
        lemma_dedup_len(s.drop_last());
    }
}

/// The Jaccard similarity of two token lists (see `jaccard_of`).
pub fn jaccard(a: &Vec<String>, b: &Vec<String>) -> (r: Ratio)
    requires
        a@.len() + b@.len() <= usize::MAX,
    ensures
        r == jaccard_of(texts(a@), texts(b@)),
        r.den > 0,
{
    let da = dedup_texts(a);
    let db = dedup_texts(b);
    proof {
        lemma_dedup_len(texts(a@));
        lemma_dedup_len(texts(b@));
    }
    if da.len() == 0 || db.len() == 0 {
        return Ratio { num: 0, den: 1 };
    }
    let ghost dav = texts(da@);
    let ghost dbv = texts(db@);
    let mut shared: usize = 0;
    let mut i: usize = 0;
    while i < da.len()
        invariant
            dav == texts(da@),
            dbv == texts(db@),
            i <= da@.len(),
            shared == shared_count(dav.take(i as int), dbv),
            shared <= i,
        decreases da@.len() - i,
    {
        assert(dav.take(i + 1).drop_last() =~= dav.take(i as int));
        assert(dav.take(i + 1).last() == da@[i as int]@);
        if contains_text(&db, &da[i]) {
            shared += 1;
        }
        i += 1;
    }
    assert(dav.take(da@.len() as int) =~= dav);
    proof {
        lemma_shared_le(dav, dbv);
    }
    let union = da.len() + db.len() - shared;
    Ratio { num: shared, den: union }
}

/// Jaccard similarity of two token lists without a token in common is zero.
pub proof fn lemma_jaccard_disjoint(a: Seq<Seq<char>>, b: Seq<Seq<char>>)
    requires
        forall|x: Seq<char>| a.contains(x) ==> !b.contains(x),
    ensures
        jaccard_of(a, b).num == 0,
        a.len() + b.len() <= usize::MAX ==> jaccard_of(a, b).den > 0,
{
    lemma_dedup_len(a);
    lemma_dedup_len(b);
    lemma_dedup_contains(a);
    lemma_dedup_contains(b);
    lemma_shared_none(dedup(a), dedup(b));
}

proof fn lemma_shared_none(a: Seq<Seq<char>>, b: Seq<Seq<char>>)
    requires
        forall|x: Seq<char>| a.contains(x) ==> !b.contains(x),
    ensures
        shared_count(a, b) == 0,
    decreases a.len(),
{
    if a.len() > 0 {
        let p = a.drop_last();
        assert forall|x: Seq<char>| p.contains(x) implies !b.contains(x) by {
            let k = choose|k: int| 0 <= k < p.len() && p[k] == x;
            assert(a[k] == x);
        }
        lemma_shared_none(p, b);
        assert(a.contains(a.last())) by {
            assert(a[a.len() - 1] == a.last());
        }
    }
}

/// What `dedup` keeps is what was there.
pub proof fn lemma_dedup_contains(s: Seq<Seq<char>>)
    ensures
        forall|x: Seq<char>| #[trigger] dedup(s).contains(x) <==> s.contains(x),
    decreases s.len(),
{
    if s.len() > 0 {
        let p = s.drop_last();
        lemma_dedup_contains(p);
        let dp = dedup(p);
        let ds = dedup(s);
        assert forall|x: Seq<char>| s.contains(x) implies #[trigger] ds.contains(x) by {
            let k = choose|k: int| 0 <= k < s.len() && s[k] == x;
            if k < s.len() - 1 {
                assert(p[k] == x);
                assert(p.contains(x));
                assert(dp.contains(x));
                let j = choose|j: int| 0 <= j < dp.len() && dp[j] == x;
                if !dp.contains(s.last()) {
                    assert(ds[j] == x);
                }
            } else {
                if !dp.contains(s.last()) {
                    assert(ds[dp.len() as int] == x);
                }
            }
        }
        assert forall|x: Seq<char>| #[trigger] ds.contains(x) implies s.contains(x) by {
            let k = choose|k: int| 0 <= k < ds.len() && ds[k] == x;
            if k < dp.len() {
                assert(dp[k] == x);
                assert(dp.contains(x));
                assert(p.contains(x));
                let j = choose|j: int| 0 <= j < p.len() && p[j] == x;
                assert(s[j] == x);
            } else {
                assert(s[s.len() - 1] == x);
            }
        }
    }
}

proof fn lemma_shared_all(a: Seq<Seq<char>>, b: Seq<Seq<char>>)
    requires
        forall|x: Seq<char>| a.contains(x) ==> b.contains(x),
    ensures
        shared_count(a, b) == a.len(),
    decreases a.len(),
{
    if a.len() > 0 {
        let p = a.drop_last();
        assert forall|x: Seq<char>| p.contains(x) implies b.contains(x) by {
            let k = choose|k: int| 0 <= k < p.len() && p[k] == x;
            assert(a[k] == x);
        }
        lemma_shared_all(p, b);
        assert(a.contains(a.last())) by {
            assert(a[a.len() - 1] == a.last());
        }
    }
}

pub proof fn lemma_dedup_no_duplicates(s: Seq<Seq<char>>)
    ensures
        dedup(s).no_duplicates(),
    decreases s.len(),
{
    if s.len() > 0 {
        let p = s.drop_last();
        lemma_dedup_no_duplicates(p);
        let dp = dedup(p);
        if !dp.contains(s.last()) {
            let ds = dp.push(s.last());
            assert forall|i: int, j: int| 0 <= i < ds.len() && 0 <= j < ds.len() && i != j implies ds[i] != ds[j] by {
                if i == dp.len() && j < dp.len() {
                    assert(dp[j] == ds[j]);
                    if ds[i] == ds[j] {
                        assert(dp.contains(s.last()));
                    }
                } else if j == dp.len() && i < dp.len() {
                    assert(dp[i] == ds[i]);
                    if ds[i] == ds[j] {
                        assert(dp.contains(s.last()));
                    }
                }
            }
        }
    }
}

/// Jaccard similarity of two token lists with the same non-empty set of tokens is one.
pub proof fn lemma_jaccard_identical(a: Seq<Seq<char>>, b: Seq<Seq<char>>)
    requires
        a.len() > 0,
        forall|x: Seq<char>| a.contains(x) <==> b.contains(x),
    ensures
        jaccard_of(a, b).num == jaccard_of(a, b).den,
        a.len() + b.len() <= usize::MAX ==> jaccard_of(a, b).den > 0,
{
    let da = dedup(a);
    let db = dedup(b);
    lemma_dedup_len(a);
    lemma_dedup_len(b);
    lemma_dedup_contains(a);
    lemma_dedup_contains(b);
    lemma_dedup_no_duplicates(a);
    lemma_dedup_no_duplicates(b);
    assert(a.contains(a[0]));
    assert(b.len() > 0);
    lemma_shared_all(da, db);
    assert(da.to_set() =~= db.to_set()) by {
        assert forall|x: Seq<char>| da.to_set().contains(x) <==> db.to_set().contains(x) by {
            assert(da.to_set().contains(x) <==> da.contains(x));
            assert(db.to_set().contains(x) <==> db.contains(x));
        }
    }
    da.unique_seq_to_set();
    db.unique_seq_to_set();
}

} // verus!

verus! {

pub proof fn lemma_words_len(s: Seq<char>)
    ensures
        crate::text::words(s).len() <= s.len(),
    decreases s.len(),
{
    if s.len() > 0 {
        lemma_words_len(s.drop_last());
        let ws = crate::text::words(s.drop_last());
        crate::text::lemma_words_are_words(s.drop_last());
        assert(crate::text::words(s).len() <= ws.len() + 1);
    }
}

/// The Jaccard fraction of the words of two texts that fit in memory together has a positive
/// denominator.
pub proof fn lemma_token_jaccard_den(s1: Seq<char>, s2: Seq<char>)
    requires
        s1.len() + s2.len() <= usize::MAX,
    ensures
        jaccard_of(plain_tokens(s1), plain_tokens(s2)).den > 0,
{
    let a = plain_tokens(s1);
    let b = plain_tokens(s2);
    lemma_words_len(s1.map_values(|c: char| crate::tokens::token_char(c)));
    lemma_words_len(s2.map_values(|c: char| crate::tokens::token_char(c)));
    lemma_dedup_len(a);
    lemma_dedup_len(b);
    lemma_shared_le(dedup(a), dedup(b));
}

/// The token similarity of two texts: the Jaccard similarity of their words.
pub fn token_similarity(left: &str, right: &str) -> (r: Ratio)
    requires
        left@.len() + right@.len() <= usize::MAX,
    ensures
        r == jaccard_of(plain_tokens(left@), plain_tokens(right@)),
        r.den > 0,
{
    let a = plain_tokenize(left);
    let b = plain_tokenize(right);
    proof {
        lemma_words_len(left@.map_values(|c: char| crate::tokens::token_char(c)));
        lemma_words_len(right@.map_values(|c: char| crate::tokens::token_char(c)));
    }
    jaccard(&a, &b)
}

/// The best Jaccard similarity between the words of a test and of an evidence reference, over
/// all pairs; `0 / 1` when either list is empty.
pub fn evidence_affinity(tests: &Vec<String>, refs: &Vec<String>) -> (r: Ratio)
    requires
        forall|i: int, j: int| 0 <= i < tests@.len() && 0 <= j < refs@.len() ==> (#[trigger] tests@[i])@.len() + (#[trigger] refs@[j])@.len() <= usize::MAX,
    ensures
        r.den > 0,
        tests@.len() == 0 || refs@.len() == 0 ==> r == (Ratio { num: 0, den: 1 }),
        tests@.len() > 0 && refs@.len() > 0 ==> exists|i: int, j: int| 0 <= i < tests@.len() && 0 <= j < refs@.len() && r == jaccard_of(
            plain_tokens(tests@[i]@),
            plain_tokens(refs@[j]@),
        ),
        forall|i: int, j: int| 0 <= i < tests@.len() && 0 <= j < refs@.len() ==> ratio_le(
            jaccard_of(plain_tokens(#[trigger] tests@[i]@), plain_tokens(#[trigger] refs@[j]@)),
            r,
        ),
{
    let mut best = Ratio { num: 0, den: 1 };
    if tests.len() == 0 || refs.len() == 0 {
        return best;
    }
    let mut found = false;
    let mut i: usize = 0;
    while i < tests.len()
        invariant
            forall|i: int, j: int| 0 <= i < tests@.len() && 0 <= j < refs@.len() ==> (#[trigger] tests@[i])@.len() + (#[trigger] refs@[j])@.len() <= usize::MAX,
            refs@.len() > 0,
            i <= tests@.len(),
            best.den > 0,
            found ==> exists|a: int, b: int| 0 <= a < tests@.len() && 0 <= b < refs@.len() && best == jaccard_of(
                plain_tokens(tests@[a]@),
                plain_tokens(refs@[b]@),
            ),
            !found ==> best == (Ratio { num: 0, den: 1 }),
            i > 0 ==> found,
            forall|a: int, b: int| 0 <= a < i && 0 <= b < refs@.len() ==> ratio_le(
                jaccard_of(plain_tokens(#[trigger] tests@[a]@), plain_tokens(#[trigger] refs@[b]@)),
                best,
            ),
        decreases tests@.len() - i,
    {
        let mut j: usize = 0;
        while j < refs.len()
            invariant
                forall|i: int, j: int| 0 <= i < tests@.len() && 0 <= j < refs@.len() ==> (#[trigger] tests@[i])@.len() + (#[trigger] refs@[j])@.len() <= usize::MAX,
                i < tests@.len(),
                j <= refs@.len(),
                best.den > 0,
                found ==> exists|a: int, b: int| 0 <= a < tests@.len() && 0 <= b < refs@.len() && best == jaccard_of(
                    plain_tokens(tests@[a]@),
                    plain_tokens(refs@[b]@),
                ),
                !found ==> best == (Ratio { num: 0, den: 1 }),
                j > 0 ==> found,
                forall|a: int, b: int| 0 <= a < i && 0 <= b < refs@.len() ==> ratio_le(
                    jaccard_of(plain_tokens(#[trigger] tests@[a]@), plain_tokens(#[trigger] refs@[b]@)),
                    best,
                ),
                forall|b: int| 0 <= b < j ==> ratio_le(
                    jaccard_of(plain_tokens(tests@[i as int]@), plain_tokens(#[trigger] refs@[b]@)),
                    best,
                ),
            decreases refs@.len() - j,
        {
            let s = token_similarity(tests[i].as_str(), refs[j].as_str());
            proof {
                assert(usize::MAX as int * usize::MAX as int <= u128::MAX) by (nonlinear_arith)
                    requires usize::MAX <= u64::MAX;
                assert(s.num as int * best.den as int <= usize::MAX as int * usize::MAX as int) by (nonlinear_arith)
                    requires s.num <= usize::MAX, best.den <= usize::MAX;
                assert(best.num as int * s.den as int <= usize::MAX as int * usize::MAX as int) by (nonlinear_arith)
                    requires best.num <= usize::MAX, s.den <= usize::MAX;
            }
            let lhs = (s.num as u128) * (best.den as u128);
            let rhs = (best.num as u128) * (s.den as u128);
            if !found || lhs > rhs {
                proof {
                    // the earlier best is no greater than the new one
                    let old_best = best;
                    if found {
                        assert(ratio_le(old_best, s));
                    }
                }
                let ghost prev = best;
                best = s;
                found = true;
                proof {
                    assert forall|a: int, b: int| 0 <= a < i && 0 <= b < refs@.len() implies ratio_le(
                        jaccard_of(plain_tokens(#[trigger] tests@[a]@), plain_tokens(#[trigger] refs@[b]@)),
                        best,
                    ) by {
                        let x = jaccard_of(plain_tokens(tests@[a]@), plain_tokens(refs@[b]@));
                        lemma_token_jaccard_den(tests@[a]@, refs@[b]@);
                        lemma_ratio_le_trans(x, prev, s);
                    }
                    assert forall|b: int| 0 <= b < j + 1 implies ratio_le(
                        jaccard_of(plain_tokens(tests@[i as int]@), plain_tokens(#[trigger] refs@[b]@)),
                        best,
                    ) by {
                        if b < j {
                            let x = jaccard_of(plain_tokens(tests@[i as int]@), plain_tokens(refs@[b]@));
                            lemma_token_jaccard_den(tests@[i as int]@, refs@[b]@);
                            lemma_ratio_le_trans(x, prev, s);
                        } else {
                            lemma_ratio_le_refl(s);
                        }
                    }
                }
            } else {
                assert(ratio_le(s, best));
            }
            j += 1;
        }
        i += 1;
    }
    best
}

pub proof fn lemma_ratio_le_refl(a: Ratio)
    ensures
        ratio_le(a, a),
{
}

/// Needs positive denominators when `prev` is not known to be `0 / 1`.
pub proof fn lemma_ratio_le_trans(x: Ratio, prev: Ratio, s: Ratio)
    requires
        x.den > 0,
        prev.den > 0,
        s.den > 0,
        ratio_le(x, prev),
        ratio_le(prev, s),
    ensures
        ratio_le(x, s),
{
    let (a, b, c, d, e, f) = (x.num as int, x.den as int, prev.num as int, prev.den as int, s.num as int, s.den as int);
    assert(a * d <= c * b);
    assert(c * f <= e * d);
    assert(a * d * f <= c * b * f) by (nonlinear_arith)
        requires a * d <= c * b, f > 0;
    assert(c * f * b <= e * d * b) by (nonlinear_arith)
        requires c * f <= e * d, b > 0;
    assert(a * f * d <= e * b * d) by (nonlinear_arith)
        requires a * d * f <= c * b * f, c * f * b <= e * d * b;
    assert(a * f <= e * b) by (nonlinear_arith)
        requires a * f * d <= e * b * d, d > 0;
}

} // verus!

verus! {

/// Sum over the tokens of `a` of how often each occurs in `b`: the dot product of the two
/// term-frequency maps.
pub open spec fn dot_count(a: Seq<Seq<char>>, b: Seq<Seq<char>>) -> nat
    decreases a.len(),
{
    if a.len() == 0 {
        0
    } else {
        dot_count(a.drop_last(), b) + count_of(b, a.last())
    }
}

/// The parts of the cosine similarity of two term-frequency maps: their dot product and the
/// squared norm of each. The similarity is `dot / sqrt(left_norm * right_norm)`, zero when
/// either norm is zero.
#[derive(Clone, Copy, Debug, PartialEq, Eq, Structural)]
pub struct TermOverlap {
    pub dot: u128,
    pub left_norm: u128,
    pub right_norm: u128,
}

proof fn lemma_dot_bound(a: Seq<Seq<char>>, b: Seq<Seq<char>>)
    ensures
        dot_count(a, b) <= a.len() * b.len(),
    decreases a.len(),
{
    if a.len() > 0 {
        lemma_dot_bound(a.drop_last(), b);
        crate::vote::lemma_count_le_len(b, a.last());
        assert((a.len() - 1) * b.len() + b.len() == a.len() * b.len()) by (nonlinear_arith);
    }
}

fn dot_product(a: &Vec<String>, b: &Vec<String>) -> (r: u128)
    ensures
        r == dot_count(texts(a@), texts(b@)),
{
    let ghost av = texts(a@);
    let ghost bv = texts(b@);
    let bl = b.len();
    assert(bv.len() == bl);
    let mut d: u128 = 0;
    let mut i: usize = 0;
    while i < a.len()
        invariant
            av == texts(a@),
            bv == texts(b@),
            i <= a@.len(),
            d == dot_count(av.take(i as int), bv),
            bv.len() == bl,
        decreases a@.len() - i,
    {
        assert(av.take(i + 1).drop_last() =~= av.take(i as int));
        assert(av.take(i + 1).last() == a@[i as int]@);
        let c = crate::vote::count_text(b, &a[i]);
        proof {
            lemma_dot_bound(av.take(i + 1), bv);
            assert((i + 1) * bv.len() <= usize::MAX as int * usize::MAX as int) by (nonlinear_arith)
                requires i + 1 <= usize::MAX, bv.len() <= usize::MAX;
            assert(usize::MAX as int * usize::MAX as int <= u128::MAX) by (nonlinear_arith)
                requires usize::MAX <= u64::MAX;
        }
        d = d + c as u128;
        i += 1;
    }
    assert(av.take(a@.len() as int) =~= av);
    d
}

/// The term-frequency overlap of the words of two texts.
pub fn term_overlap(left: &str, right: &str) -> (r: TermOverlap)
    ensures
        r.dot == dot_count(plain_tokens(left@), plain_tokens(right@)),
        r.left_norm == dot_count(plain_tokens(left@), plain_tokens(left@)),
        r.right_norm == dot_count(plain_tokens(right@), plain_tokens(right@)),
{
    let a = plain_tokenize(left);
    let b = plain_tokenize(right);
    TermOverlap { dot: dot_product(&a, &b), left_norm: dot_product(&a, &a), right_norm: dot_product(&b, &b) }
}

/// The text a trigger and an invariant are matched by: both, with a space between.
pub fn match_text(trigger: &str, inv: &str) -> (r: String)
    ensures
        r@ == trigger@ + " "@ + inv@,
{
    let mut cs = chars_of(trigger);
    cs.push(' ');
    let rest = chars_of(inv);
    let mut i: usize = 0;
    let ghost start = cs@;
    while i < rest.len()
        invariant
            i <= rest@.len(),
            cs@ == start + rest@.take(i as int),
        decreases rest@.len() - i,
    {
        cs.push(rest[i]);
        i += 1;
        assert(cs@ =~= start + rest@.take(i as int));
    }
    proof {
        reveal_strlit(" ");
        assert(rest@.take(rest@.len() as int) =~= rest@);
        assert(cs@ =~= trigger@ + " "@ + inv@);
    }
    string_of(&cs)
}

/// How well a pattern's outcome suits the outcome asked for.
#[derive(Clone, Copy, Debug, PartialEq, Eq, Structural)]
pub enum Affinity {
    /// The same outcome (counts 1).
    Full,
    /// Nothing asked for, or either side mixed or unknown (counts one half).
    Half,
    /// A different outcome (counts 0).
    Zero,
}

pub open spec fn is_vague(o: OutcomeView) -> bool {
    o is Mixed || o is Unknown
}

pub open spec fn affinity_of(desired: Option<OutcomeView>, pattern: OutcomeView) -> Affinity {
    match desired {
        None => Affinity::Half,
        Some(d) => if is_vague(d) || is_vague(pattern) {
            Affinity::Half
        } else if d == pattern {
            Affinity::Full
        } else {
            Affinity::Zero
        },
    }
}

/// The affinity of a pattern's outcome to the outcome asked for (see `affinity_of`).
pub fn outcome_affinity(desired: Option<&Outcome>, pattern: &Outcome) -> (r: Affinity)
    ensures
        r == affinity_of(
            match desired {
                Some(d) => Some(d@),
                None => None,
            },
            pattern@,
        ),
{
    match desired {
        None => Affinity::Half,
        Some(d) => {
            let vague_d = match d {
                Outcome::Mixed => true,
                Outcome::Unknown => true,
                _ => false,
            };
            let vague_p = match pattern {
                Outcome::Mixed => true,
                Outcome::Unknown => true,
                _ => false,
            };
            if vague_d || vague_p {
                Affinity::Half
            } else if d.same_as(pattern) {
                Affinity::Full
            } else {
                Affinity::Zero
            }
        },
    }
}

impl Affinity {
    /// The affinity in halves: 2, 1 or 0.
    pub fn halves(&self) -> (r: u8)
        ensures
            *self == Affinity::Full ==> r == 2,
            *self == Affinity::Half ==> r == 1,
            *self == Affinity::Zero ==> r == 0,
    {
        match self {
            Affinity::Full => 2,
            Affinity::Half => 1,
            Affinity::Zero => 0,
        }
    }
}

} // verus!
