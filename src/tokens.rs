use vstd::prelude::*;

use crate::vote::texts;
use crate::text::{
    ascii_lower, chars_eq, chars_of, copy_chars, fold_char, split_words, string_of, strip_ends, unquoted,
    views, words,
};

verus! {

/// Whether `char::is_alphanumeric` accepts `c`: a Unicode letter or digit.
pub uninterp spec fn alphanumeric_of(c: char) -> bool;

/// Relies on `char::is_alphanumeric`: whether `c` has the Unicode property Alphabetic or
/// Numeric.
#[verifier::external_body]
fn is_alphanumeric(c: char) -> (r: bool)
    ensures
        r == alphanumeric_of(c),
{
    c.is_alphanumeric()
}

/// What tokenizing makes of one character: a letter or digit (ASCII ones lower-cased), or a
/// space.
pub open spec fn token_char(c: char) -> char {
    if alphanumeric_of(c) {
        ascii_lower(c)
    } else {
        ' '
    }
}

fn token_char_exec(c: char) -> (r: char)
    ensures
        r == token_char(c),
{
    if is_alphanumeric(c) {
        if 'A' <= c && c <= 'Z' {
            let b: u8 = c as u8;
            assert(b as u32 == c as u32);
            ((b + 32) as u8) as char
        } else {
            c
        }
    } else {
        ' '
    }
}

/// The tokens of `text`: its runs of letters and digits, ASCII ones lower-cased, in order.
pub open spec fn plain_tokens(text: Seq<char>) -> Seq<Seq<char>> {
    words(text.map_values(|c: char| token_char(c)))
}

/// The words of `text` once normalized: runs of ASCII letters and digits, lower-cased.
pub open spec fn normalized_words(text: Seq<char>) -> Seq<Seq<char>> {
    words(text.map_values(|c: char| fold_char(c)))
}

/// `t` without `suffix` at its end, when it ends so.
pub open spec fn ends_with(t: Seq<char>, suffix: Seq<char>) -> bool {
    suffix.len() <= t.len() && t.skip(t.len() - suffix.len()) == suffix
}

/// The crude stem of a token: apostrophes at either end dropped; then, for more than three
/// characters, the first of `ing`, `ed`, `es`, `s` that ends it removed, and a doubled last
/// letter of what is left (when that is longer than two) made single.
pub open spec fn stem(token: Seq<char>) -> Seq<char> {
    let t = unquoted(token);
    if t.len() <= 3 {
        t
    } else {
        let s = if ends_with(t, seq!['i', 'n', 'g']) {
            t.take(t.len() - 3)
        } else if ends_with(t, seq!['e', 'd']) {
            t.take(t.len() - 2)
        } else if ends_with(t, seq!['e', 's']) {
            t.take(t.len() - 2)
        } else if ends_with(t, seq!['s']) {
            t.take(t.len() - 1)
        } else {
            t
        };
        if s.len() > 2 && s[s.len() - 1] == s[s.len() - 2] {
            s.drop_last()
        } else {
            s
        }
    }
}

fn ends_with_exec(t: &Vec<char>, suffix: &Vec<char>) -> (r: bool)
    ensures
        r == ends_with(t@, suffix@),
{
    if suffix.len() > t.len() {
        return false;
    }
    let tl = t.len();
    let off = tl - suffix.len();
    let mut i: usize = 0;
    while i < suffix.len()
        invariant
            off + suffix@.len() == t@.len(),
            tl == t@.len(),
            i <= suffix@.len(),
            forall|k: int| 0 <= k < i ==> t@[off + k] == suffix@[k],
        decreases suffix@.len() - i,
    {
        assert(off + i < t@.len());
        if t[off + i] != suffix[i] {
            assert(t@.skip(off as int)[i as int] != suffix@[i as int]);
            return false;
        }
        i += 1;
    }
    assert(t@.skip(off as int) =~= suffix@);
    true
}

fn take_chars(t: &Vec<char>, n: usize) -> (r: Vec<char>)
    requires
        n <= t@.len(),
    ensures
        r@ == t@.take(n as int),
{
    let mut out: Vec<char> = Vec::new();
    let mut i: usize = 0;
    while i < n
        invariant
            n <= t@.len(),
            i <= n,
            out@ == t@.take(i as int),
        decreases n - i,
    {
        out.push(t[i]);
        i += 1;
        assert(out@ =~= t@.take(i as int));
    }
    out
}

fn stem_chars(token: &Vec<char>) -> (r: Vec<char>)
    ensures
        r@ == stem(token@),
{
    let t = strip_ends(token, true);
    if t.len() <= 3 {
        return t;
    }
    let ing: Vec<char> = vec!['i', 'n', 'g'];
    let ed: Vec<char> = vec!['e', 'd'];
    let es: Vec<char> = vec!['e', 's'];
    let s1: Vec<char> = vec!['s'];
    assert(ing@ =~= seq!['i', 'n', 'g']);
    assert(ed@ =~= seq!['e', 'd']);
    assert(es@ =~= seq!['e', 's']);
    assert(s1@ =~= seq!['s']);
    let mut s = if ends_with_exec(&t, &ing) {
        take_chars(&t, t.len() - 3)
    } else if ends_with_exec(&t, &ed) {
        take_chars(&t, t.len() - 2)
    } else if ends_with_exec(&t, &es) {
        take_chars(&t, t.len() - 2)
    } else if ends_with_exec(&t, &s1) {
        take_chars(&t, t.len() - 1)
    } else {
        t
    };
    let n = s.len();
    if n > 2 && s[n - 1] == s[n - 2] {
        s.pop();
    }
    s
}

/// The stem of `token` (see `stem`): `running` gives `run`, `boxes` gives `box`.
pub fn stem_token(token: &str) -> (r: String)
    ensures
        r@ == stem(token@),
{
    let cs = chars_of(token);
    let s = stem_chars(&cs);
    string_of(&s)
}

/// The words left out when texts are compared for meaning.
pub open spec fn stopwords() -> Seq<Seq<char>> {
    seq![
        "a"@, "an"@, "and"@, "are"@, "as"@, "at"@, "be"@, "by"@, "for"@, "from"@, "has"@,
        "have"@, "in"@, "is"@, "it"@, "its"@, "of"@, "on"@, "or"@, "that"@, "the"@, "their"@,
        "this"@, "to"@, "was"@, "were"@, "will"@, "with"@, "you"@, "your"@, "please"@, "help"@,
        "make"@, "use"@, "do"@, "does"@, "did"@, "can"@, "could"@, "should"@, "would"@,
    ]
}

fn stopword_list() -> (r: Vec<&'static str>)
    ensures
        r@.map_values(|s: &str| s@) == stopwords(),
{
    let v: Vec<&'static str> = vec![
        "a", "an", "and", "are", "as", "at", "be", "by", "for", "from", "has", "have", "in", "is",
        "it", "its", "of", "on", "or", "that", "the", "their", "this", "to", "was", "were", "will",
        "with", "you", "your", "please", "help", "make", "use", "do", "does", "did", "can",
        "could", "should", "would",
    ];
    assert(v@.map_values(|s: &str| s@) =~= stopwords());
    v
}

fn is_stopword_chars(token: &Vec<char>) -> (r: bool)
    ensures
        r == stopwords().contains(token@),
{
    let list = stopword_list();
    let ghost sw = stopwords();
    let mut i: usize = 0;
    while i < list.len()
        invariant
            list@.map_values(|s: &str| s@) == sw,
            sw == stopwords(),
            i <= list@.len(),
            forall|k: int| 0 <= k < i ==> sw[k] != token@,
        decreases list@.len() - i,
    {
        let w = chars_of(list[i]);
        assert(sw[i as int] == list@[i as int]@);
        if chars_eq(&w, token) {
            assert(sw.contains(token@));
            return true;
        }
        i += 1;
    }
    assert(!sw.contains(token@)) by {
        if sw.contains(token@) {
            let k = choose|k: int| 0 <= k < sw.len() && sw[k] == token@;
        }
    }
    false
}

/// Whether `token` is one of the stopwords.
pub fn is_stopword(token: &str) -> (r: bool)
    ensures
        r == stopwords().contains(token@),
{
    let cs = chars_of(token);
    is_stopword_chars(&cs)
}

/// The stems of `ws` in order, leaving out those that are empty or stopwords.
pub open spec fn kept_stems(ws: Seq<Seq<char>>) -> Seq<Seq<char>>
    decreases ws.len(),
{
    if ws.len() == 0 {
        seq![]
    } else {
        let rest = kept_stems(ws.drop_last());
        let t = stem(ws.last());
        if t.len() > 0 && !stopwords().contains(t) {
            rest.push(t)
        } else {
            rest
        }
    }
}

/// The stemmed tokens of a text: the words of its normalized form, stemmed, without empty
/// stems and stopwords.
pub open spec fn stemmed_tokens(text: Seq<char>) -> Seq<Seq<char>> {
    kept_stems(normalized_words(text))
}

fn to_strings(ws: &Vec<Vec<char>>) -> (r: Vec<String>)
    ensures
        texts(r@) == views(ws@),
{
    let mut out: Vec<String> = Vec::new();
    let mut i: usize = 0;
    while i < ws.len()
        invariant
            i <= ws@.len(),
            texts(out@) == views(ws@.take(i as int)),
        decreases ws@.len() - i,
    {
        let ghost before = out@;
        let w = string_of(&ws[i]);
        out.push(w);
        assert(out@ == before.push(w));
        assert(views(ws@.take(i + 1)) =~= views(ws@.take(i as int)).push(ws@[i as int]@));
        assert(texts(out@) =~= texts(before).push(w@));
        i += 1;
    }
    assert(ws@.take(ws@.len() as int) =~= ws@);
    out
}

pub fn fold_chars(cs: &Vec<char>) -> (r: Vec<char>)
    ensures
        r@ == cs@.map_values(|c: char| fold_char(c)),
{
    let mut out: Vec<char> = Vec::new();
    let mut i: usize = 0;
    while i < cs.len()
        invariant
            i <= cs@.len(),
            out@ == cs@.take(i as int).map_values(|c: char| fold_char(c)),
        decreases cs@.len() - i,
    {
        out.push(crate::text::fold_char_exec(cs[i]));
        i += 1;
        assert(out@ =~= cs@.take(i as int).map_values(|c: char| fold_char(c)));
    }
    assert(cs@.take(cs@.len() as int) =~= cs@);
    out
}

fn token_chars(cs: &Vec<char>) -> (r: Vec<char>)
    ensures
        r@ == cs@.map_values(|c: char| token_char(c)),
{
    let mut out: Vec<char> = Vec::new();
    let mut i: usize = 0;
    while i < cs.len()
        invariant
            i <= cs@.len(),
            out@ == cs@.take(i as int).map_values(|c: char| token_char(c)),
        decreases cs@.len() - i,
    {
        out.push(token_char_exec(cs[i]));
        i += 1;
        assert(out@ =~= cs@.take(i as int).map_values(|c: char| token_char(c)));
    }
    assert(cs@.take(cs@.len() as int) =~= cs@);
    out
}

pub fn plain_token_chars(text: &str) -> (r: Vec<Vec<char>>)
    ensures
        views(r@) == plain_tokens(text@),
{
    let cs = chars_of(text);
    let folded = token_chars(&cs);
    split_words(&folded)
}

pub fn normalized_word_chars(text: &str) -> (r: Vec<Vec<char>>)
    ensures
        views(r@) == normalized_words(text@),
{
    let cs = chars_of(text);
    let folded = fold_chars(&cs);
    split_words(&folded)
}

/// The tokens of `text`: runs of letters and digits, ASCII ones lower-cased, in order.
pub fn plain_tokenize(text: &str) -> (r: Vec<String>)
    ensures
        texts(r@) == plain_tokens(text@),
{
    let ws = plain_token_chars(text);
    to_strings(&ws)
}

/// The stemmed tokens of `text`, without stopwords.
pub fn tokenize(text: &str) -> (r: Vec<String>)
    ensures
        texts(r@) == stemmed_tokens(text@),
{
    let ws = normalized_word_chars(text);
    let ghost wv = views(ws@);
    let mut out: Vec<String> = Vec::new();
    let mut i: usize = 0;
    while i < ws.len()
        invariant
            wv == views(ws@),
            i <= ws@.len(),
            texts(out@) == kept_stems(wv.take(i as int)),
        decreases ws@.len() - i,
    {
        assert(wv.take(i + 1).drop_last() =~= wv.take(i as int));
        let t = stem_chars(&ws[i]);
        if t.len() > 0 && !is_stopword_chars(&t) {
            out.push(string_of(&t));
        }
        assert(texts(out@) =~= kept_stems(wv.take(i + 1)));
        i += 1;
    }
    assert(wv.take(ws@.len() as int) =~= wv);
    out
}

} // verus!
