use vstd::prelude::*;

verus! {

/// Relies on `String::push`: it appends the one character given at the end of the string.
/// The library builds strings character by character with it.
pub assume_specification[ String::push ](s: &mut String, ch: char)
    ensures
        final(s)@ == old(s)@.push(ch),
;

/// The characters of `s`, in order.
pub fn chars_of(s: &str) -> (r: Vec<char>)
    ensures
        r@ == s@,
{
    let n = s.unicode_len();
    let mut out: Vec<char> = Vec::new();
    let mut i: usize = 0;
    while i < n
        invariant
            n == s@.len(),
            i <= n,
            out@ == s@.take(i as int),
        decreases n - i,
    {
        out.push(s.get_char(i));
        i += 1;
        assert(out@ =~= s@.take(i as int));
    }
    assert(out@ =~= s@);
    out
}

/// A string holding the given characters.
pub fn string_of(cs: &Vec<char>) -> (r: String)
    ensures
        r@ == cs@,
{
    let mut out = String::new();
    let mut i: usize = 0;
    while i < cs.len()
        invariant
            i <= cs@.len(),
            out@ == cs@.take(i as int),
        decreases cs@.len() - i,
    {
        out.push(cs[i]);
        i += 1;
        assert(out@ =~= cs@.take(i as int));
    }
    assert(out@ =~= cs@);
    out
}

} // verus!

verus! {

/// ASCII letters and digits.
pub open spec fn is_ascii_alnum(c: char) -> bool {
    ('a' <= c && c <= 'z') || ('A' <= c && c <= 'Z') || ('0' <= c && c <= '9')
}

/// ASCII lower-casing; every other character is left alone.
pub open spec fn ascii_lower(c: char) -> char {
    if 'A' <= c && c <= 'Z' {
        ((c as u32) + 32) as char
    } else {
        c
    }
}

/// What normalization makes of one character: a lower-case letter or digit, or a space.
pub open spec fn fold_char(c: char) -> char {
    if is_ascii_alnum(c) {
        ascii_lower(c)
    } else {
        ' '
    }
}

pub fn fold_char_exec(c: char) -> (r: char)
    ensures
        r == fold_char(c),
        is_white(r) == (r == ' '),
{
    if 'A' <= c && c <= 'Z' {
        let b: u8 = c as u8;
        assert(b as u32 == c as u32);
        ((b + 32) as u8) as char
    } else if ('a' <= c && c <= 'z') || ('0' <= c && c <= '9') {
        c
    } else {
        ' '
    }
}

} // verus!

verus! {

/// The maximal runs of characters of `s` that are not white space, in order.
pub open spec fn words(s: Seq<char>) -> Seq<Seq<char>>
    decreases s.len(),
{
    if s.len() == 0 {
        seq![]
    } else {
        let p = s.drop_last();
        let c = s.last();
        let ws = words(p);
        if is_white(c) {
            ws
        } else if p.len() > 0 && !is_white(p.last()) {
            ws.update(ws.len() - 1, ws.last().push(c))
        } else {
            ws.push(seq![c])
        }
    }
}

/// The pieces of `ws` joined with `sep` between neighbours.
pub open spec fn join_with(ws: Seq<Seq<char>>, sep: Seq<char>) -> Seq<char>
    decreases ws.len(),
{
    if ws.len() == 0 {
        seq![]
    } else if ws.len() == 1 {
        ws[0]
    } else {
        join_with(ws.drop_last(), sep) + sep + ws.last()
    }
}

/// Every character folded, runs of separators collapsed to one space, no space at either end.
pub open spec fn normalized(s: Seq<char>) -> Seq<char> {
    join_with(words(s.map_values(|c: char| fold_char(c))), seq![' '])
}

/// A word: not empty, and without white space.
pub open spec fn is_word(w: Seq<char>) -> bool {
    w.len() > 0 && forall|j: int| 0 <= j < w.len() ==> !is_white(#[trigger] w[j])
}

pub proof fn lemma_words_are_words(s: Seq<char>)
    ensures
        forall|k: int| 0 <= k < words(s).len() ==> is_word(#[trigger] words(s)[k]),
        s.len() > 0 && !is_white(s.last()) ==> words(s).len() > 0,
    decreases s.len(),
{
    if s.len() > 0 {
        let p = s.drop_last();
        lemma_words_are_words(p);
        let ws = words(p);
        let c = s.last();
        if is_white(c) {
        } else if p.len() > 0 && !is_white(p.last()) {
            let w = ws.last().push(c);
            assert(is_word(ws[ws.len() - 1]));
            assert forall|j: int| 0 <= j < w.len() implies !is_white(#[trigger] w[j]) by {
                if j < ws.last().len() {
                    assert(w[j] == ws[ws.len() - 1][j]);
                }
            }
            assert forall|k: int| 0 <= k < words(s).len() implies is_word(#[trigger] words(s)[k]) by {
                if k < ws.len() - 1 {
                    assert(words(s)[k] == ws[k]);
                }
            }
        } else {
            assert forall|k: int| 0 <= k < words(s).len() implies is_word(#[trigger] words(s)[k]) by {
                if k < ws.len() {
                    assert(words(s)[k] == ws[k]);
                } else {
                    assert(words(s)[k] == seq![c]);
                }
            }
        }
    }
}

pub proof fn lemma_join_empty(ws: Seq<Seq<char>>, sep: Seq<char>)
    requires
        forall|k: int| 0 <= k < ws.len() ==> (#[trigger] ws[k]).len() > 0,
    ensures
        (join_with(ws, sep).len() == 0) == (ws.len() == 0),
    decreases ws.len(),
{
    if ws.len() > 1 {
        lemma_join_empty(ws.drop_last(), sep);
        assert(ws.last() == ws[ws.len() - 1]);
    } else if ws.len() == 1 {
        assert(ws[0].len() > 0);
    }
}

pub proof fn lemma_join_push(ws: Seq<Seq<char>>, w: Seq<char>, sep: Seq<char>)
    ensures
        join_with(ws.push(w), sep) == (if ws.len() == 0 {
            w
        } else {
            join_with(ws, sep) + sep + w
        }),
{
    assert(ws.push(w).drop_last() =~= ws);
}

pub proof fn lemma_join_extend_last(ws: Seq<Seq<char>>, c: char, sep: Seq<char>)
    requires
        ws.len() > 0,
    ensures
        join_with(ws.update(ws.len() - 1, ws.last().push(c)), sep) == join_with(ws, sep).push(c),
{
    let u = ws.update(ws.len() - 1, ws.last().push(c));
    if ws.len() == 1 {
    } else {
        assert(u.drop_last() =~= ws.drop_last());
        assert(join_with(u, sep) =~= join_with(ws, sep).push(c));
    }
}

/// Folding never makes white space other than a space.
pub proof fn lemma_fold_white(s: Seq<char>)
    ensures
        forall|j: int| 0 <= j < s.len() ==> #[trigger] is_white(fold_char(s[j])) == (fold_char(s[j]) == ' '),
{
}

/// One step of the left-to-right scan that builds a normalized string.
pub proof fn lemma_words_step(m: Seq<char>, i: int)
    requires
        0 <= i < m.len(),
    ensures
        m.take(i + 1).drop_last() == m.take(i),
        m.take(i + 1).last() == m[i],
        i > 0 ==> m.take(i).last() == m[i - 1],
{
    assert(m.take(i + 1).drop_last() =~= m.take(i));
}

/// The normalized form of `input`: ASCII letters and digits lower-cased, every other character
/// a separator, runs of separators one space, none at either end.
pub fn normalize_text(input: &str) -> (r: String)
    ensures
        r@ == normalized(input@),
{
    let cs = chars_of(input);
    let ghost m = input@.map_values(|c: char| fold_char(c));
    let ghost sp = seq![' '];
    let mut out: Vec<char> = Vec::new();
    let mut last_was_space = true;
    let mut i: usize = 0;
    while i < cs.len()
        invariant
            cs@ == input@,
            m == input@.map_values(|c: char| fold_char(c)),
            sp == seq![' '],
            i <= cs@.len(),
            out@ == join_with(words(m.take(i as int)), sp),
            last_was_space == (i == 0 || m[i - 1] == ' '),
        decreases cs@.len() - i,
    {
        let f = fold_char_exec(cs[i]);
        proof {
            lemma_fold_white(input@);
            lemma_words_step(m, i as int);
            lemma_words_are_words(m.take(i as int));
            let ws = words(m.take(i as int));
            assert forall|k: int| 0 <= k < ws.len() implies (#[trigger] ws[k]).len() > 0 by {
                assert(is_word(ws[k]));
            }
            lemma_join_empty(ws, sp);
        }
        if f == ' ' {
            last_was_space = true;
        } else {
            proof {
                let ws = words(m.take(i as int));
                if last_was_space {
                    lemma_join_push(ws, seq![f], sp);
                } else {
                    lemma_join_extend_last(ws, f, sp);
                }
            }
            if last_was_space && out.len() > 0 {
                out.push(' ');
            }
            out.push(f);
            last_was_space = false;
            proof {
                let ws = words(m.take(i as int));
                if out@.len() == 1 {
                }
                assert(out@ =~= join_with(words(m.take(i + 1)), sp));
            }
        }
        i += 1;
    }
    assert(m.take(cs@.len() as int) =~= m);
    string_of(&out)
}

} // verus!

verus! {

/// A character that normalization leaves as it is.
pub open spec fn is_clean(c: char) -> bool {
    c == ' ' || (is_ascii_alnum(c) && ascii_lower(c) == c)
}

pub open spec fn all_clean(s: Seq<char>) -> bool {
    forall|j: int| 0 <= j < s.len() ==> is_clean(#[trigger] s[j])
}

pub proof fn lemma_fold_clean(c: char)
    ensures
        is_clean(fold_char(c)),
        is_clean(c) ==> fold_char(c) == c,
{
}

pub proof fn lemma_words_clean(s: Seq<char>)
    requires
        all_clean(s),
    ensures
        forall|k: int| 0 <= k < words(s).len() ==> all_clean(#[trigger] words(s)[k]),
    decreases s.len(),
{
    if s.len() > 0 {
        let p = s.drop_last();
        assert(all_clean(p)) by {
            assert forall|j: int| 0 <= j < p.len() implies is_clean(#[trigger] p[j]) by {
                assert(p[j] == s[j]);
            }
        }
        lemma_words_clean(p);
        let ws = words(p);
        let c = s.last();
        assert(is_clean(c)) by {
            assert(s[s.len() - 1] == c);
        }
        if is_white(c) {
        } else if p.len() > 0 && !is_white(p.last()) {
            let w = ws.last().push(c);
            lemma_words_are_words(p);
            assert(all_clean(ws[ws.len() - 1]));
            assert(all_clean(w)) by {
                assert forall|j: int| 0 <= j < w.len() implies is_clean(#[trigger] w[j]) by {
                    if j < w.len() - 1 {
                        assert(w[j] == ws[ws.len() - 1][j]);
                    }
                }
            }
            assert forall|k: int| 0 <= k < words(s).len() implies all_clean(#[trigger] words(s)[k]) by {
                if k < ws.len() - 1 {
                    assert(words(s)[k] == ws[k]);
                }
            }
        } else {
            assert forall|k: int| 0 <= k < words(s).len() implies all_clean(#[trigger] words(s)[k]) by {
                if k < ws.len() {
                    assert(words(s)[k] == ws[k]);
                } else {
                    assert(words(s)[k] == seq![c]);
                }
            }
        }
    }
}

pub proof fn lemma_join_clean(ws: Seq<Seq<char>>)
    requires
        forall|k: int| 0 <= k < ws.len() ==> all_clean(#[trigger] ws[k]),
    ensures
        all_clean(join_with(ws, seq![' '])),
    decreases ws.len(),
{
    if ws.len() == 1 {
        assert(all_clean(ws[0]));
    } else if ws.len() > 1 {
        let p = ws.drop_last();
        assert forall|k: int| 0 <= k < p.len() implies all_clean(#[trigger] p[k]) by {
            assert(p[k] == ws[k]);
        }
        lemma_join_clean(p);
        let a = join_with(p, seq![' ']);
        let w = ws.last();
        assert(all_clean(ws[ws.len() - 1]));
        let j = a + seq![' '] + w;
        assert forall|i: int| 0 <= i < j.len() implies is_clean(#[trigger] j[i]) by {
            if i < a.len() {
                assert(j[i] == a[i]);
            } else if i == a.len() {
            } else {
                assert(j[i] == w[i - a.len() - 1]);
            }
        }
    }
}

/// A space followed by a word adds that word.
pub proof fn lemma_words_after_space(a: Seq<char>, w: Seq<char>)
    requires
        is_word(w),
    ensures
        words(a + seq![' '] + w) == words(a).push(w),
    decreases w.len(),
{
    let s = a + seq![' '] + w;
    let c = w.last();
    assert(w[w.len() - 1] == c);
    assert(!is_white(c));
    assert(is_white(' '));
    if w.len() == 1 {
        let p = a + seq![' '];
        assert(s.drop_last() =~= p);
        assert(p.drop_last() =~= a);
        assert(p.last() == ' ');
        assert(words(p) == words(a));
        assert(s.last() == c);
        assert(words(s) == words(p).push(seq![c]));
        assert(w =~= seq![c]);
    } else {
        let v = w.drop_last();
        assert forall|j: int| 0 <= j < v.len() implies !is_white(#[trigger] v[j]) by {
            assert(v[j] == w[j]);
        }
        lemma_words_after_space(a, v);
        assert(s.drop_last() =~= a + seq![' '] + v);
        assert(v.last() == w[w.len() - 2]);
        assert(!is_white(w[w.len() - 2]));
        assert(s.last() == c);
        assert(v.push(c) =~= w);
        let ws = words(a).push(v);
        assert(ws.last() == v);
        assert(ws.update(ws.len() - 1, ws.last().push(c)) =~= words(a).push(w));
        assert(s.drop_last().len() > 0 && !is_white(s.drop_last().last()));
        assert(words(s) == ws.update(ws.len() - 1, ws.last().push(c)));
    }
}

/// A lone word is its own only word.
pub proof fn lemma_words_single(w: Seq<char>)
    requires
        is_word(w),
    ensures
        words(w) == seq![w],
    decreases w.len(),
{
    let c = w.last();
    assert(w[w.len() - 1] == c);
    assert(!is_white(c));
    if w.len() == 1 {
        assert(w.drop_last() =~= Seq::<char>::empty());
        assert(w =~= seq![c]);
        assert(words(w.drop_last()) =~= Seq::<Seq<char>>::empty());
        assert(words(w) == Seq::<Seq<char>>::empty().push(seq![c]));
        assert(Seq::<Seq<char>>::empty().push(seq![c]) =~= seq![w]);
    } else {
        let v = w.drop_last();
        assert forall|j: int| 0 <= j < v.len() implies !is_white(#[trigger] v[j]) by {
            assert(v[j] == w[j]);
        }
        lemma_words_single(v);
        assert(v.last() == w[w.len() - 2]);
        assert(!is_white(w[w.len() - 2]));
        assert(v.push(c) =~= w);
        assert(w.drop_last() == v);
        let ws = seq![v];
        assert(ws.last() == v);
        assert(ws.update(ws.len() - 1, ws.last().push(c)) =~= seq![w]);
        assert(w.drop_last().len() > 0 && !is_white(w.drop_last().last()));
        assert(words(w) == words(v).update(words(v).len() - 1, words(v).last().push(c)));
    }
}

/// Joining words with single spaces and splitting again gives the words back.
pub proof fn lemma_words_of_join(ws: Seq<Seq<char>>)
    requires
        forall|k: int| 0 <= k < ws.len() ==> is_word(#[trigger] ws[k]),
    ensures
        words(join_with(ws, seq![' '])) == ws,
    decreases ws.len(),
{
    if ws.len() == 0 {
    } else if ws.len() == 1 {
        assert(is_word(ws[0]));
        lemma_words_single(ws[0]);
        assert(ws =~= seq![ws[0]]);
    } else {
        let p = ws.drop_last();
        assert forall|k: int| 0 <= k < p.len() implies is_word(#[trigger] p[k]) by {
            assert(p[k] == ws[k]);
        }
        lemma_words_of_join(p);
        assert(is_word(ws[ws.len() - 1]));
        lemma_words_after_space(join_with(p, seq![' ']), ws.last());
        assert(p.push(ws.last()) =~= ws);
    }
}

/// Normalization is idempotent.
pub proof fn lemma_normalize_idempotent(s: Seq<char>)
    ensures
        normalized(normalized(s)) == normalized(s),
{
    let m = s.map_values(|c: char| fold_char(c));
    assert(all_clean(m)) by {
        assert forall|j: int| 0 <= j < m.len() implies is_clean(#[trigger] m[j]) by {
            lemma_fold_clean(s[j]);
        }
    }
    lemma_words_clean(m);
    lemma_words_are_words(m);
    let ws = words(m);
    lemma_join_clean(ws);
    let n = normalized(s);
    assert(n.map_values(|c: char| fold_char(c)) =~= n) by {
        assert forall|j: int| 0 <= j < n.len() implies #[trigger] fold_char(n[j]) == n[j] by {
            assert(is_clean(n[j]));
            lemma_fold_clean(n[j]);
        }
    }
    lemma_words_of_join(ws);
}

} // verus!

verus! {

/// Lexicographic order on character sequences, by code point (the order of `str`).
pub open spec fn seq_lt(a: Seq<char>, b: Seq<char>) -> bool
    decreases a.len(),
{
    if a.len() == 0 {
        b.len() > 0
    } else if b.len() == 0 {
        false
    } else if a[0] != b[0] {
        a[0] < b[0]
    } else {
        seq_lt(a.drop_first(), b.drop_first())
    }
}

pub proof fn lemma_seq_lt_irreflexive(a: Seq<char>)
    ensures
        !seq_lt(a, a),
    decreases a.len(),
{
    if a.len() > 0 {
        lemma_seq_lt_irreflexive(a.drop_first());
    }
}

pub proof fn lemma_seq_lt_asymmetric(a: Seq<char>, b: Seq<char>)
    ensures
        !(seq_lt(a, b) && seq_lt(b, a)),
    decreases a.len(),
{
    if a.len() > 0 && b.len() > 0 && a[0] == b[0] {
        lemma_seq_lt_asymmetric(a.drop_first(), b.drop_first());
    }
}

pub proof fn lemma_seq_lt_transitive(a: Seq<char>, b: Seq<char>, c: Seq<char>)
    requires
        seq_lt(a, b),
        seq_lt(b, c),
    ensures
        seq_lt(a, c),
    decreases a.len(),
{
    if a.len() > 0 && b.len() > 0 && c.len() > 0 && a[0] == b[0] && b[0] == c[0] {
        lemma_seq_lt_transitive(a.drop_first(), b.drop_first(), c.drop_first());
    }
}

pub proof fn lemma_seq_lt_total(a: Seq<char>, b: Seq<char>)
    ensures
        a == b || seq_lt(a, b) || seq_lt(b, a),
    decreases a.len(),
{
    if a.len() > 0 && b.len() > 0 {
        if a[0] == b[0] {
            lemma_seq_lt_total(a.drop_first(), b.drop_first());
            if a.drop_first() == b.drop_first() {
                assert(a =~= seq![a[0]] + a.drop_first());
                assert(b =~= seq![b[0]] + b.drop_first());
            }
        }
    } else if a.len() == 0 && b.len() == 0 {
        assert(a =~= b);
    }
}

pub fn chars_lt(a: &Vec<char>, b: &Vec<char>) -> (r: bool)
    ensures
        r == seq_lt(a@, b@),
{
    let mut i: usize = 0;
    assert(a@.skip(0) =~= a@);
    assert(b@.skip(0) =~= b@);
    while i < a.len() && i < b.len() && a[i] == b[i]
        invariant
            i <= a@.len(),
            i <= b@.len(),
            seq_lt(a@, b@) == seq_lt(a@.skip(i as int), b@.skip(i as int)),
        decreases a@.len() - i,
    {
        assert(a@.skip(i as int).drop_first() =~= a@.skip(i + 1));
        assert(b@.skip(i as int).drop_first() =~= b@.skip(i + 1));
        i += 1;
    }
    if i == a.len() {
        i < b.len()
    } else if i == b.len() {
        false
    } else {
        a[i] < b[i]
    }
}

pub fn chars_eq(a: &Vec<char>, b: &Vec<char>) -> (r: bool)
    ensures
        r == (a@ == b@),
{
    if a.len() != b.len() {
        return false;
    }
    let mut i: usize = 0;
    while i < a.len()
        invariant
            a@.len() == b@.len(),
            i <= a@.len(),
            a@.take(i as int) == b@.take(i as int),
        decreases a@.len() - i,
    {
        if a[i] != b[i] {
            return false;
        }
        assert(a@.take(i + 1) =~= a@.take(i as int).push(a@[i as int]));
        assert(b@.take(i + 1) =~= b@.take(i as int).push(b@[i as int]));
        i += 1;
    }
    assert(a@ =~= a@.take(i as int));
    assert(b@ =~= b@.take(i as int));
    true
}

/// The views of a sequence of character vectors.
pub open spec fn views(v: Seq<Vec<char>>) -> Seq<Seq<char>> {
    v.map_values(|x: Vec<char>| x@)
}

/// The words of `cs`, split at white space.
pub fn split_words(cs: &Vec<char>) -> (r: Vec<Vec<char>>)
    ensures
        views(r@) == words(cs@),
{
    let mut done: Vec<Vec<char>> = Vec::new();
    let mut cur: Vec<char> = Vec::new();
    let mut i: usize = 0;
    while i < cs.len()
        invariant
            i <= cs@.len(),
            cur@.len() > 0 ==> views(done@).push(cur@) == words(cs@.take(i as int)),
            cur@.len() == 0 ==> views(done@) == words(cs@.take(i as int)),
            (cur@.len() > 0) == (i > 0 && !is_white(cs@[i - 1])),
        decreases cs@.len() - i,
    {
        let c = cs[i];
        proof {
            lemma_words_step(cs@, i as int);
        }
        if is_white_exec(c) {
            if cur.len() > 0 {
                let ghost before = done@;
                let ghost word = cur@;
                done.push(cur);
                cur = Vec::new();
                assert(views(done@) =~= views(before).push(word));
            }
        } else {
            proof {
                let ws = words(cs@.take(i as int));
                if cur@.len() > 0 {
                    assert(ws.last() == cur@);
                    assert(ws.update(ws.len() - 1, ws.last().push(c)) =~= views(done@).push(cur@.push(c)));
                }
            }
            let ghost before = cur@;
            cur.push(c);
            proof {
                let ws = words(cs@.take(i as int));
                if before.len() == 0 {
                    assert(before.push(c) =~= seq![c]);
                }
            }
        }
        i += 1;
    }
    assert(cs@.take(cs@.len() as int) =~= cs@);
    if cur.len() > 0 {
        let ghost before = done@;
        let ghost word = cur@;
        done.push(cur);
        assert(views(done@) =~= views(before).push(word));
    }
    done
}

} // verus!

verus! {

pub fn copy_chars(a: &Vec<char>) -> (r: Vec<char>)
    ensures
        r@ == a@,
{
    let mut out: Vec<char> = Vec::new();
    let mut i: usize = 0;
    while i < a.len()
        invariant
            i <= a@.len(),
            out@ == a@.take(i as int),
        decreases a@.len() - i,
    {
        out.push(a[i]);
        i += 1;
        assert(out@ =~= a@.take(i as int));
    }
    assert(out@ =~= a@);
    out
}

/// The pieces of `ws` joined with `sep` between neighbours.
pub fn join_chars(ws: &Vec<Vec<char>>, sep: &Vec<char>) -> (r: Vec<char>)
    ensures
        r@ == join_with(views(ws@), sep@),
{
    let mut out: Vec<char> = Vec::new();
    let mut i: usize = 0;
    while i < ws.len()
        invariant
            i <= ws@.len(),
            out@ == join_with(views(ws@.take(i as int)), sep@),
        decreases ws@.len() - i,
    {
        proof {
            assert(views(ws@.take(i + 1)) =~= views(ws@.take(i as int)).push(ws@[i as int]@));
            lemma_join_push(views(ws@.take(i as int)), ws@[i as int]@, sep@);
        }
        if i > 0 {
            let mut k: usize = 0;
            let ghost start = out@;
            while k < sep.len()
                invariant
                    k <= sep@.len(),
                    out@ == start + sep@.take(k as int),
                decreases sep@.len() - k,
            {
                out.push(sep[k]);
                k += 1;
                assert(out@ =~= start + sep@.take(k as int));
            }
            assert(sep@.take(sep@.len() as int) =~= sep@);
        }
        let w = &ws[i];
        let mut k: usize = 0;
        let ghost start = out@;
        while k < w.len()
            invariant
                k <= w@.len(),
                out@ == start + w@.take(k as int),
            decreases w@.len() - k,
        {
            out.push(w[k]);
            k += 1;
            assert(out@ =~= start + w@.take(k as int));
        }
        assert(w@.take(w@.len() as int) =~= w@);
        assert(i == 0 ==> out@ =~= w@);
        i += 1;
    }
    assert(ws@.take(ws@.len() as int) =~= ws@);
    out
}

/// A word long enough to count as a keyword.
pub open spec fn is_keyword(w: Seq<char>) -> bool {
    w.len() > 2
}

pub open spec fn strictly_sorted(ks: Seq<Seq<char>>) -> bool {
    forall|i: int, j: int| 0 <= i < j < ks.len() ==> seq_lt(#[trigger] ks[i], #[trigger] ks[j])
}

/// `ks` is the ascending list of the distinct keywords among `ws`, cut after the first six.
pub open spec fn is_keyword_list(ks: Seq<Seq<char>>, ws: Seq<Seq<char>>) -> bool {
    &&& strictly_sorted(ks)
    &&& ks.len() <= 6
    &&& forall|k: int| 0 <= k < ks.len() ==> ws.contains(#[trigger] ks[k]) && is_keyword(ks[k])
    &&& forall|j: int|
        0 <= j < ws.len() && is_keyword(#[trigger] ws[j]) ==> ks.contains(ws[j]) || (ks.len() == 6
            && seq_lt(ks[5], ws[j]))
}

pub open spec fn signature_keywords(ws: Seq<Seq<char>>) -> Seq<Seq<char>> {
    choose|ks: Seq<Seq<char>>| is_keyword_list(ks, ws)
}

/// The keyword signature of a normalized text: its first six distinct keywords in ascending
/// order, joined with `|`.
pub open spec fn keyword_signature_of(normalized: Seq<char>) -> Seq<char> {
    join_with(signature_keywords(words(normalized)), seq!['|'])
}

proof fn lemma_keyword_list_agree_at(ks1: Seq<Seq<char>>, ks2: Seq<Seq<char>>, ws: Seq<Seq<char>>, i: int)
    requires
        is_keyword_list(ks1, ws),
        is_keyword_list(ks2, ws),
        0 <= i < ks1.len(),
        i < ks2.len(),
        forall|j: int| 0 <= j < i ==> ks1[j] == ks2[j],
    ensures
        !seq_lt(ks1[i], ks2[i]),
{
    let x = ks1[i];
    if seq_lt(ks1[i], ks2[i]) {
        assert(ws.contains(x));
        let jw = choose|jw: int| 0 <= jw < ws.len() && ws[jw] == x;
        assert(is_keyword(ws[jw]));
        if ks2.contains(x) {
            let j = choose|j: int| 0 <= j < ks2.len() && ks2[j] == x;
            if j < i {
                assert(seq_lt(ks1[j], ks1[i]));
                lemma_seq_lt_irreflexive(x);
            } else if j == i {
                lemma_seq_lt_irreflexive(x);
            } else {
                assert(seq_lt(ks2[i], ks2[j]));
                lemma_seq_lt_asymmetric(x, ks2[i]);
            }
        } else {
            assert(ks2.len() == 6 && seq_lt(ks2[5], x));
            if i == 5 {
                lemma_seq_lt_asymmetric(x, ks2[5]);
            } else {
                assert(seq_lt(ks2[i], ks2[5]));
                lemma_seq_lt_transitive(ks2[i], ks2[5], x);
                lemma_seq_lt_asymmetric(x, ks2[i]);
            }
        }
    }
}

proof fn lemma_keyword_list_prefix_len(ks1: Seq<Seq<char>>, ks2: Seq<Seq<char>>, ws: Seq<Seq<char>>)
    requires
        is_keyword_list(ks1, ws),
        is_keyword_list(ks2, ws),
        forall|j: int| 0 <= j < ks2.len() && j < ks1.len() ==> ks1[j] == ks2[j],
    ensures
        ks1.len() <= ks2.len(),
{
    if ks1.len() > ks2.len() {
        let i = ks2.len() as int;
        let x = ks1[i];
        assert(ws.contains(x));
        let jw = choose|jw: int| 0 <= jw < ws.len() && ws[jw] == x;
        assert(is_keyword(ws[jw]));
        if ks2.contains(x) {
            let j = choose|j: int| 0 <= j < ks2.len() && ks2[j] == x;
            assert(seq_lt(ks1[j], ks1[i]));
            lemma_seq_lt_irreflexive(x);
        }
    }
}

proof fn lemma_keyword_list_agree_upto(ks1: Seq<Seq<char>>, ks2: Seq<Seq<char>>, ws: Seq<Seq<char>>, n: int)
    requires
        is_keyword_list(ks1, ws),
        is_keyword_list(ks2, ws),
        0 <= n <= ks1.len(),
        n <= ks2.len(),
    ensures
        forall|j: int| 0 <= j < n ==> ks1[j] == ks2[j],
    decreases n,
{
    if n > 0 {
        let i = n - 1;
        lemma_keyword_list_agree_upto(ks1, ks2, ws, i);
        lemma_keyword_list_agree_at(ks1, ks2, ws, i);
        lemma_keyword_list_agree_at(ks2, ks1, ws, i);
        lemma_seq_lt_total(ks1[i], ks2[i]);
    }
}

/// There is at most one keyword list of a sequence of words.
pub proof fn lemma_keyword_list_unique(ks1: Seq<Seq<char>>, ks2: Seq<Seq<char>>, ws: Seq<Seq<char>>)
    requires
        is_keyword_list(ks1, ws),
        is_keyword_list(ks2, ws),
    ensures
        ks1 == ks2,
{
    let n = if ks1.len() < ks2.len() { ks1.len() } else { ks2.len() };
    lemma_keyword_list_agree_upto(ks1, ks2, ws, n as int);
    lemma_keyword_list_prefix_len(ks1, ks2, ws);
    lemma_keyword_list_prefix_len(ks2, ks1, ws);
    assert(ks1 =~= ks2);
}

} // verus!

verus! {

/// Adds `w` to the strictly ascending list `ks` unless it is there already.
fn insert_sorted(ks: &mut Vec<Vec<char>>, w: Vec<char>)
    requires
        strictly_sorted(views(old(ks)@)),
    ensures
        strictly_sorted(views(final(ks)@)),
        forall|x: Seq<char>| #[trigger] views(final(ks)@).contains(x) <==> (views(old(ks)@).contains(x) || x == w@),
{
    let ghost old_v = views(ks@);
    let mut p: usize = 0;
    while p < ks.len() && chars_lt(&ks[p], &w)
        invariant
            p <= ks@.len(),
            views(ks@) == old_v,
            forall|q: int| 0 <= q < p ==> seq_lt(#[trigger] old_v[q], w@),
        decreases ks@.len() - p,
    {
        p += 1;
    }
    if p < ks.len() && chars_eq(&ks[p], &w) {
        assert(old_v[p as int] == ks@[p as int]@);
        assert(old_v[p as int] == w@);
        assert(old_v.contains(w@));
        assert(views(ks@) =~= old_v);
        return;
    }
    proof {
        if p < old_v.len() {
            lemma_seq_lt_total(old_v[p as int], w@);
            assert(seq_lt(w@, old_v[p as int]));
        }
    }
    ks.insert(p, w);
    let ghost nv = views(ks@);
    assert(nv =~= old_v.insert(p as int, w@));
    assert forall|i: int, j: int| 0 <= i < j < nv.len() implies seq_lt(#[trigger] nv[i], #[trigger] nv[j]) by {
        if j < p {
            assert(nv[i] == old_v[i] && nv[j] == old_v[j]);
        } else if j == p {
            assert(nv[i] == old_v[i]);
        } else if i < p {
            assert(nv[i] == old_v[i] && nv[j] == old_v[j - 1]);
            assert(seq_lt(old_v[i], w@));
            assert(seq_lt(w@, old_v[p as int]));
            if j - 1 > p {
                assert(seq_lt(old_v[p as int], old_v[j - 1]));
                lemma_seq_lt_transitive(w@, old_v[p as int], old_v[j - 1]);
            }
            lemma_seq_lt_transitive(old_v[i], w@, old_v[j - 1]);
        } else if i == p {
            assert(nv[j] == old_v[j - 1]);
            if j - 1 > p {
                assert(seq_lt(old_v[p as int], old_v[j - 1]));
                lemma_seq_lt_transitive(w@, old_v[p as int], old_v[j - 1]);
            }
        } else {
            assert(nv[i] == old_v[i - 1] && nv[j] == old_v[j - 1]);
        }
    }
    assert forall|x: Seq<char>| #[trigger] nv.contains(x) <==> (old_v.contains(x) || x == w@) by {
        if nv.contains(x) {
            let k = choose|k: int| 0 <= k < nv.len() && nv[k] == x;
            if k < p {
                assert(old_v[k] == x);
            } else if k > p {
                assert(old_v[k - 1] == x);
            }
        }
        if old_v.contains(x) {
            let k = choose|k: int| 0 <= k < old_v.len() && old_v[k] == x;
            if k < p {
                assert(nv[k] == x);
            } else {
                assert(nv[k + 1] == x);
            }
        }
        if x == w@ {
            assert(nv[p as int] == x);
        }
    }
}

/// The keyword signature of normalized text: its distinct words longer than two characters,
/// in ascending order, the first six of them, joined with `|`.
pub fn keyword_signature(normalized: &str) -> (r: String)
    ensures
        r@ == keyword_signature_of(normalized@),
{
    let cs = chars_of(normalized);
    let ws = split_words(&cs);
    let ghost wv = views(ws@);
    let mut ks: Vec<Vec<char>> = Vec::new();
    let mut i: usize = 0;
    while i < ws.len()
        invariant
            wv == views(ws@),
            wv == words(normalized@),
            i <= ws@.len(),
            strictly_sorted(views(ks@)),
            forall|k: int| 0 <= k < views(ks@).len() ==> wv.contains(#[trigger] views(ks@)[k]) && is_keyword(views(ks@)[k]),
            forall|j: int| 0 <= j < i && is_keyword(#[trigger] wv[j]) ==> views(ks@).contains(wv[j]),
        decreases ws@.len() - i,
    {
        if ws[i].len() > 2 {
            let ghost before = views(ks@);
            let w = copy_chars(&ws[i]);
            insert_sorted(&mut ks, w);
            proof {
                let now = views(ks@);
                assert forall|k: int| 0 <= k < now.len() implies wv.contains(#[trigger] now[k]) && is_keyword(now[k]) by {
                    assert(now.contains(now[k]));
                    if before.contains(now[k]) {
                        let q = choose|q: int| 0 <= q < before.len() && before[q] == now[k];
                    } else {
                        assert(now[k] == wv[i as int]);
                    }
                }
                assert forall|j: int| 0 <= j < i + 1 && is_keyword(#[trigger] wv[j]) implies now.contains(wv[j]) by {
                    if j < i {
                        assert(before.contains(wv[j]));
                    }
                }
            }
        }
        i += 1;
    }
    let ghost all = views(ks@);
    ks.truncate(6);
    let ghost t = views(ks@);
    proof {
        assert(t =~= all.take(6) || t =~= all);
        assert forall|j: int| 0 <= j < wv.len() && is_keyword(#[trigger] wv[j]) implies t.contains(wv[j]) || (t.len() == 6
            && seq_lt(t[5], wv[j])) by {
            assert(all.contains(wv[j]));
            let p = choose|p: int| 0 <= p < all.len() && all[p] == wv[j];
            if p < t.len() {
                assert(t[p] == wv[j]);
            } else {
                assert(t[5] == all[5]);
                if p > 5 {
                    assert(seq_lt(all[5], all[p]));
                }
            }
        }
        assert forall|k: int| 0 <= k < t.len() implies wv.contains(#[trigger] t[k]) && is_keyword(t[k]) by {
            assert(t[k] == all[k]);
        }
        assert(is_keyword_list(t, wv));
        lemma_keyword_list_unique(t, signature_keywords(wv), wv);
    }
    let bar: Vec<char> = vec!['|'];
    assert(bar@ =~= seq!['|']);
    let joined = join_chars(&ks, &bar);
    string_of(&joined)
}

/// The clustering component of a trigger: the normalized text itself when it has at most six
/// words or no signature, else the signature.
pub open spec fn trigger_key_of(normalized: Seq<char>, signature: Seq<char>) -> Seq<char> {
    if words(normalized).len() <= 6 || signature.len() == 0 {
        normalized
    } else {
        signature
    }
}

pub fn select_trigger_key(normalized: &str, signature: &str) -> (r: String)
    ensures
        r@ == trigger_key_of(normalized@, signature@),
{
    let cs = chars_of(normalized);
    let ws = split_words(&cs);
    assert(views(ws@).len() == ws@.len());
    if ws.len() <= 6 || signature.unicode_len() == 0 {
        normalized.to_owned()
    } else {
        signature.to_owned()
    }
}

} // verus!

verus! {

/// Unicode white space, the characters that `char::is_whitespace` accepts.
pub open spec fn is_white(c: char) -> bool {
    ('\t' <= c && c <= '\r') || c == ' ' || c == '\u{85}' || c == '\u{a0}' || c == '\u{1680}'
        || ('\u{2000}' <= c && c <= '\u{200a}') || c == '\u{2028}' || c == '\u{2029}' || c
        == '\u{202f}' || c == '\u{205f}' || c == '\u{3000}'
}

pub fn is_white_exec(c: char) -> (r: bool)
    ensures
        r == is_white(c),
{
    ('\t' <= c && c <= '\r') || c == ' ' || c == '\u{85}' || c == '\u{a0}' || c == '\u{1680}'
        || ('\u{2000}' <= c && c <= '\u{200a}') || c == '\u{2028}' || c == '\u{2029}' || c
        == '\u{202f}' || c == '\u{205f}' || c == '\u{3000}'
}

/// `s` without the characters at its start that `strip` accepts.
pub open spec fn strip_start(s: Seq<char>, strip: spec_fn(char) -> bool) -> Seq<char>
    decreases s.len(),
{
    if s.len() > 0 && strip(s[0]) {
        strip_start(s.drop_first(), strip)
    } else {
        s
    }
}

/// `s` without the characters at its end that `strip` accepts.
pub open spec fn strip_end(s: Seq<char>, strip: spec_fn(char) -> bool) -> Seq<char>
    decreases s.len(),
{
    if s.len() > 0 && strip(s.last()) {
        strip_end(s.drop_last(), strip)
    } else {
        s
    }
}

/// `s` without white space at either end, as `str::trim` gives it.
pub open spec fn trimmed(s: Seq<char>) -> Seq<char> {
    strip_end(strip_start(s, |c: char| is_white(c)), |c: char| is_white(c))
}

/// `s` without apostrophes at either end.
pub open spec fn unquoted(s: Seq<char>) -> Seq<char> {
    strip_end(strip_start(s, |c: char| c == '\''), |c: char| c == '\'')
}

proof fn lemma_strip_start_skip(s: Seq<char>, strip: spec_fn(char) -> bool, i: int)
    requires
        0 <= i <= s.len(),
        forall|k: int| 0 <= k < i ==> strip(#[trigger] s[k]),
    ensures
        strip_start(s, strip) == strip_start(s.skip(i), strip),
    decreases i,
{
    if i > 0 {
        assert(strip(s[0]));
        let t = s.drop_first();
        assert forall|k: int| 0 <= k < i - 1 implies strip(#[trigger] t[k]) by {
            assert(t[k] == s[k + 1]);
        }
        lemma_strip_start_skip(t, strip, i - 1);
        assert(t.skip(i - 1) =~= s.skip(i));
    } else {
        assert(s.skip(0) =~= s);
    }
}

proof fn lemma_strip_end_take(s: Seq<char>, strip: spec_fn(char) -> bool, j: int)
    requires
        0 <= j <= s.len(),
        forall|k: int| j <= k < s.len() ==> strip(#[trigger] s[k]),
    ensures
        strip_end(s, strip) == strip_end(s.take(j), strip),
    decreases s.len() - j,
{
    if j < s.len() {
        assert(strip(s[s.len() - 1]));
        let t = s.drop_last();
        assert forall|k: int| j <= k < t.len() implies strip(#[trigger] t[k]) by {
            assert(t[k] == s[k]);
        }
        lemma_strip_end_take(t, strip, j);
        assert(t.take(j) =~= s.take(j));
    } else {
        assert(s.take(j) =~= s);
    }
}

fn is_strip_char(c: char, quote: bool) -> (r: bool)
    ensures
        r == (if quote { c == '\'' } else { is_white(c) }),
{
    if quote {
        c == '\''
    } else {
        is_white_exec(c)
    }
}

/// `cs` without the characters at either end that `quote` (an apostrophe) or, when `quote`
/// is false, white space accepts.
pub fn strip_ends(cs: &Vec<char>, quote: bool) -> (r: Vec<char>)
    ensures
        quote ==> r@ == unquoted(cs@),
        !quote ==> r@ == trimmed(cs@),
{
    let ghost strip: spec_fn(char) -> bool = if quote {
        |c: char| c == '\''
    } else {
        |c: char| is_white(c)
    };
    let mut i: usize = 0;
    while i < cs.len() && is_strip_char(cs[i], quote)
        invariant
            i <= cs@.len(),
            forall|k: int| 0 <= k < i ==> strip(#[trigger] cs@[k]),
            forall|c: char| #[trigger] strip(c) == (if quote { c == '\'' } else { is_white(c) }),
        decreases cs@.len() - i,
    {
        i += 1;
    }
    proof {
        lemma_strip_start_skip(cs@, strip, i as int);
        if i < cs@.len() {
            assert(!strip(cs@[i as int]));
            assert(cs@.skip(i as int)[0] == cs@[i as int]);
        } else {
            assert(cs@.skip(i as int).len() == 0);
        }
        assert(strip_start(cs@.skip(i as int), strip) == cs@.skip(i as int));
    }
    let ghost t = cs@.skip(i as int);
    let mut j: usize = cs.len();
    while j > i && is_strip_char(cs[j - 1], quote)
        invariant
            i <= j <= cs@.len(),
            t == cs@.skip(i as int),
            forall|k: int| j - i <= k < t.len() ==> strip(#[trigger] t[k]),
            forall|c: char| #[trigger] strip(c) == (if quote { c == '\'' } else { is_white(c) }),
        decreases j,
    {
        assert(t[j - 1 - i] == cs@[j - 1]);
        j -= 1;
    }
    proof {
        lemma_strip_end_take(t, strip, j - i);
        let u = t.take(j - i);
        if j > i {
            assert(u.last() == cs@[j - 1]);
            assert(!strip(u.last()));
        }
        assert(strip_end(u, strip) == u);
    }
    let mut out: Vec<char> = Vec::new();
    let mut k: usize = i;
    while k < j
        invariant
            i <= k <= j,
            j <= cs@.len(),
            out@ == cs@.subrange(i as int, k as int),
        decreases j - k,
    {
        out.push(cs[k]);
        k += 1;
        assert(out@ =~= cs@.subrange(i as int, k as int));
    }
    assert(out@ =~= t.take(j - i));
    out
}

/// `s` without white space at either end.
pub fn trim_str(s: &str) -> (r: String)
    ensures
        r@ == trimmed(s@),
{
    let cs = chars_of(s);
    let t = strip_ends(&cs, false);
    string_of(&t)
}

/// Evidence as recorded: trimmed, and absent when nothing but white space was given.
pub fn clean_evidence(value: Option<&str>) -> (r: Option<String>)
    ensures
        value is None ==> r is None,
        value is Some ==> (trimmed(value->0@).len() == 0 <==> r is None),
        r is Some ==> r->0@ == trimmed(value->0@),
{
    match value {
        None => None,
        Some(v) => {
            let t = trim_str(v);
            if t.unicode_len() == 0 {
                None
            } else {
                Some(t)
            }
        },
    }
}

} // verus!
