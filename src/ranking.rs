use vstd::prelude::*;

use crate::text::{chars_eq, chars_lt, chars_of, lemma_seq_lt_asymmetric, lemma_seq_lt_irreflexive, lemma_seq_lt_total, lemma_seq_lt_transitive, seq_lt};

verus! {

/// One candidate to rank: an order key for its total score (a larger key is a higher score),
/// its support count and its identifier.
#[derive(Clone, Debug)]
pub struct RankEntry {
    pub score: u64,
    pub support_count: usize,
    pub id: String,
}

/// What decides between equal scores.
#[derive(Clone, Copy, Debug, PartialEq, Eq, Structural)]
pub enum TieBreak {
    /// More support first.
    SupportDesc,
    /// Identifiers in ascending order.
    IdAsc,
}

/// The ranking order: higher score first; on equal scores the tie-break key; on equal keys
/// the earlier entry.
pub open spec fn ranks_before(es: Seq<RankEntry>, tie: TieBreak, i: int, j: int) -> bool {
    let a = es[i];
    let b = es[j];
    a.score > b.score || (a.score == b.score && match tie {
        TieBreak::SupportDesc => a.support_count > b.support_count || (a.support_count
            == b.support_count && i < j),
        TieBreak::IdAsc => seq_lt(a.id@, b.id@) || (a.id@ == b.id@ && i < j),
    })
}

pub proof fn lemma_ranks_before_order(es: Seq<RankEntry>, tie: TieBreak, i: int, j: int, k: int)
    ensures
        !ranks_before(es, tie, i, i),
        i != j ==> ranks_before(es, tie, i, j) || ranks_before(es, tie, j, i),
        !(ranks_before(es, tie, i, j) && ranks_before(es, tie, j, i)),
        ranks_before(es, tie, i, j) && ranks_before(es, tie, j, k) ==> ranks_before(es, tie, i, k),
{
    lemma_seq_lt_irreflexive(es[i].id@);
    lemma_seq_lt_total(es[i].id@, es[j].id@);
    lemma_seq_lt_asymmetric(es[i].id@, es[j].id@);
    if seq_lt(es[i].id@, es[j].id@) && seq_lt(es[j].id@, es[k].id@) {
        lemma_seq_lt_transitive(es[i].id@, es[j].id@, es[k].id@);
    }
}

fn precedes(es: &Vec<RankEntry>, ids: &Vec<Vec<char>>, tie: TieBreak, i: usize, j: usize) -> (r: bool)
    requires
        i < es@.len(),
        j < es@.len(),
        ids@.len() == es@.len(),
        forall|k: int| 0 <= k < es@.len() ==> (#[trigger] ids@[k])@ == es@[k].id@,
    ensures
        r == ranks_before(es@, tie, i as int, j as int),
{
    let a = &es[i];
    let b = &es[j];
    if a.score != b.score {
        return a.score > b.score;
    }
    match tie {
        TieBreak::SupportDesc => a.support_count > b.support_count || (a.support_count == b.support_count && i < j),
        TieBreak::IdAsc => chars_lt(&ids[i], &ids[j]) || (chars_eq(&ids[i], &ids[j]) && i < j),
    }
}

/// The positions of `entries` in ranking order (see `ranks_before`), cut after the first
/// `limit`: the result is sorted, holds `min(limit, len)` distinct positions, and every
/// position it leaves out ranks after every one it holds.
pub fn rank_order(entries: &Vec<RankEntry>, tie: TieBreak, limit: usize) -> (r: Vec<usize>)
    ensures
        r@.len() == (if limit < entries@.len() { limit as int } else { entries@.len() as int }),
        forall|t: int| 0 <= t < r@.len() ==> #[trigger] r@[t] < entries@.len(),
        forall|s: int, t: int| 0 <= s < t < r@.len() ==> ranks_before(entries@, tie, #[trigger] r@[s] as int, #[trigger] r@[t] as int),
        forall|i: int, t: int| 0 <= i < entries@.len() && !r@.contains(i as usize) && 0 <= t < r@.len() ==> #[trigger] ranks_before(
            entries@,
            tie,
            r@[t] as int,
            i,
        ),
{
    let ghost es = entries@;
    let mut ids: Vec<Vec<char>> = Vec::new();
    let mut k: usize = 0;
    while k < entries.len()
        invariant
            k <= entries@.len(),
            ids@.len() == k,
            forall|q: int| 0 <= q < k ==> (#[trigger] ids@[q])@ == entries@[q].id@,
        decreases entries@.len() - k,
    {
        ids.push(chars_of(entries[k].id.as_str()));
        k += 1;
    }
    let mut full: Vec<usize> = Vec::new();
    let mut i: usize = 0;
    while i < entries.len()
        invariant
            es == entries@,
            ids@.len() == es.len(),
            forall|q: int| 0 <= q < es.len() ==> (#[trigger] ids@[q])@ == es[q].id@,
            i <= es.len(),
            full@.len() == i,
            forall|t: int| 0 <= t < full@.len() ==> #[trigger] full@[t] < i,
            forall|x: usize| x < i ==> #[trigger] full@.contains(x),
            forall|s: int, t: int| 0 <= s < t < full@.len() ==> ranks_before(es, tie, #[trigger] full@[s] as int, #[trigger] full@[t] as int),
        decreases es.len() - i,
    {
        let mut pos: usize = 0;
        while pos < full.len() && precedes(entries, &ids, tie, full[pos], i)
            invariant
                es == entries@,
                ids@.len() == es.len(),
                forall|q: int| 0 <= q < es.len() ==> (#[trigger] ids@[q])@ == es[q].id@,
                i < es.len(),
                pos <= full@.len(),
                forall|t: int| 0 <= t < full@.len() ==> #[trigger] full@[t] < i,
                forall|t: int| 0 <= t < pos ==> ranks_before(es, tie, #[trigger] full@[t] as int, i as int),
            decreases full@.len() - pos,
        {
            pos += 1;
        }
        let ghost before = full@;
        proof {
            if pos < before.len() {
                lemma_ranks_before_order(es, tie, before[pos as int] as int, i as int, 0);
                assert(ranks_before(es, tie, i as int, before[pos as int] as int));
            }
        }
        full.insert(pos, i);
        proof {
            assert(full@ =~= before.insert(pos as int, i));
            assert forall|s: int, t: int| 0 <= s < t < full@.len() implies ranks_before(es, tie, #[trigger] full@[s] as int, #[trigger] full@[t] as int) by {
                if t < pos {
                    assert(full@[s] == before[s] && full@[t] == before[t]);
                } else if t == pos {
                    assert(full@[s] == before[s]);
                } else if s < pos {
                    assert(full@[s] == before[s] && full@[t] == before[t - 1]);
                    lemma_ranks_before_order(es, tie, before[s] as int, i as int, before[t - 1] as int);
                    if t - 1 > pos {
                        lemma_ranks_before_order(es, tie, i as int, before[pos as int] as int, before[t - 1] as int);
                    }
                } else if s == pos {
                    assert(full@[t] == before[t - 1]);
                    if t - 1 > pos {
                        lemma_ranks_before_order(es, tie, i as int, before[pos as int] as int, before[t - 1] as int);
                    }
                } else {
                    assert(full@[s] == before[s - 1] && full@[t] == before[t - 1]);
                }
            }
            assert forall|x: usize| x < i + 1 implies #[trigger] full@.contains(x) by {
                if x < i {
                    assert(before.contains(x));
                    let q = choose|q: int| 0 <= q < before.len() && before[q] == x;
                    if q < pos {
                        assert(full@[q] == x);
                    } else {
                        assert(full@[q + 1] == x);
                    }
                } else {
                    assert(full@[pos as int] == i);
                }
            }
        }
        i += 1;
    }
    let ghost all = full@;
    full.truncate(limit);
    proof {
        assert forall|x: int, t: int| 0 <= x < es.len() && !full@.contains(x as usize) && 0 <= t < full@.len() implies #[trigger] ranks_before(
            es,
            tie,
            full@[t] as int,
            x,
        ) by {
            assert(all.contains(x as usize));
            let q = choose|q: int| 0 <= q < all.len() && all[q] == x as usize;
            if q < full@.len() {
                assert(full@[q] == x as usize);
            }
            assert(full@[t] == all[t]);
        }
    }
    full
}

} // verus!
