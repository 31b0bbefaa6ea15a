//! The ordering rule of every ranked answer: higher scores first, and among
//! equal scores the smaller identifier first.

use vstd::prelude::*;
use crate::arith::{is_nan, order_key, nan, key};
use crate::id::Id;

verus! {

/// One answer of a search: what was found and how close it is.
#[derive(Debug, Clone, Copy, PartialEq, Eq, Structural)]
pub struct SearchResult {
    /// The identifier of what was found.
    pub id: Id,
    /// Its proximity to the query, as a word.
    pub score: u32,
}

/// Where a score stands in a ranking: numbers as they are ordered, and
/// what is no number below them all.
pub open spec fn rank_key(score: u32) -> int {
    if is_nan(score) {
        -0x8000_0000
    } else {
        order_key(score)
    }
}

/// Whether `a` comes strictly before `b` in a ranking.
pub open spec fn ranks_before(a: SearchResult, b: SearchResult) -> bool {
    rank_key(a.score) > rank_key(b.score) || (rank_key(a.score) == rank_key(b.score)
        && a.id.key() < b.id.key())
}

/// Whether `a` may stand before `b` in a ranking.
pub open spec fn in_order(a: SearchResult, b: SearchResult) -> bool {
    !ranks_before(b, a)
}

/// Whether `s` is ranked: scores do not increase, and among equal scores
/// identifiers do not decrease.
pub open spec fn ranked(s: Seq<SearchResult>) -> bool {
    forall|i: int, j: int| 0 <= i < j < s.len() ==> in_order(s[i], s[j])
}

/// Whether `picks` are the places in `cands` of its best `k`, best first:
/// as many as there are, at most `k`, no place twice, in ranking order, and
/// nothing that was left out comes before anything that was picked.
pub open spec fn is_selection(picks: Seq<int>, cands: Seq<SearchResult>, k: nat) -> bool {
    &&& picks.len() == if k < cands.len() { k } else { cands.len() }
    &&& forall|i: int| 0 <= i < picks.len() ==> 0 <= #[trigger] picks[i] < cands.len()
    &&& forall|i: int, j: int| 0 <= i < j < picks.len() ==> picks[i] != picks[j]
    &&& forall|i: int, j: int|
        0 <= i < j < picks.len() ==> in_order(cands[picks[i]], cands[picks[j]])
    &&& forall|i: int, c: int|
        0 <= i < picks.len() && 0 <= c < cands.len() && !picks.contains(c) ==> in_order(
            cands[#[trigger] picks[i]],
            #[trigger] cands[c],
        )
}

/// The candidates at the places `picks`.
pub open spec fn picked(picks: Seq<int>, cands: Seq<SearchResult>) -> Seq<SearchResult> {
    Seq::new(picks.len(), |i: int| cands[picks[i]])
}

/// Whether `out` is the best `k` of `cands`, best first.
pub open spec fn is_top(out: Seq<SearchResult>, cands: Seq<SearchResult>, k: nat) -> bool {
    exists|picks: Seq<int>| #[trigger] is_selection(picks, cands, k) && out == picked(picks, cands)
}

/// What is picked by a selection is ranked.
pub proof fn lemma_selection_ranked(picks: Seq<int>, cands: Seq<SearchResult>, k: nat)
    requires
        is_selection(picks, cands, k),
    ensures
        ranked(picked(picks, cands)),
        picked(picks, cands).len() <= k,
{
}

/// The best `k` of anything are ranked and at most `k`.
pub proof fn lemma_top_ranked(out: Seq<SearchResult>, cands: Seq<SearchResult>, k: nat)
    requires
        is_top(out, cands, k),
    ensures
        ranked(out),
        out.len() <= k,
        out.len() <= cands.len(),
        forall|i: int| 0 <= i < out.len() ==> cands.contains(#[trigger] out[i]),
{
    let picks = choose|picks: Seq<int>| #[trigger]
        is_selection(picks, cands, k) && out == picked(picks, cands);
    lemma_selection_ranked(picks, cands, k);
    assert forall|i: int| 0 <= i < out.len() implies cands.contains(#[trigger] out[i]) by {
        assert(out[i] == cands[picks[i]]);
    }
}

/// Where a score stands in a ranking.
pub fn score_rank(score: u32) -> (r: i64)
    ensures
        r == rank_key(score),
{
    if nan(score) {
        -0x8000_0000
    } else {
        key(score)
    }
}

/// Whether `a` comes strictly before `b` in a ranking.
pub fn before(a: &SearchResult, b: &SearchResult) -> (r: bool)
    ensures
        r == ranks_before(*a, *b),
{
    let ka = score_rank(a.score);
    let kb = score_rank(b.score);
    ka > kb || (ka == kb && a.id.precedes(&b.id))
}

/// The places in `cands` of its best `k`, best first.
pub fn select(cands: &Vec<SearchResult>, k: usize) -> (picks: Vec<usize>)
    ensures
        is_selection(picks@.map_values(|p: usize| p as int), cands@, k as nat),
{
    let n = cands.len();
    let m = if k < n { k } else { n };
    let mut perm: Vec<usize> = Vec::new();
    let mut i: usize = 0;
    while i < n
        invariant
            i <= n,
            perm@.len() == i,
            forall|j: int| 0 <= j < i ==> perm@[j] == j,
        decreases n - i,
    {
        perm.push(i);
        i = i + 1;
    }
    let ghost mut inv: Seq<int> = Seq::new(n as nat, |j: int| j);
    let mut i: usize = 0;
    while i < m
        invariant
            i <= m <= n,
            n == cands@.len(),
            perm@.len() == n,
            inv.len() == n,
            forall|j: int| 0 <= j < n ==> 0 <= #[trigger] perm@[j] < n,
            forall|c: int| 0 <= c < n ==> 0 <= #[trigger] inv[c] < n && perm@[inv[c]] == c,
            forall|j: int| 0 <= j < n ==> inv[#[trigger] perm@[j] as int] == j,
            forall|a: int, b: int|
                0 <= a < b < i ==> in_order(cands@[perm@[a] as int], cands@[perm@[b] as int]),
            forall|a: int, l: int|
                0 <= a < i && i <= l < n ==> in_order(
                    cands@[perm@[a] as int],
                    cands@[perm@[l] as int],
                ),
        decreases m - i,
    {
        let mut best: usize = i;
        let mut l: usize = i + 1;
        while l < n
            invariant
                i < n,
                i <= best < n,
                i < l <= n,
                n == cands@.len(),
                perm@.len() == n,
                forall|j: int| 0 <= j < n ==> 0 <= #[trigger] perm@[j] < n,
                forall|x: int|
                    i <= x < l ==> in_order(
                        cands@[perm@[best as int] as int],
                        cands@[perm@[x] as int],
                    ),
            decreases n - l,
        {
            if before(&cands[perm[l]], &cands[perm[best]]) {
                best = l;
            }
            l = l + 1;
        }
        let pi = perm[i];
        let pb = perm[best];
        perm.set(i, pb);
        perm.set(best, pi);
        proof {
            inv = inv.update(pi as int, best as int).update(pb as int, i as int);
        }
        i = i + 1;
    }
    let mut picks: Vec<usize> = Vec::new();
    let mut j: usize = 0;
    while j < m
        invariant
            j <= m <= n,
            perm@.len() == n,
            picks@.len() == j,
            forall|x: int| 0 <= x < j ==> picks@[x] == perm@[x],
        decreases m - j,
    {
        picks.push(perm[j]);
        j = j + 1;
    }
    proof {
        let ps = picks@.map_values(|p: usize| p as int);
        assert forall|a: int, c: int|
            0 <= a < ps.len() && 0 <= c < cands@.len() && !ps.contains(c) implies in_order(
            cands@[#[trigger] ps[a]],
            #[trigger] cands@[c],
        ) by {
            let l = inv[c];
            if l < m {
                assert(ps[l] == c);
                assert(ps.contains(c));
            }
        }
        assert forall|a: int, b: int| 0 <= a < b < ps.len() implies ps[a] != ps[b] by {
            assert(inv[perm@[a] as int] == a);
            assert(inv[perm@[b] as int] == b);
        }
    }
    picks
}

/// The best `k` of `cands`, best first.
pub fn rank(cands: &Vec<SearchResult>, k: usize) -> (out: Vec<SearchResult>)
    ensures
        is_top(out@, cands@, k as nat),
        ranked(out@),
        out@.len() == if k < cands@.len() { k as nat } else { cands@.len() },
{
    let picks = select(cands, k);
    let ghost ps = picks@.map_values(|p: usize| p as int);
    let mut out: Vec<SearchResult> = Vec::new();
    let mut i: usize = 0;
    while i < picks.len()
        invariant
            i <= picks@.len(),
            ps == picks@.map_values(|p: usize| p as int),
            is_selection(ps, cands@, k as nat),
            out@.len() == i,
            forall|j: int| 0 <= j < i ==> out@[j] == cands@[ps[j]],
        decreases picks.len() - i,
    {
        assert(0 <= ps[i as int] < cands@.len());
        out.push(cands[picks[i]]);
        i = i + 1;
    }
    proof {
        assert(out@ =~= picked(ps, cands@));
        lemma_selection_ranked(ps, cands@, k as nat);
    }
    out
}

} // verus!
