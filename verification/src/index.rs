//! Neighbors reported by a nearest-neighbor search, and their ranking.

use vstd::prelude::*;
use vstd::relations::{sorted_by, total_ordering};
use vstd::seq_lib::{lemma_sorted_unique, to_multiset_insert};

verus! {

/// One neighbor found by a search: the position of a stored point, counted
/// in insertion order, and its similarity to the query as the bit pattern of
/// a single-precision number.
#[derive(Clone, Copy, Debug, PartialEq, Eq, Structural)]
pub struct Hit {
    pub id: usize,
    pub score: u32,
}

/// The place of a score in the IEEE 754 total order: a greater key is a
/// greater score. Negative patterns are mirrored below the positive ones, so
/// the order of keys agrees with the numeric order of all ordinary numbers.
pub open spec fn score_key(score: u32) -> int {
    if score >= 0x8000_0000u32 {
        0xFFFF_FFFF - score
    } else {
        score + 0x8000_0000
    }
}

/// `a` is listed no later than `b`: a higher score comes first, and of two
/// equal scores the point that was inserted earlier.
pub open spec fn ranks_before(a: Hit, b: Hit) -> bool {
    score_key(a.score) > score_key(b.score) || (a.score == b.score && a.id <= b.id)
}

/// [`ranks_before`] as a relation.
pub open spec fn ranking() -> spec_fn(Hit, Hit) -> bool {
    |a: Hit, b: Hit| ranks_before(a, b)
}

/// The neighbors in ranked order, best first.
pub open spec fn ranked(hits: Seq<Hit>) -> Seq<Hit> {
    hits.sort_by(ranking())
}

/// Distinct scores have distinct keys.
pub proof fn lemma_score_key_injective(a: u32, b: u32)
    ensures
        score_key(a) == score_key(b) <==> a == b,
        0 <= score_key(a) <= 0xFFFF_FFFF,
{
}

/// The ranking is a total order on neighbors.
pub proof fn lemma_ranking_total()
    ensures
        total_ordering(ranking()),
{
    let r = ranking();
    assert forall|x: Hit, y: Hit| #[trigger] r(x, y) && #[trigger] r(y, x) implies x == y by {
        lemma_score_key_injective(x.score, y.score);
    }
}

/// A ranked list holds exactly the neighbors it was made from, each as often
/// as it was given, and no neighbor in it is outranked by a later one.
pub proof fn lemma_ranked(hits: Seq<Hit>)
    ensures
        ranked(hits).to_multiset() == hits.to_multiset(),
        ranked(hits).len() == hits.len(),
        forall|i: int, j: int|
            0 <= i < j < hits.len() ==> ranks_before(
                #[trigger] ranked(hits)[i],
                #[trigger] ranked(hits)[j],
            ),
        forall|i: int, j: int|
            0 <= i < j < hits.len() ==> score_key(#[trigger] ranked(hits)[i].score) >= score_key(
                #[trigger] ranked(hits)[j].score,
            ),
{
    broadcast use vstd::seq_lib::group_to_multiset_ensures;

    lemma_ranking_total();
    hits.lemma_sort_by_ensures(ranking());
    assert(ranked(hits).to_multiset().len() == hits.to_multiset().len());
    assert forall|i: int, j: int| 0 <= i < j < hits.len() implies ranks_before(
        #[trigger] ranked(hits)[i],
        #[trigger] ranked(hits)[j],
    ) by {
        assert(ranking()(ranked(hits)[i], ranked(hits)[j]));
    }
}

/// Any list that holds the same neighbors and is in ranked order is the
/// ranked list.
pub proof fn lemma_ranked_unique(hits: Seq<Hit>, out: Seq<Hit>)
    requires
        out.to_multiset() == hits.to_multiset(),
        sorted_by(out, ranking()),
    ensures
        out == ranked(hits),
{
    lemma_ranking_total();
    hits.lemma_sort_by_ensures(ranking());
    lemma_sorted_unique(out, ranked(hits), ranking());
}

/// Computes the key of a score.
pub fn key_of(score: u32) -> (key: u32)
    ensures
        key == score_key(score),
{
    if score >= 0x8000_0000u32 {
        u32::MAX - score
    } else {
        score + 0x8000_0000u32
    }
}

/// Decides whether `a` is listed no later than `b`.
pub fn precedes(a: &Hit, b: &Hit) -> (r: bool)
    ensures
        r == ranks_before(*a, *b),
{
    let ka: u32 = key_of(a.score);
    let kb: u32 = key_of(b.score);
    proof {
        lemma_score_key_injective(a.score, b.score);
    }
    ka > kb || (ka == kb && a.id <= b.id)
}

/// Ranks the neighbors, best first.
pub fn rank(hits: &Vec<Hit>) -> (out: Vec<Hit>)
    ensures
        out@ == ranked(hits@),
{
    let mut out: Vec<Hit> = Vec::new();
    let mut n: usize = 0;
    assert(out@ =~= hits@.take(0));
    while n < hits.len()
        invariant
            n <= hits.len(),
            out@.to_multiset() == hits@.take(n as int).to_multiset(),
            sorted_by(out@, ranking()),
        decreases hits.len() - n,
    {
        let hit: Hit = hits[n];
        let mut at: usize = 0;
        while at < out.len() && precedes(&out[at], &hit)
            invariant
                at <= out.len(),
                forall|i: int| 0 <= i < at ==> ranks_before(#[trigger] out@[i], hit),
            decreases out.len() - at,
        {
            at += 1;
        }
        proof {
            let before = out@;
            let after = before.insert(at as int, hit);
            lemma_ranking_total();
            to_multiset_insert(before, at as int, hit);
            assert(hits@.take(n + 1) =~= hits@.take(n as int).push(hit));
            vstd::seq_lib::to_multiset_build(hits@.take(n as int), hit);
            assert forall|i: int, j: int| 0 <= i < j < after.len() implies #[trigger] ranking()(
                after[i],
                after[j],
            ) by {
                if j == at {
                    assert(ranks_before(before[i], hit));
                } else if i == at {
                    assert(!ranks_before(before[at as int], hit));
                    assert(ranking()(before[at as int], hit) || ranking()(hit, before[at as int]));
                    if j - 1 > at {
                        assert(ranking()(before[at as int], before[j - 1]));
                    }
                    assert(ranks_before(hit, before[j - 1]));
                } else {
                    let bi = if i < at { i } else { i - 1 };
                    let bj = if j < at { j } else { j - 1 };
                    assert(ranking()(before[bi], before[bj]));
                }
            }
        }
        out.insert(at, hit);
        n += 1;
    }
    proof {
        assert(hits@.take(n as int) =~= hits@);
        lemma_ranked_unique(hits@, out@);
    }
    out
}

} // verus!
