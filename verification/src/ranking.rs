//! Bounded stable ranking: the best-scoring positions of a list of scores,
//! highest first, equal scores in the order of the list.

use vstd::prelude::*;

verus! {

/// Position `i` of `scores` may be ranked at all: it exists and its score is
/// above zero.
pub open spec fn eligible(scores: Seq<int>, i: int) -> bool {
    0 <= i < scores.len() && scores[i] > 0
}

/// Position `a` ranks ahead of position `b`: it has the higher score, or the
/// same score and the earlier place in the list.
pub open spec fn outranks(scores: Seq<int>, a: int, b: int) -> bool {
    scores[a] > scores[b] || (scores[a] == scores[b] && a < b)
}

/// Position `i` had to stay out of `picks`: the ranking is full and every
/// entry of it ranks ahead of `i`.
pub open spec fn passed_over(scores: Seq<int>, limit: nat, picks: Seq<int>, i: int) -> bool {
    &&& picks.len() == limit
    &&& forall|j: int| 0 <= j < picks.len() ==> outranks(scores, #[trigger] picks[j], i)
}

/// `picks` is the ranking of `scores` cut off at `limit` entries:
/// it holds eligible positions only, each ranks ahead of all that follow it,
/// and an eligible position is missing only where it was passed over.
pub open spec fn is_ranking(scores: Seq<int>, limit: nat, picks: Seq<int>) -> bool {
    &&& picks.len() <= limit
    &&& forall|j: int| 0 <= j < picks.len() ==> eligible(scores, #[trigger] picks[j])
    &&& forall|j: int, k: int|
        0 <= j < k < picks.len() ==> outranks(scores, #[trigger] picks[j], #[trigger] picks[k])
    &&& forall|i: int| #[trigger]
        eligible(scores, i) && !picks.contains(i) ==> passed_over(scores, limit, picks, i)
}

/// The ranking of `scores` cut off at `limit` entries. There is exactly one:
/// see `lemma_ranking_exists` and `lemma_ranking_unique`.
pub open spec fn ranking(scores: Seq<int>, limit: nat) -> Seq<int> {
    choose|picks: Seq<int>| is_ranking(scores, limit, picks)
}

/// The scores of a list as mathematical integers.
pub open spec fn points_of(scores: Seq<i128>) -> Seq<int> {
    scores.map_values(|points: i128| points as int)
}

/// The positions of a list as mathematical integers.
pub open spec fn places_of(picks: Seq<usize>) -> Seq<int> {
    picks.map_values(|place: usize| place as int)
}

/// Where in `picks` a new last position with score `points` belongs: behind
/// every entry that scores at least as much.
spec fn landing(scores: Seq<int>, picks: Seq<int>, points: int) -> int
    decreases picks.len(),
{
    if picks.len() == 0 {
        0
    } else if scores[picks.last()] >= points {
        picks.len() as int
    } else {
        landing(scores, picks.drop_last(), points)
    }
}

/// `picks`, a ranking of `seen`, after one more score has been appended to
/// `seen` and given the place `at`.
spec fn extended(seen: Seq<int>, limit: nat, picks: Seq<int>, points: int, at: int) -> Seq<
    int,
> {
    if points <= 0 || at >= limit {
        picks
    } else if picks.len() < limit {
        picks.insert(at, seen.len() as int)
    } else {
        picks.insert(at, seen.len() as int).drop_last()
    }
}

/// The ranking built score by score, from the front of the list.
spec fn built_ranking(scores: Seq<int>, limit: nat) -> Seq<int>
    decreases scores.len(),
{
    if scores.len() == 0 {
        Seq::empty()
    } else {
        let seen = scores.drop_last();
        let picks = built_ranking(seen, limit);
        extended(seen, limit, picks, scores.last(), landing(seen, picks, scores.last()))
    }
}

proof fn lemma_landing(scores: Seq<int>, picks: Seq<int>, points: int)
    requires
        forall|j: int| 0 <= j < picks.len() ==> 0 <= #[trigger] picks[j] < scores.len(),
        forall|j: int, k: int|
            0 <= j < k < picks.len() ==> outranks(scores, #[trigger] picks[j], #[trigger] picks[k]),
    ensures
        0 <= landing(scores, picks, points) <= picks.len(),
        forall|k: int|
            0 <= k < landing(scores, picks, points) ==> scores[#[trigger] picks[k]] >= points,
        landing(scores, picks, points) < picks.len() ==> scores[picks[landing(
            scores,
            picks,
            points,
        )]] < points,
    decreases picks.len(),
{
    if picks.len() > 0 && scores[picks.last()] < points {
        let front = picks.drop_last();
        lemma_landing(scores, front, points);
        assert forall|k: int| 0 <= k < landing(scores, front, points) implies scores[
        #[trigger] picks[k]] >= points by {
            assert(front[k] == picks[k]);
        }
    }
}

/// Appending one score to the list and giving its position the place `at`
/// turns a ranking of the list into a ranking of the longer list.
proof fn lemma_extended_is_ranking(
    seen: Seq<int>,
    limit: nat,
    picks: Seq<int>,
    points: int,
    at: int,
)
    requires
        is_ranking(seen, limit, picks),
        0 <= at <= picks.len(),
        forall|k: int| 0 <= k < at ==> seen[#[trigger] picks[k]] >= points,
        at < picks.len() ==> seen[picks[at]] < points,
    ensures
        is_ranking(seen.push(points), limit, extended(seen, limit, picks, points, at)),
{
    let grown = seen.push(points);
    let newest = seen.len() as int;
    let after = extended(seen, limit, picks, points, at);
    // What held of the old positions still holds in the longer list.
    assert forall|i: int| eligible(grown, i) && i != newest && !picks.contains(i) implies passed_over(
        grown,
        limit,
        picks,
        i,
    ) by {
        assert(eligible(seen, i));
    }
    if points > 0 && at < limit {
        let wider = picks.insert(at, newest);
        assert forall|i: int| eligible(grown, i) && !wider.contains(i) implies picks.len() == limit
            && forall|j: int| 0 <= j < wider.len() ==> outranks(grown, #[trigger] wider[j], i) by {
            assert(wider[at] == newest);
            if picks.contains(i) {
                let j = choose|j: int| 0 <= j < picks.len() && picks[j] == i;
                if j < at {
                    assert(wider[j] == i);
                } else {
                    assert(wider[j + 1] == i);
                }
            }
        }
        if picks.len() >= limit {
            // The last entry leaves: every entry that stays ranks ahead of it.
            assert forall|i: int| #[trigger]
                eligible(grown, i) && !after.contains(i) implies passed_over(
                grown,
                limit,
                after,
                i,
            ) by {
                if wider.contains(i) {
                    let k = choose|k: int| 0 <= k < wider.len() && wider[k] == i;
                    if k < after.len() {
                        assert(after[k] == i);
                    }
                }
            }
        }
    }
}

proof fn lemma_built_is_ranking(scores: Seq<int>, limit: nat)
    ensures
        is_ranking(scores, limit, built_ranking(scores, limit)),
    decreases scores.len(),
{
    if scores.len() > 0 {
        let seen = scores.drop_last();
        let picks = built_ranking(seen, limit);
        lemma_built_is_ranking(seen, limit);
        assert forall|j: int| 0 <= j < picks.len() implies 0 <= #[trigger] picks[j]
            < seen.len() by {
            assert(eligible(seen, picks[j]));
        }
        lemma_landing(seen, picks, scores.last());
        lemma_extended_is_ranking(
            seen,
            limit,
            picks,
            scores.last(),
            landing(seen, picks, scores.last()),
        );
        assert(seen.push(scores.last()) =~= scores);
    }
}

/// Where two rankings agree up to place `j`, neither has at `j` a position
/// that ranks ahead of the other's.
proof fn lemma_leader_is_shared(
    scores: Seq<int>,
    limit: nat,
    p: Seq<int>,
    q: Seq<int>,
    j: int,
)
    requires
        is_ranking(scores, limit, p),
        is_ranking(scores, limit, q),
        0 <= j < p.len(),
        j < q.len(),
        forall|k: int| 0 <= k < j ==> p[k] == q[k],
    ensures
        !outranks(scores, p[j], q[j]),
{
    let x = p[j];
    if outranks(scores, x, q[j]) {
        if q.contains(x) {
            // `x` cannot stand before `j` in `q`, where `q` is `p`, nor behind.
            let k = choose|k: int| 0 <= k < q.len() && q[k] == x;
            assert(k != j);
        } else {
            // `x` was passed over in `q`, so `q[j]` ranks ahead of it.
            assert(eligible(scores, x));
        }
    }
}

proof fn lemma_rankings_share_front(
    scores: Seq<int>,
    limit: nat,
    p: Seq<int>,
    q: Seq<int>,
    n: int,
)
    requires
        is_ranking(scores, limit, p),
        is_ranking(scores, limit, q),
        0 <= n <= p.len(),
        n <= q.len(),
    ensures
        forall|j: int| 0 <= j < n ==> p[j] == q[j],
    decreases n,
{
    if n > 0 {
        lemma_rankings_share_front(scores, limit, p, q, n - 1);
        lemma_leader_is_shared(scores, limit, p, q, n - 1);
        lemma_leader_is_shared(scores, limit, q, p, n - 1);
    }
}

proof fn lemma_ranking_not_shorter(scores: Seq<int>, limit: nat, p: Seq<int>, q: Seq<int>)
    requires
        is_ranking(scores, limit, p),
        is_ranking(scores, limit, q),
    ensures
        p.len() >= q.len(),
{
    if p.len() < q.len() {
        // The next entry of `q` is not in `p`, though `p` is not full.
        let n = p.len() as int;
        lemma_rankings_share_front(scores, limit, p, q, n);
        let x = q[n];
        assert(eligible(scores, x));
        if p.contains(x) {
            let k = choose|k: int| 0 <= k < p.len() && p[k] == x;
            assert(q[k] == q[n]);
        }
    }
}

/// A list of scores has at most one ranking for a given limit.
pub proof fn lemma_ranking_unique(scores: Seq<int>, limit: nat, p: Seq<int>, q: Seq<int>)
    requires
        is_ranking(scores, limit, p),
        is_ranking(scores, limit, q),
    ensures
        p == q,
{
    lemma_ranking_not_shorter(scores, limit, p, q);
    lemma_ranking_not_shorter(scores, limit, q, p);
    lemma_rankings_share_front(scores, limit, p, q, p.len() as int);
    assert(p =~= q);
}

/// Every list of scores has a ranking for every limit, and `ranking` is it.
pub proof fn lemma_ranking_exists(scores: Seq<int>, limit: nat)
    ensures
        is_ranking(scores, limit, ranking(scores, limit)),
{
    lemma_built_is_ranking(scores, limit);
}

/// Whatever meets `is_ranking` is the ranking.
pub proof fn lemma_ranking_characterised(scores: Seq<int>, limit: nat, picks: Seq<int>)
    requires
        is_ranking(scores, limit, picks),
    ensures
        picks == ranking(scores, limit),
{
    lemma_ranking_unique(scores, limit, picks, ranking(scores, limit));
}

/// The ranking never exceeds its limit, holds eligible positions only, runs
/// from the highest score down, and lists equal scores in the order of
/// their positions.
pub proof fn lemma_ranking_ordered(scores: Seq<int>, limit: nat)
    ensures
        ranking(scores, limit).len() <= limit,
        forall|j: int|
            0 <= j < ranking(scores, limit).len() ==> eligible(
                scores,
                #[trigger] ranking(scores, limit)[j],
            ),
        forall|j: int, k: int|
            0 <= j < k < ranking(scores, limit).len() ==> scores[#[trigger] ranking(
                scores,
                limit,
            )[j]] >= scores[#[trigger] ranking(scores, limit)[k]],
        forall|j: int, k: int|
            0 <= j < k < ranking(scores, limit).len() && scores[#[trigger] ranking(
                scores,
                limit,
            )[j]] == scores[#[trigger] ranking(scores, limit)[k]] ==> ranking(scores, limit)[j]
                < ranking(scores, limit)[k],
{
    lemma_ranking_exists(scores, limit);
    let picks = ranking(scores, limit);
    assert forall|j: int, k: int| 0 <= j < k < picks.len() implies scores[#[trigger] picks[j]]
        >= scores[#[trigger] picks[k]] && (scores[picks[j]] == scores[picks[k]] ==> picks[j]
        < picks[k]) by {
        assert(outranks(scores, picks[j], picks[k]));
    }
}

/// An eligible position is missing from the ranking only where it was
/// passed over.
pub proof fn lemma_ranking_complete(scores: Seq<int>, limit: nat, i: int)
    requires
        eligible(scores, i),
    ensures
        ranking(scores, limit).contains(i) || passed_over(
            scores,
            limit,
            ranking(scores, limit),
            i,
        ),
{
    lemma_ranking_exists(scores, limit);
}

/// Cutting off commutes with ranking: the ranking under a smaller limit is
/// the front of the ranking under a larger one.
pub proof fn lemma_ranking_is_front(scores: Seq<int>, limit: nat, wider: nat)
    requires
        limit <= wider,
    ensures
        ranking(scores, limit).len() <= ranking(scores, wider).len(),
        ranking(scores, limit) == ranking(scores, wider).take(
            ranking(scores, limit).len() as int,
        ),
        ranking(scores, limit).len() == limit || ranking(scores, limit) == ranking(scores, wider),
{
    lemma_ranking_exists(scores, wider);
    let long = ranking(scores, wider);
    let cut = if long.len() <= limit {
        long.len() as int
    } else {
        limit as int
    };
    let front = long.take(cut);
    assert forall|i: int| #[trigger] eligible(scores, i) && !front.contains(i) implies passed_over(
        scores,
        limit,
        front,
        i,
    ) by {
        if long.contains(i) {
            let k = choose|k: int| 0 <= k < long.len() && long[k] == i;
            if k < cut {
                assert(front[k] == i);
            }
        }
    }
    lemma_ranking_characterised(scores, limit, front);
    if long.len() <= limit {
        assert(front =~= long);
    }
}

/// The test "is this score above zero?".
pub open spec fn above_zero() -> spec_fn(int) -> bool {
    |points: int| points > 0
}

/// How many positions of `scores` are eligible.
pub open spec fn eligible_count(scores: Seq<int>) -> nat {
    scores.filter(above_zero()).len()
}

proof fn lemma_built_len(scores: Seq<int>, limit: nat)
    ensures
        built_ranking(scores, limit).len() == if eligible_count(scores) <= limit {
            eligible_count(scores)
        } else {
            limit
        },
    decreases scores.len(),
{
    if scores.len() == 0 {
        reveal(Seq::filter);
    } else {
        let seen = scores.drop_last();
        let picks = built_ranking(seen, limit);
        lemma_built_len(seen, limit);
        lemma_built_is_ranking(seen, limit);
        assert forall|j: int| 0 <= j < picks.len() implies 0 <= #[trigger] picks[j]
            < seen.len() by {
            assert(eligible(seen, picks[j]));
        }
        lemma_landing(seen, picks, scores.last());
        seen.lemma_filter_len_push(above_zero(), scores.last());
        assert(seen.push(scores.last()) =~= scores);
    }
}

/// The ranking holds every eligible position, or as many as the limit
/// allows where there are more.
pub proof fn lemma_ranking_len(scores: Seq<int>, limit: nat)
    ensures
        ranking(scores, limit).len() == if eligible_count(scores) <= limit {
            eligible_count(scores)
        } else {
            limit
        },
{
    lemma_built_len(scores, limit);
    lemma_built_is_ranking(scores, limit);
    lemma_ranking_characterised(scores, limit, built_ranking(scores, limit));
}

/// Under a limit that the list cannot reach, the ranking is the stable sort
/// of the eligible positions: none of them is missing.
pub proof fn lemma_unbounded_ranking_complete(scores: Seq<int>, limit: nat, i: int)
    requires
        limit > scores.len(),
        eligible(scores, i),
    ensures
        ranking(scores, limit).contains(i),
{
    lemma_ranking_len(scores, limit);
    scores.lemma_filter_len(above_zero());
    lemma_ranking_complete(scores, limit, i);
}

/// Ranks the positions of `scores`: those with a score above zero, highest
/// score first, equal scores in list order, at most `limit` of them.
pub fn rank(scores: &Vec<i128>, limit: usize) -> (picks: Vec<usize>)
    ensures
        places_of(picks@) == ranking(points_of(scores@), limit as nat),
        is_ranking(points_of(scores@), limit as nat, places_of(picks@)),
{
    let ghost all = points_of(scores@);
    let mut picks: Vec<usize> = Vec::new();
    let mut i: usize = 0;
    while i < scores.len()
        invariant
            i <= scores.len(),
            all == points_of(scores@),
            is_ranking(all.take(i as int), limit as nat, places_of(picks@)),
        decreases scores.len() - i,
    {
        let points: i128 = scores[i];
        let ghost seen = all.take(i as int);
        let ghost before = places_of(picks@);
        assert forall|k: int| 0 <= k < picks.len() implies #[trigger] picks[k] < i by {
            assert(eligible(seen, before[k]));
        }
        // The new position goes behind every entry that scores at least as much.
        let mut at: usize = 0;
        while at < picks.len() && scores[picks[at]] >= points
            invariant
                at <= picks.len(),
                i < scores.len(),
                forall|k: int| 0 <= k < picks.len() ==> #[trigger] picks[k] < i,
                forall|k: int| 0 <= k < at ==> scores[#[trigger] picks[k] as int] >= points,
            decreases picks.len() - at,
        {
            at += 1;
        }
        proof {
            assert forall|k: int| 0 <= k < at implies seen[#[trigger] before[k]] >= points by {
                assert(seen[picks[k] as int] == scores[picks[k] as int]);
            }
            lemma_extended_is_ranking(seen, limit as nat, before, points as int, at as int);
            assert(all.take(i + 1) =~= seen.push(points as int));
        }
        if points > 0 && at < limit {
            picks.insert(at, i);
            assert(places_of(picks@) =~= before.insert(at as int, i as int));
            if picks.len() > limit {
                picks.pop();
                assert(places_of(picks@) =~= before.insert(at as int, i as int).drop_last());
            }
        }
        i += 1;
    }
    proof {
        assert(all.take(scores.len() as int) =~= all);
        lemma_ranking_characterised(all, limit as nat, places_of(picks@));
    }
    picks
}

} // verus!
