//! The match engine: the candidates most similar to a target, best first.

use crate::profile::{profiles_of, ProfileView, UserProfile};
use crate::ranking::{
    eligible, is_ranking, lemma_ranking_exists, outranks, places_of, points_of, rank, ranking,
};
use crate::scoring::{score, similarity};
use vstd::prelude::*;

verus! {

/// The most matches that one request returns.
pub const MAX_MATCHES: usize = 10;

/// The mathematical model of a match.
pub struct MatchView {
    pub user: ProfileView,
    pub score: int,
}

/// One candidate together with its score for the target of the request.
#[derive(Debug, PartialEq, Eq)]
pub struct MatchResult {
    pub user: UserProfile,
    pub score: i128,
}

impl View for MatchResult {
    type V = MatchView;

    open spec fn view(&self) -> MatchView {
        MatchView { user: self.user@, score: self.score as int }
    }
}

impl Clone for MatchResult {
    fn clone(&self) -> (copy: Self)
        ensures
            copy@ == self@,
    {
        MatchResult { user: self.user.clone(), score: self.score }
    }
}

/// The matches of a list, in order, each as its model.
pub open spec fn matches_of(list: Seq<MatchResult>) -> Seq<MatchView> {
    list.map_values(|entry: MatchResult| entry@)
}

/// The score of every candidate for `target`, in the candidates' order.
pub open spec fn scores_against(target: ProfileView, candidates: Seq<ProfileView>) -> Seq<int> {
    candidates.map_values(|candidate: ProfileView| score(target, candidate))
}

/// The match that the candidate at `place` makes.
pub open spec fn match_at(target: ProfileView, candidates: Seq<ProfileView>, place: int) -> MatchView {
    MatchView { user: candidates[place], score: score(target, candidates[place]) }
}

/// The matches for `target` among `candidates`: the candidates that score
/// above zero, highest score first, equal scores in the candidates' order,
/// cut off after `MAX_MATCHES`.
pub open spec fn best_matches(target: ProfileView, candidates: Seq<ProfileView>) -> Seq<MatchView> {
    ranking(scores_against(target, candidates), MAX_MATCHES as nat).map_values(
        |place: int| match_at(target, candidates, place),
    )
}

/// The best matches are at most `MAX_MATCHES`, each scores above zero, and
/// they run from the highest score down, candidates of equal score in the
/// order of the candidates: `places` tells where among the candidates each
/// match stands.
pub proof fn lemma_best_matches_ordered(target: ProfileView, candidates: Seq<ProfileView>) -> (places:
    Seq<int>)
    ensures
        places == ranking(scores_against(target, candidates), MAX_MATCHES as nat),
        best_matches(target, candidates).len() == places.len() <= MAX_MATCHES,
        forall|j: int|
            0 <= j < places.len() ==> {
                &&& 0 <= #[trigger] places[j] < candidates.len()
                &&& best_matches(target, candidates)[j] == match_at(target, candidates, places[j])
                &&& best_matches(target, candidates)[j].score > 0
            },
        forall|j: int, k: int|
            0 <= j < k < places.len() ==> {
                let first = best_matches(target, candidates)[j];
                let second = best_matches(target, candidates)[k];
                first.score > second.score || (first.score == second.score && #[trigger] places[j]
                    < #[trigger] places[k])
            },
{
    let points = scores_against(target, candidates);
    let places = ranking(points, MAX_MATCHES as nat);
    lemma_ranking_exists(points, MAX_MATCHES as nat);
    assert forall|j: int| 0 <= j < places.len() implies {
        &&& 0 <= #[trigger] places[j] < candidates.len()
        &&& best_matches(target, candidates)[j] == match_at(target, candidates, places[j])
        &&& best_matches(target, candidates)[j].score > 0
    } by {
        assert(eligible(points, places[j]));
    }
    assert forall|j: int, k: int| 0 <= j < k < places.len() implies {
        let first = best_matches(target, candidates)[j];
        let second = best_matches(target, candidates)[k];
        first.score > second.score || (first.score == second.score && #[trigger] places[j]
            < #[trigger] places[k])
    } by {
        assert(eligible(points, places[j]) && eligible(points, places[k]));
        assert(outranks(points, places[j], places[k]));
    }
    places
}

/// Scores every candidate for `target`.
pub fn score_all(target: &UserProfile, candidates: &Vec<UserProfile>) -> (scores: Vec<i128>)
    ensures
        points_of(scores@) == scores_against(target@, profiles_of(candidates@)),
{
    let mut scores: Vec<i128> = Vec::new();
    let mut i: usize = 0;
    while i < candidates.len()
        invariant
            i <= candidates.len(),
            scores.len() == i,
            forall|k: int| 0 <= k < i ==> scores[k] as int == score(target@, candidates[k]@),
        decreases candidates.len() - i,
    {
        scores.push(similarity(target, &candidates[i]));
        i += 1;
    }
    scores
}

/// Finds the matches for `target` among `candidates`.
pub fn find_matches(target: &UserProfile, candidates: &Vec<UserProfile>) -> (matches: Vec<
    MatchResult,
>)
    ensures
        matches_of(matches@) == best_matches(target@, profiles_of(candidates@)),
        matches.len() <= MAX_MATCHES,
        forall|j: int| 0 <= j < matches.len() ==> (#[trigger] matches[j]).score > 0,
        forall|j: int, k: int|
            0 <= j < k < matches.len() ==> (#[trigger] matches[j]).score >= (
            #[trigger] matches[k]).score,
{
    let scores = score_all(target, candidates);
    let picks = rank(&scores, MAX_MATCHES);
    let ghost pool = profiles_of(candidates@);
    let ghost points = scores_against(target@, pool);
    let ghost places = places_of(picks@);
    let mut matches: Vec<MatchResult> = Vec::new();
    let mut j: usize = 0;
    while j < picks.len()
        invariant
            j <= picks.len(),
            matches.len() == j,
            pool == profiles_of(candidates@),
            points == scores_against(target@, pool),
            points == points_of(scores@),
            places == places_of(picks@),
            is_ranking(points, MAX_MATCHES as nat, places),
            forall|k: int|
                0 <= k < j ==> (#[trigger] matches[k])@ == match_at(target@, pool, places[k]),
        decreases picks.len() - j,
    {
        let place: usize = picks[j];
        proof {
            assert(eligible(points, places[j as int]));
        }
        matches.push(MatchResult { user: candidates[place].clone(), score: scores[place] });
        j += 1;
    }
    proof {
        assert forall|a: int| 0 <= a < matches.len() implies (#[trigger] matches[a]).score > 0 by {
            assert(eligible(points, places[a]));
        }
        assert forall|a: int, b: int| 0 <= a < b < matches.len() implies (
        #[trigger] matches[a]).score >= (#[trigger] matches[b]).score by {
            assert(outranks(points, places[a], places[b]));
        }
    }
    matches
}

} // verus!
