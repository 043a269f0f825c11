//! The profile store: every registered profile, in registration order, with
//! registration and the look-ups that a request for matches is made of.
//!
//! Registration takes the store by `&mut`, every read takes it by `&`: a
//! caller that shares one store among threads puts it behind a
//! reader-writer lock and gets exactly the access that each operation needs.

use crate::matching::{
    best_matches, find_matches, match_at, matches_of, scores_against, MatchResult, MatchView,
    MAX_MATCHES,
};
use crate::profile::{profiles_of, ProfileView, UserProfile};
use crate::ranking::{
    eligible, eligible_count, lemma_ranking_characterised, lemma_ranking_exists, lemma_ranking_len,
    outranks, passed_over, ranking,
};
use crate::scoring::score;
use vstd::prelude::*;

verus! {

/// Why a request to the store failed.
#[derive(Debug, Clone, Copy, PartialEq, Eq)]
pub enum StoreError {
    /// No profile with the requested id has been registered.
    NotFound,
}

/// All registered profiles, oldest first.
pub struct ProfileStore {
    profiles: Vec<UserProfile>,
}

impl View for ProfileStore {
    type V = Seq<ProfileView>;

    closed spec fn view(&self) -> Seq<ProfileView> {
        profiles_of(self.profiles@)
    }
}

/// Some registered profile has this id.
pub open spec fn has_id(profiles: Seq<ProfileView>, id: Seq<char>) -> bool {
    exists|i: int| 0 <= i < profiles.len() && (#[trigger] profiles[i]).id == id
}

/// `place` holds the oldest profile with this id.
pub open spec fn is_first_with_id(profiles: Seq<ProfileView>, id: Seq<char>, place: int) -> bool {
    &&& 0 <= place < profiles.len()
    &&& profiles[place].id == id
    &&& forall|k: int| 0 <= k < place ==> (#[trigger] profiles[k]).id != id
}

/// The place of the oldest profile with this id, where there is one.
pub open spec fn first_with_id(profiles: Seq<ProfileView>, id: Seq<char>) -> int {
    choose|place: int| is_first_with_id(profiles, id, place)
}

/// While some profile has the id, `first_with_id` is the place of the oldest.
pub proof fn lemma_first_with_id(profiles: Seq<ProfileView>, id: Seq<char>)
    requires
        has_id(profiles, id),
    ensures
        is_first_with_id(profiles, id, first_with_id(profiles, id)),
{
    let some = choose|i: int| 0 <= i < profiles.len() && (#[trigger] profiles[i]).id == id;
    lemma_oldest_exists(profiles, id, some);
}

proof fn lemma_oldest_exists(profiles: Seq<ProfileView>, id: Seq<char>, known: int)
    requires
        0 <= known < profiles.len(),
        profiles[known].id == id,
    ensures
        exists|place: int| is_first_with_id(profiles, id, place),
    decreases known,
{
    if exists|k: int| 0 <= k < known && (#[trigger] profiles[k]).id == id {
        let k = choose|k: int| 0 <= k < known && (#[trigger] profiles[k]).id == id;
        lemma_oldest_exists(profiles, id, k);
    } else {
        assert(is_first_with_id(profiles, id, known));
    }
}

/// A later registration never takes an id over: the oldest profile with
/// the id stays the one that the id names.
pub proof fn lemma_oldest_registration_wins(
    profiles: Seq<ProfileView>,
    profile: ProfileView,
    id: Seq<char>,
)
    requires
        has_id(profiles, id),
    ensures
        first_with_id(profiles.push(profile), id) == first_with_id(profiles, id),
        profiles.push(profile)[first_with_id(profiles.push(profile), id)] == profiles[first_with_id(
            profiles,
            id,
        )],
{
    let after = profiles.push(profile);
    let place = first_with_id(profiles, id);
    lemma_first_with_id(profiles, id);
    assert(is_first_with_id(after, id, place)) by {
        assert forall|k: int| 0 <= k < place implies (#[trigger] after[k]).id != id by {
            assert(after[k] == profiles[k]);
        }
    }
    lemma_first_with_id(after, id);
}

/// The test "does this profile have another id?".
pub open spec fn other_than(id: Seq<char>) -> spec_fn(ProfileView) -> bool {
    |profile: ProfileView| profile.id != id
}

/// The registered profiles with another id, in registration order.
pub open spec fn all_except(profiles: Seq<ProfileView>, id: Seq<char>) -> Seq<ProfileView> {
    profiles.filter(other_than(id))
}

/// The answer to "get matches" for `id`: `NotFound` where no profile has the
/// id, else the best matches for the oldest profile with the id among all
/// profiles with another id.
pub open spec fn matches_for(profiles: Seq<ProfileView>, id: Seq<char>) -> Result<
    Seq<MatchView>,
    StoreError,
> {
    if has_id(profiles, id) {
        Ok(best_matches(profiles[first_with_id(profiles, id)], all_except(profiles, id)))
    } else {
        Err(StoreError::NotFound)
    }
}

/// What each registered profile has to show against the profile that `id`
/// names: its score, or nothing where it carries the id itself.
pub open spec fn standing(profiles: Seq<ProfileView>, id: Seq<char>) -> Seq<int> {
    Seq::new(
        profiles.len(),
        |i: int|
            if profiles[i].id == id {
                0
            } else {
                score(profiles[first_with_id(profiles, id)], profiles[i])
            },
    )
}

/// The match that the registered profile at `place` makes for `id`.
pub open spec fn match_of_place(profiles: Seq<ProfileView>, id: Seq<char>, place: int) -> MatchView {
    MatchView { user: profiles[place], score: standing(profiles, id)[place] }
}

/// The places in `profiles` of the entries of `all_except(profiles, id)`.
spec fn kept_places(profiles: Seq<ProfileView>, id: Seq<char>) -> Seq<int>
    decreases profiles.len(),
{
    if profiles.len() == 0 {
        Seq::empty()
    } else {
        let earlier = kept_places(profiles.drop_last(), id);
        if profiles.last().id != id {
            earlier.push(profiles.len() - 1)
        } else {
            earlier
        }
    }
}

impl ProfileStore {
    /// An empty store.
    pub fn new() -> (store: Self)
        ensures
            store@ == Seq::<ProfileView>::empty(),
    {
        ProfileStore { profiles: Vec::new() }
    }

    /// How many profiles have been registered.
    pub fn len(&self) -> (count: usize)
        ensures
            count == self@.len(),
    {
        self.profiles.len()
    }

    /// Whether nothing has been registered yet.
    pub fn is_empty(&self) -> (empty: bool)
        ensures
            empty == (self@.len() == 0),
    {
        self.profiles.len() == 0
    }

    /// Appends `profile` and hands back the profile as stored. Nothing is
    /// checked: an id that is already there is registered once more.
    pub fn register(&mut self, profile: UserProfile) -> (stored: UserProfile)
        ensures
            final(self)@ == old(self)@.push(profile@),
            stored@ == profile@,
    {
        let stored = profile.clone();
        self.profiles.push(profile);
        stored
    }

    /// A copy of every registered profile, in registration order.
    pub fn snapshot(&self) -> (copy: Vec<UserProfile>)
        ensures
            profiles_of(copy@) == self@,
    {
        let mut copy: Vec<UserProfile> = Vec::new();
        let mut i: usize = 0;
        while i < self.profiles.len()
            invariant
                i <= self.profiles.len(),
                copy.len() == i,
                forall|k: int| 0 <= k < i ==> (#[trigger] copy[k])@ == self.profiles[k]@,
            decreases self.profiles.len() - i,
        {
            copy.push(self.profiles[i].clone());
            i += 1;
        }
        copy
    }

    /// A copy of the oldest profile with this id.
    pub fn find_by_id(&self, id: &str) -> (found: Result<UserProfile, StoreError>)
        ensures
            found is Ok <==> has_id(self@, id@),
            found matches Ok(profile) ==> profile@ == self@[first_with_id(self@, id@)],
            found matches Err(error) ==> error == StoreError::NotFound,
    {
        let wanted: String = id.to_owned();
        let mut i: usize = 0;
        while i < self.profiles.len()
            invariant
                i <= self.profiles.len(),
                wanted@ == id@,
                forall|k: int| 0 <= k < i ==> (#[trigger] self@[k]).id != id@,
            decreases self.profiles.len() - i,
        {
            if self.profiles[i].id == wanted {
                assert(is_first_with_id(self@, id@, i as int));
                return Ok(self.profiles[i].clone());
            }
            i += 1;
        }
        Err(StoreError::NotFound)
    }

    /// A copy of every profile with another id, in registration order.
    pub fn all_except(&self, id: &str) -> (others: Vec<UserProfile>)
        ensures
            profiles_of(others@) == all_except(self@, id@),
    {
        let wanted: String = id.to_owned();
        let mut others: Vec<UserProfile> = Vec::new();
        let mut i: usize = 0;
        assert(all_except(self@.take(0), id@) =~= profiles_of(others@)) by {
            reveal(Seq::filter);
        }
        while i < self.profiles.len()
            invariant
                i <= self.profiles.len(),
                wanted@ == id@,
                profiles_of(others@) == all_except(self@.take(i as int), id@),
            decreases self.profiles.len() - i,
        {
            proof {
                let seen = self@.take(i as int);
                assert(self@.take(i + 1) =~= seen.push(self@[i as int]));
                seen.lemma_filter_push(self@[i as int], other_than(id@));
            }
            if self.profiles[i].id != wanted {
                others.push(self.profiles[i].clone());
            }
            i += 1;
        }
        assert(self@.take(self.profiles.len() as int) =~= self@);
        others
    }

    /// Copies out what a request for the matches of `id` works on: the oldest
    /// profile with the id, and every profile with another id. A caller that
    /// shares the store takes both under one read access and hands them to
    /// `find_matches` after it has let go of the store.
    pub fn select(&self, id: &str) -> (selection: Result<(UserProfile, Vec<UserProfile>), StoreError>)
        ensures
            selection is Ok <==> has_id(self@, id@),
            selection matches Ok(pair) ==> {
                &&& pair.0@ == self@[first_with_id(self@, id@)]
                &&& profiles_of(pair.1@) == all_except(self@, id@)
                &&& matches_for(self@, id@) == Ok::<Seq<MatchView>, StoreError>(
                    best_matches(pair.0@, profiles_of(pair.1@)),
                )
            },
            selection matches Err(error) ==> error == StoreError::NotFound,
    {
        match self.find_by_id(id) {
            Err(error) => Err(error),
            Ok(target) => {
                let candidates = self.all_except(id);
                Ok((target, candidates))
            },
        }
    }

    /// The matches for the profile that `id` names: the profiles with
    /// another id that score above zero for it, best first, at most
    /// `MAX_MATCHES`. Fails with `NotFound` where no profile has the id.
    pub fn get_matches(&self, id: &str) -> (outcome: Result<Vec<MatchResult>, StoreError>)
        ensures
            outcome is Ok <==> has_id(self@, id@),
            outcome matches Ok(matches) ==> {
                &&& matches_for(self@, id@) == Ok::<Seq<MatchView>, StoreError>(
                    matches_of(matches@),
                )
                &&& matches.len() <= MAX_MATCHES
                &&& forall|j: int| 0 <= j < matches.len() ==> (#[trigger] matches[j]).score > 0
                &&& forall|j: int| 0 <= j < matches.len() ==> (#[trigger] matches[j]).user.id@ != id@
                &&& forall|j: int, k: int|
                    0 <= j < k < matches.len() ==> (#[trigger] matches[j]).score
                        >= (#[trigger] matches[k]).score
            },
            outcome matches Err(error) ==> error == StoreError::NotFound && matches_for(self@, id@)
                == Err::<Seq<MatchView>, StoreError>(error),
    {
        match self.select(id) {
            Err(error) => Err(error),
            Ok((target, candidates)) => {
                let matches = find_matches(&target, &candidates);
                proof {
                    lemma_matches_have_other_ids(self@, id@);
                    let found = matches_for(self@, id@)->Ok_0;
                    assert forall|j: int| 0 <= j < matches.len() implies (
                    #[trigger] matches[j]).user.id@ != id@ by {
                        assert(found[j] == matches[j]@);
                    }
                }
                Ok(matches)
            },
        }
    }
}

impl Default for ProfileStore {
    fn default() -> (store: Self)
        ensures
            store@ == Seq::<ProfileView>::empty(),
    {
        ProfileStore::new()
    }
}

/// `all_except` keeps profiles with another id only.
pub proof fn lemma_all_except_has_other_ids(profiles: Seq<ProfileView>, id: Seq<char>)
    ensures
        forall|c: int|
            0 <= c < all_except(profiles, id).len() ==> (#[trigger] all_except(
                profiles,
                id,
            )[c]).id != id,
{
    assert forall|c: int| 0 <= c < all_except(profiles, id).len() implies (#[trigger] all_except(
        profiles,
        id,
    )[c]).id != id by {
        profiles.lemma_filter_pred(other_than(id), c);
    }
}

/// No match carries the id that was asked about: whoever asks is never
/// matched with a profile of their own id.
pub proof fn lemma_matches_have_other_ids(profiles: Seq<ProfileView>, id: Seq<char>)
    requires
        has_id(profiles, id),
    ensures
        matches_for(profiles, id) matches Ok(matches) && forall|j: int|
            0 <= j < matches.len() ==> (#[trigger] matches[j]).user.id != id,
{
    let target = profiles[first_with_id(profiles, id)];
    let candidates = all_except(profiles, id);
    let points = scores_against(target, candidates);
    let picks = ranking(points, MAX_MATCHES as nat);
    let matches = best_matches(target, candidates);
    lemma_ranking_exists(points, MAX_MATCHES as nat);
    lemma_all_except_has_other_ids(profiles, id);
    assert forall|j: int| 0 <= j < matches.len() implies (#[trigger] matches[j]).user.id != id by {
        assert(eligible(points, picks[j]));
        assert(matches[j].user == candidates[picks[j]]);
    }
}

/// Registering a profile and then asking for the matches of its id finds
/// the id, and none of the matches carries it.
pub proof fn lemma_registered_profile_not_matched_with_itself(
    profiles: Seq<ProfileView>,
    profile: ProfileView,
)
    ensures
        matches_for(profiles.push(profile), profile.id) matches Ok(matches) && forall|j: int|
            0 <= j < matches.len() ==> (#[trigger] matches[j]).user.id != profile.id,
{
    let after = profiles.push(profile);
    assert(after[profiles.len() as int].id == profile.id);
    lemma_matches_have_other_ids(after, profile.id);
}

/// An id that no registered profile carries is not found.
pub proof fn lemma_unregistered_id_not_found(profiles: Seq<ProfileView>, id: Seq<char>)
    requires
        forall|i: int| 0 <= i < profiles.len() ==> (#[trigger] profiles[i]).id != id,
    ensures
        matches_for(profiles, id) == Err::<Seq<MatchView>, StoreError>(StoreError::NotFound),
{
}

/// The answer to a request depends on the registered profiles and the id
/// alone: asking twice with no registration in between gives the same answer.
pub proof fn lemma_request_repeatable(
    profiles: Seq<ProfileView>,
    id: Seq<char>,
    first: Result<Seq<MatchView>, StoreError>,
    second: Result<Seq<MatchView>, StoreError>,
)
    requires
        first == matches_for(profiles, id),
        second == matches_for(profiles, id),
    ensures
        first == second,
{
}

proof fn lemma_kept_places(profiles: Seq<ProfileView>, id: Seq<char>)
    ensures
        kept_places(profiles, id).len() == all_except(profiles, id).len(),
        forall|c: int|
            0 <= c < kept_places(profiles, id).len() ==> {
                &&& 0 <= #[trigger] kept_places(profiles, id)[c] < profiles.len()
                &&& profiles[kept_places(profiles, id)[c]] == all_except(profiles, id)[c]
                &&& profiles[kept_places(profiles, id)[c]].id != id
            },
        forall|c: int, d: int|
            0 <= c < d < kept_places(profiles, id).len() ==> #[trigger] kept_places(profiles, id)[c]
                < #[trigger] kept_places(profiles, id)[d],
        forall|i: int|
            0 <= i < profiles.len() && (#[trigger] profiles[i]).id != id ==> kept_places(
                profiles,
                id,
            ).contains(i),
    decreases profiles.len(),
{
    let kept = kept_places(profiles, id);
    if profiles.len() == 0 {
        reveal(Seq::filter);
    } else {
        let earlier_profiles = profiles.drop_last();
        let earlier = kept_places(earlier_profiles, id);
        lemma_kept_places(earlier_profiles, id);
        assert(profiles =~= earlier_profiles.push(profiles.last()));
        earlier_profiles.lemma_filter_push(profiles.last(), other_than(id));
        assert forall|i: int| 0 <= i < profiles.len() && (#[trigger] profiles[i]).id
            != id implies kept.contains(i) by {
            if i < profiles.len() - 1 {
                assert(earlier_profiles[i] == profiles[i]);
                let c = choose|c: int| 0 <= c < earlier.len() && earlier[c] == i;
                assert(kept[c] == i);
            } else {
                assert(kept[kept.len() - 1] == i);
            }
        }
    }
}

/// The matches for an id, told by places in the store: they are the ranking
/// of the registered profiles by their standing, so that they run from the
/// highest score down and profiles of equal score appear in the order in
/// which they were registered.
pub proof fn lemma_matches_rank_the_store(profiles: Seq<ProfileView>, id: Seq<char>)
    requires
        has_id(profiles, id),
    ensures
        matches_for(profiles, id) == Ok::<Seq<MatchView>, StoreError>(
            ranking(standing(profiles, id), MAX_MATCHES as nat).map_values(
                |place: int| match_of_place(profiles, id, place),
            ),
        ),
{
    let limit = MAX_MATCHES as nat;
    let target = profiles[first_with_id(profiles, id)];
    let candidates = all_except(profiles, id);
    let points = scores_against(target, candidates);
    let picks = ranking(points, limit);
    let kept = kept_places(profiles, id);
    let ranks = standing(profiles, id);
    let places = picks.map_values(|c: int| kept[c]);
    lemma_ranking_exists(points, limit);
    lemma_kept_places(profiles, id);
    // The ranking of the candidates, told by places in the store, is a
    // ranking of the store by standing.
    assert forall|j: int| 0 <= j < places.len() implies eligible(ranks, #[trigger] places[j]) by {
        assert(eligible(points, picks[j]));
    }
    assert forall|j: int, k: int| 0 <= j < k < places.len() implies outranks(
        ranks,
        #[trigger] places[j],
        #[trigger] places[k],
    ) by {
        assert(outranks(points, picks[j], picks[k]));
    }
    assert forall|i: int| #[trigger] eligible(ranks, i) && !places.contains(i) implies passed_over(
        ranks,
        limit,
        places,
        i,
    ) by {
        assert(kept.contains(i));
        let c = choose|c: int| 0 <= c < kept.len() && kept[c] == i;
        assert(eligible(points, c));
        if picks.contains(c) {
            let j = choose|j: int| 0 <= j < picks.len() && picks[j] == c;
            assert(places[j] == i);
        }
        assert forall|j: int| 0 <= j < places.len() implies outranks(
            ranks,
            #[trigger] places[j],
            i,
        ) by {
            assert(outranks(points, picks[j], c));
        }
    }
    lemma_ranking_characterised(ranks, limit, places);
    assert(best_matches(target, candidates) =~= places.map_values(
        |place: int| match_of_place(profiles, id, place),
    )) by {
        assert forall|j: int| 0 <= j < picks.len() implies match_at(target, candidates, picks[j])
            == match_of_place(profiles, id, #[trigger] places[j]) by {
            assert(eligible(points, picks[j]));
        }
    }
}

/// The matches for an id are at most `MAX_MATCHES`, run from the highest
/// score down, and list profiles of equal score in the order in which they
/// were registered: `places` tells where in the store each match stands.
pub proof fn lemma_matches_ordered(profiles: Seq<ProfileView>, id: Seq<char>) -> (places: Seq<int>)
    requires
        has_id(profiles, id),
    ensures
        matches_for(profiles, id) matches Ok(matches) && {
            &&& matches.len() == places.len() <= MAX_MATCHES
            &&& forall|j: int|
                0 <= j < places.len() ==> 0 <= #[trigger] places[j] < profiles.len() && matches[j]
                    == match_of_place(profiles, id, places[j])
            &&& forall|j: int, k: int|
                0 <= j < k < places.len() ==> (#[trigger] matches[j]).score > (
                #[trigger] matches[k]).score || (matches[j].score == matches[k].score && places[j]
                    < places[k])
        },
{
    let ranks = standing(profiles, id);
    let places = ranking(ranks, MAX_MATCHES as nat);
    lemma_matches_rank_the_store(profiles, id);
    lemma_ranking_exists(ranks, MAX_MATCHES as nat);
    let matches = matches_for(profiles, id)->Ok_0;
    assert forall|j: int| 0 <= j < places.len() implies 0 <= #[trigger] places[j] < profiles.len()
        && matches[j] == match_of_place(profiles, id, places[j]) by {
        assert(eligible(ranks, places[j]));
    }
    assert forall|j: int, k: int| 0 <= j < k < places.len() implies (#[trigger] matches[j]).score
        > (#[trigger] matches[k]).score || (matches[j].score == matches[k].score && places[j]
        < places[k]) by {
        assert(outranks(ranks, places[j], places[k]));
    }
    places
}

/// The matches for an id are as many as there are registered profiles with
/// another id and a score above zero, up to `MAX_MATCHES`.
pub proof fn lemma_matches_len(profiles: Seq<ProfileView>, id: Seq<char>)
    requires
        has_id(profiles, id),
    ensures
        matches_for(profiles, id) matches Ok(matches) && matches.len() == if eligible_count(
            standing(profiles, id),
        ) <= MAX_MATCHES {
            eligible_count(standing(profiles, id))
        } else {
            MAX_MATCHES as nat
        },
{
    lemma_matches_rank_the_store(profiles, id);
    lemma_ranking_len(standing(profiles, id), MAX_MATCHES as nat);
}

} // verus!
