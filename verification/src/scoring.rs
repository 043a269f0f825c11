//! The point-scoring heuristic: how similar one profile is to another.

use crate::profile::{labels_of, ProfileView, UserProfile};
use vstd::prelude::*;

verus! {

/// Points for each of the target's symptoms that the candidate also lists.
pub const SYMPTOM_POINTS: i128 = 10;

/// Points for each of the target's triggers that the candidate also lists.
pub const TRIGGER_POINTS: i128 = 8;

/// The pressure-sensitivity gap at which the proximity bonus reaches zero.
pub const PRESSURE_SPAN: i64 = 5;

/// Points for each step by which the gap stays under `PRESSURE_SPAN`.
pub const PRESSURE_STEP: i64 = 5;

/// The test "does `pool` list this label?".
pub open spec fn listed_in(pool: Seq<Seq<char>>) -> spec_fn(Seq<char>) -> bool {
    |label: Seq<char>| pool.contains(label)
}

/// How many entries of `own` occur in `other`. Every entry of `own` counts
/// for itself, so a label that `own` repeats counts each time; how often
/// `other` repeats it makes no difference.
pub open spec fn shared_count(own: Seq<Seq<char>>, other: Seq<Seq<char>>) -> nat {
    own.filter(listed_in(other)).len()
}

/// The bonus for close pressure sensitivities: 25 for equal values, 5 less
/// for each step apart, without a floor.
pub open spec fn proximity_bonus(own: int, other: int) -> int {
    let distance = if own >= other {
        own - other
    } else {
        other - own
    };
    (PRESSURE_SPAN - distance) * PRESSURE_STEP
}

/// The points that shared symptoms and shared triggers earn `candidate`
/// when it is held against `target`.
pub open spec fn overlap_points(target: ProfileView, candidate: ProfileView) -> int {
    SYMPTOM_POINTS * shared_count(target.common_symptoms, candidate.common_symptoms)
        + TRIGGER_POINTS * shared_count(target.triggers, candidate.triggers)
}

/// The similarity score of `candidate` for `target`.
pub open spec fn score(target: ProfileView, candidate: ProfileView) -> int {
    overlap_points(target, candidate) + proximity_bonus(
        target.pressure_sensitivity,
        candidate.pressure_sensitivity,
    )
}

/// Whether `list` holds `label`.
pub fn has_label(list: &Vec<String>, label: &String) -> (found: bool)
    ensures
        found == labels_of(list@).contains(label@),
{
    let mut i: usize = 0;
    while i < list.len()
        invariant
            i <= list.len(),
            forall|k: int| 0 <= k < i ==> labels_of(list@)[k] != label@,
        decreases list.len() - i,
    {
        if list[i] == *label {
            assert(labels_of(list@)[i as int] == label@);
            return true;
        }
        i += 1;
    }
    false
}

/// Counts the entries of `own` that `other` lists too.
pub fn count_shared(own: &Vec<String>, other: &Vec<String>) -> (count: usize)
    ensures
        count == shared_count(labels_of(own@), labels_of(other@)),
{
    let ghost labels = labels_of(own@);
    let ghost pool = labels_of(other@);
    let mut count: usize = 0;
    let mut i: usize = 0;
    assert(shared_count(labels.take(0), pool) == 0) by {
        reveal(Seq::filter);
    }
    while i < own.len()
        invariant
            i <= own.len(),
            labels == labels_of(own@),
            pool == labels_of(other@),
            count <= i,
            count == shared_count(labels.take(i as int), pool),
        decreases own.len() - i,
    {
        let found = has_label(other, &own[i]);
        proof {
            let seen = labels.take(i as int);
            assert(labels.take(i + 1) =~= seen.push(labels[i as int]));
            seen.lemma_filter_len_push(listed_in(pool), labels[i as int]);
        }
        if found {
            count += 1;
        }
        i += 1;
    }
    assert(labels.take(own.len() as int) =~= labels);
    count
}

/// The proximity bonus of two pressure sensitivities.
pub fn pressure_bonus(own: i32, other: i32) -> (bonus: i64)
    ensures
        bonus == proximity_bonus(own as int, other as int),
{
    let distance: i64 = if own >= other {
        own as i64 - other as i64
    } else {
        other as i64 - own as i64
    };
    (PRESSURE_SPAN - distance) * PRESSURE_STEP
}

/// Scores `candidate` for `target`.
pub fn similarity(target: &UserProfile, candidate: &UserProfile) -> (points: i128)
    ensures
        points == score(target@, candidate@),
{
    let symptoms: usize = count_shared(&target.common_symptoms, &candidate.common_symptoms);
    let triggers: usize = count_shared(&target.triggers, &candidate.triggers);
    let bonus: i64 = pressure_bonus(target.pressure_sensitivity, candidate.pressure_sensitivity);
    SYMPTOM_POINTS * (symptoms as i128) + TRIGGER_POINTS * (triggers as i128) + (bonus as i128)
}

/// The proximity bonus does not depend on which of the two values comes first.
pub proof fn lemma_proximity_symmetric(a: int, b: int)
    ensures
        proximity_bonus(a, b) == proximity_bonus(b, a),
{
}

/// For a list without repeats, the shared count is the number of distinct
/// labels that both lists hold.
pub proof fn lemma_shared_count_of_distinct(own: Seq<Seq<char>>, other: Seq<Seq<char>>)
    requires
        own.no_duplicates(),
    ensures
        shared_count(own, other) == own.to_set().intersect(other.to_set()).len(),
    decreases own.len(),
{
    let pool = other.to_set();
    if own.len() == 0 {
        reveal(Seq::filter);
        assert(own.to_set().intersect(pool) =~= Set::<Seq<char>>::empty());
    } else {
        let rest = own.drop_last();
        let label = own.last();
        assert(own =~= rest.push(label));
        lemma_shared_count_of_distinct(rest, other);
        rest.lemma_filter_len_push(listed_in(other), label);
        rest.lemma_push_to_set_commute(label);
        vstd::seq_lib::seq_to_set_is_finite(rest);
        let before = rest.to_set().intersect(pool);
        assert(before.finite()) by {
            vstd::set_lib::lemma_len_intersect(rest.to_set(), pool);
        }
        assert(!rest.to_set().contains(label)) by {
            if rest.to_set().contains(label) {
                let k = choose|k: int| 0 <= k < rest.len() && rest[k] == label;
                assert(own[k] == own[own.len() - 1]);
            }
        }
        if other.contains(label) {
            assert(own.to_set().intersect(pool) =~= before.insert(label));
        } else {
            assert(own.to_set().intersect(pool) =~= before);
        }
    }
}

/// Between two lists without repeats the shared count is the same in both
/// directions.
pub proof fn lemma_shared_count_symmetric(a: Seq<Seq<char>>, b: Seq<Seq<char>>)
    requires
        a.no_duplicates(),
        b.no_duplicates(),
    ensures
        shared_count(a, b) == shared_count(b, a),
{
    lemma_shared_count_of_distinct(a, b);
    lemma_shared_count_of_distinct(b, a);
    assert(a.to_set().intersect(b.to_set()) =~= b.to_set().intersect(a.to_set()));
}

/// The two directions of a score differ by their overlap points alone: the
/// proximity bonus never tells them apart.
pub proof fn lemma_score_directions(a: ProfileView, b: ProfileView)
    ensures
        score(a, b) - score(b, a) == overlap_points(a, b) - overlap_points(b, a),
{
    lemma_proximity_symmetric(a.pressure_sensitivity, b.pressure_sensitivity);
}

/// Two profiles whose overlap points are the same in both directions score
/// the same in both directions.
pub proof fn lemma_score_symmetric(a: ProfileView, b: ProfileView)
    requires
        overlap_points(a, b) == overlap_points(b, a),
    ensures
        score(a, b) == score(b, a),
{
    lemma_score_directions(a, b);
}

/// Profiles whose symptom and trigger lists hold no label twice score the
/// same in both directions.
pub proof fn lemma_score_symmetric_without_repeats(a: ProfileView, b: ProfileView)
    requires
        a.common_symptoms.no_duplicates(),
        a.triggers.no_duplicates(),
        b.common_symptoms.no_duplicates(),
        b.triggers.no_duplicates(),
    ensures
        score(a, b) == score(b, a),
{
    lemma_shared_count_symmetric(a.common_symptoms, b.common_symptoms);
    lemma_shared_count_symmetric(a.triggers, b.triggers);
    lemma_score_symmetric(a, b);
}

} // verus!
