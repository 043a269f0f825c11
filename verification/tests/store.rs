use profile_match::matching::{find_matches, MatchResult};
use profile_match::profile::UserProfile;
use profile_match::store::{ProfileStore, StoreError};

fn labels(items: &[&str]) -> Vec<String> {
    items.iter().map(|item| item.to_string()).collect()
}

fn profile(id: &str, symptoms: &[&str], triggers: &[&str], pressure: i32) -> UserProfile {
    UserProfile {
        id: id.to_string(),
        prefecture: "Tokyo".to_string(),
        age: "30s".to_string(),
        gender: "female".to_string(),
        headache_frequency: "weekly".to_string(),
        pressure_sensitivity: pressure,
        common_symptoms: labels(symptoms),
        triggers: labels(triggers),
        notifications: true,
    }
}

fn ids(matches: &[MatchResult]) -> Vec<String> {
    matches.iter().map(|entry| entry.user.id.clone()).collect()
}

fn example_store() -> ProfileStore {
    let mut store = ProfileStore::new();
    store.register(profile("U1", &["nausea", "light sensitivity"], &["weather"], 3));
    store.register(profile("U2", &["nausea"], &["weather"], 2));
    store.register(profile("U3", &[], &[], 0));
    store
}

#[test]
fn a_new_store_is_empty() {
    let store = ProfileStore::new();
    assert_eq!(store.len(), 0);
    assert!(store.is_empty());
    assert_eq!(store.snapshot(), Vec::<UserProfile>::new());
    let other = ProfileStore::default();
    assert!(other.is_empty());
}

#[test]
fn register_returns_the_profile_unchanged() {
    let mut store = ProfileStore::new();
    let given = profile("U1", &["nausea", "light sensitivity"], &["weather"], 3);
    let stored: UserProfile = store.register(given.clone());
    assert_eq!(stored, given);
    assert_eq!(store.len(), 1);
    assert!(!store.is_empty());
    assert_eq!(store.snapshot(), vec![given]);
}

#[test]
fn register_appends_in_order() {
    let store = example_store();
    let all: Vec<UserProfile> = store.snapshot();
    assert_eq!(all.len(), 3);
    assert_eq!(all[0].id, "U1");
    assert_eq!(all[1].id, "U2");
    assert_eq!(all[2].id, "U3");
}

#[test]
fn register_accepts_an_id_twice() {
    let mut store = ProfileStore::new();
    store.register(profile("dup", &["nausea"], &[], 1));
    store.register(profile("dup", &["aura"], &[], 4));
    assert_eq!(store.len(), 2);
    let all: Vec<UserProfile> = store.snapshot();
    assert_eq!(all[0].common_symptoms, labels(&["nausea"]));
    assert_eq!(all[1].common_symptoms, labels(&["aura"]));
}

#[test]
fn register_accepts_an_empty_id() {
    let mut store = ProfileStore::new();
    store.register(profile("", &["nausea"], &[], 1));
    store.register(profile("other", &["nausea"], &[], 1));
    assert_eq!(store.find_by_id("").unwrap().id, "");
    assert_eq!(ids(&store.get_matches("").unwrap()), labels(&["other"]));
}

#[test]
fn find_by_id_copies_the_profile() {
    let store = example_store();
    let found: UserProfile = store.find_by_id("U2").unwrap();
    assert_eq!(found, profile("U2", &["nausea"], &["weather"], 2));
}

#[test]
fn find_by_id_takes_the_oldest_of_equal_ids() {
    let mut store = ProfileStore::new();
    store.register(profile("x", &[], &[], 0));
    store.register(profile("dup", &["first"], &[], 1));
    store.register(profile("dup", &["second"], &[], 2));
    let found: UserProfile = store.find_by_id("dup").unwrap();
    assert_eq!(found.common_symptoms, labels(&["first"]));
    assert_eq!(found.pressure_sensitivity, 1);
}

#[test]
fn find_by_id_fails_for_an_unknown_id() {
    let store = example_store();
    assert_eq!(store.find_by_id("U4"), Err(StoreError::NotFound));
    assert_eq!(store.find_by_id("u1"), Err(StoreError::NotFound));
    assert_eq!(store.find_by_id(""), Err(StoreError::NotFound));
    assert_eq!(ProfileStore::new().find_by_id("U1"), Err(StoreError::NotFound));
}

#[test]
fn all_except_keeps_the_others_in_order() {
    let store = example_store();
    let others: Vec<UserProfile> = store.all_except("U2");
    assert_eq!(others.len(), 2);
    assert_eq!(others[0].id, "U1");
    assert_eq!(others[1].id, "U3");
    assert_eq!(store.all_except("nobody"), store.snapshot());
}

#[test]
fn all_except_drops_every_profile_with_the_id() {
    let mut store = example_store();
    store.register(profile("U1", &["aura"], &[], 5));
    let others: Vec<UserProfile> = store.all_except("U1");
    assert_eq!(others.len(), 2);
    assert_eq!(others[0].id, "U2");
    assert_eq!(others[1].id, "U3");
}

#[test]
fn select_hands_out_target_and_candidates() {
    let store = example_store();
    let (target, candidates): (UserProfile, Vec<UserProfile>) = store.select("U1").unwrap();
    assert_eq!(target, store.find_by_id("U1").unwrap());
    assert_eq!(candidates, store.all_except("U1"));
    assert_eq!(Ok(find_matches(&target, &candidates)), store.get_matches("U1"));
    assert_eq!(store.select("nobody"), Err(StoreError::NotFound));
}

#[test]
fn matches_for_the_three_user_example() {
    let store = example_store();
    let matches: Vec<MatchResult> = store.get_matches("U1").unwrap();
    assert_eq!(matches.len(), 2);
    assert_eq!(matches[0].user, profile("U2", &["nausea"], &["weather"], 2));
    assert_eq!(matches[0].score, 38);
    assert_eq!(matches[1].user, profile("U3", &[], &[], 0));
    assert_eq!(matches[1].score, 10);
}

#[test]
fn matches_for_the_other_users_of_the_example() {
    let store = example_store();
    let for_u2: Vec<MatchResult> = store.get_matches("U2").unwrap();
    assert_eq!(ids(&for_u2), labels(&["U1", "U3"]));
    assert_eq!(for_u2[0].score, 38);
    assert_eq!(for_u2[1].score, 15);
    let for_u3: Vec<MatchResult> = store.get_matches("U3").unwrap();
    assert_eq!(ids(&for_u3), labels(&["U2", "U1"]));
    assert_eq!(for_u3[0].score, 15);
    assert_eq!(for_u3[1].score, 10);
}

#[test]
fn matches_never_hold_the_requested_id() {
    let mut store = example_store();
    store.register(profile("U1", &["nausea", "light sensitivity"], &["weather"], 3));
    for id in ["U1", "U2", "U3"] {
        let matches: Vec<MatchResult> = store.get_matches(id).unwrap();
        assert!(!matches.is_empty());
        for entry in matches.iter() {
            assert_ne!(entry.user.id, id);
        }
    }
}

#[test]
fn a_profile_alone_in_the_store_has_no_matches() {
    let mut store = ProfileStore::new();
    store.register(profile("only", &["nausea"], &["weather"], 3));
    assert_eq!(store.get_matches("only"), Ok(Vec::new()));
}

#[test]
fn matches_fail_for_an_id_never_registered() {
    let store = example_store();
    assert_eq!(store.get_matches("U4"), Err(StoreError::NotFound));
    assert_eq!(ProfileStore::new().get_matches("U1"), Err(StoreError::NotFound));
}

#[test]
fn matches_are_found_once_the_id_is_registered() {
    let mut store = example_store();
    assert_eq!(store.get_matches("U4"), Err(StoreError::NotFound));
    store.register(profile("U4", &["nausea"], &[], 2));
    let matches: Vec<MatchResult> = store.get_matches("U4").unwrap();
    assert_eq!(ids(&matches), labels(&["U2", "U1", "U3"]));
    assert_eq!(matches[0].score, 35);
    assert_eq!(matches[1].score, 30);
    assert_eq!(matches[2].score, 15);
}

#[test]
fn asking_twice_gives_the_same_answer() {
    let store = example_store();
    let first = store.get_matches("U1");
    let second = store.get_matches("U1");
    assert_eq!(first, second);
    assert_eq!(store.get_matches("nobody"), store.get_matches("nobody"));
    assert_eq!(store.len(), 3);
}

#[test]
fn fifteen_good_candidates_give_ten_matches() {
    let mut store = ProfileStore::new();
    store.register(profile("target", &["nausea"], &["weather"], 2));
    for n in 0..15 {
        store.register(profile(&format!("user{}", n), &["nausea"], &["weather"], 2));
    }
    let matches: Vec<MatchResult> = store.get_matches("target").unwrap();
    assert_eq!(matches.len(), 10);
    for (n, entry) in matches.iter().enumerate() {
        assert_eq!(entry.user.id, format!("user{}", n));
        assert_eq!(entry.score, 43);
    }
}

#[test]
fn matches_run_from_the_highest_score_down() {
    let mut store = ProfileStore::new();
    store.register(profile("t", &["a", "b", "c"], &["x", "y"], 0));
    store.register(profile("ann", &["a"], &[], 0));
    store.register(profile("ben", &["a", "b", "c"], &["x", "y"], 0));
    store.register(profile("cho", &[], &["x"], 3));
    store.register(profile("dai", &["a", "b"], &["y"], 1));
    store.register(profile("eri", &["a"], &[], 0));
    let matches: Vec<MatchResult> = store.get_matches("t").unwrap();
    assert_eq!(ids(&matches), labels(&["ben", "dai", "ann", "eri", "cho"]));
    let scores: Vec<i128> = matches.iter().map(|entry| entry.score).collect();
    assert_eq!(scores, vec![71, 48, 35, 35, 18]);
}

#[test]
fn equal_scores_keep_registration_order_around_the_target() {
    let mut store = ProfileStore::new();
    store.register(profile("before1", &[], &[], 1));
    store.register(profile("before2", &[], &[], 1));
    store.register(profile("t", &[], &[], 1));
    store.register(profile("after1", &[], &[], 1));
    store.register(profile("after2", &[], &[], 1));
    let matches: Vec<MatchResult> = store.get_matches("t").unwrap();
    assert_eq!(ids(&matches), labels(&["before1", "before2", "after1", "after2"]));
}

#[test]
fn the_oldest_of_equal_ids_is_the_target() {
    let mut store = ProfileStore::new();
    store.register(profile("dup", &["nausea"], &[], 0));
    store.register(profile("dup", &["aura"], &[], 0));
    store.register(profile("n", &["nausea"], &[], 0));
    store.register(profile("a", &["aura"], &[], 0));
    let matches: Vec<MatchResult> = store.get_matches("dup").unwrap();
    assert_eq!(ids(&matches), labels(&["n", "a"]));
    assert_eq!(matches[0].score, 35);
    assert_eq!(matches[1].score, 25);
}

#[test]
fn far_apart_sensitivities_can_hide_a_strong_overlap() {
    let mut store = ProfileStore::new();
    store.register(profile("t", &["a", "b"], &["x"], 0));
    store.register(profile("far", &["a", "b"], &["x"], 11));
    store.register(profile("near", &[], &[], 4));
    let matches: Vec<MatchResult> = store.get_matches("t").unwrap();
    assert_eq!(ids(&matches), labels(&["near"]));
    assert_eq!(matches[0].score, 5);
}

#[test]
fn a_score_of_exactly_zero_is_no_match() {
    let mut store = ProfileStore::new();
    store.register(profile("t", &[], &[], 0));
    store.register(profile("zero", &[], &[], 5));
    store.register(profile("one_step", &[], &[], 4));
    let matches: Vec<MatchResult> = store.get_matches("t").unwrap();
    assert_eq!(ids(&matches), labels(&["one_step"]));
}

#[test]
fn a_cloned_profile_equals_its_source() {
    let given = profile("U1", &["nausea", "light sensitivity"], &["weather"], 3);
    let copy: UserProfile = given.clone();
    assert_eq!(copy, given);
    assert_eq!(copy.common_symptoms, labels(&["nausea", "light sensitivity"]));
}

fn next(state: &mut u64) -> u64 {
    *state = state.wrapping_mul(6364136223846793005).wrapping_add(1442695040888963407);
    *state >> 33
}

fn some_labels(state: &mut u64, pool: &[&str]) -> Vec<String> {
    let count: u64 = next(state) % 5;
    let mut list: Vec<String> = Vec::new();
    for _ in 0..count {
        list.push(pool[(next(state) % pool.len() as u64) as usize].to_string());
    }
    list
}

fn by_sort_and_cut(all: &[UserProfile], id: &str) -> Result<Vec<MatchResult>, StoreError> {
    let target: &UserProfile = match all.iter().find(|user| user.id == id) {
        Some(user) => user,
        None => return Err(StoreError::NotFound),
    };
    let mut found: Vec<MatchResult> = Vec::new();
    for user in all.iter().filter(|user| user.id != id) {
        let mut score: i128 = 0;
        for symptom in target.common_symptoms.iter() {
            if user.common_symptoms.contains(symptom) {
                score += 10;
            }
        }
        for trigger in target.triggers.iter() {
            if user.triggers.contains(trigger) {
                score += 8;
            }
        }
        let gap: i128 = (target.pressure_sensitivity as i128 - user.pressure_sensitivity as i128).abs();
        score += (5 - gap) * 5;
        if score > 0 {
            found.push(MatchResult { user: user.clone(), score });
        }
    }
    found.sort_by(|a, b| b.score.cmp(&a.score));
    found.truncate(10);
    Ok(found)
}

#[test]
fn matches_agree_with_sort_and_cut_on_many_stores() {
    let symptoms: [&str; 4] = ["nausea", "aura", "dizziness", "fatigue"];
    let triggers: [&str; 3] = ["weather", "stress", "noise"];
    let mut state: u64 = 77;
    for round in 0..60 {
        let mut store = ProfileStore::new();
        let count: u64 = next(&mut state) % 30;
        for _ in 0..count {
            let id: String = format!("user{}", next(&mut state) % 20);
            let pressure: i32 = (next(&mut state) % 12) as i32 - 2;
            let symptom_list: Vec<String> = some_labels(&mut state, &symptoms);
            let trigger_list: Vec<String> = some_labels(&mut state, &triggers);
            let mut given = profile(&id, &[], &[], pressure);
            given.common_symptoms = symptom_list;
            given.triggers = trigger_list;
            store.register(given);
        }
        let all: Vec<UserProfile> = store.snapshot();
        for n in 0..20 {
            let id: String = format!("user{}", n);
            assert_eq!(store.get_matches(&id), by_sort_and_cut(&all, &id), "round {}", round);
        }
    }
}
