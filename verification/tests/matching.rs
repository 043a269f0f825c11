use profile_match::matching::{find_matches, score_all, MatchResult, MAX_MATCHES};
use profile_match::profile::UserProfile;

fn labels(items: &[&str]) -> Vec<String> {
    items.iter().map(|item| item.to_string()).collect()
}

fn profile(id: &str, symptoms: &[&str], triggers: &[&str], pressure: i32) -> UserProfile {
    UserProfile {
        id: id.to_string(),
        prefecture: "Aichi".to_string(),
        age: "40s".to_string(),
        gender: "female".to_string(),
        headache_frequency: "weekly".to_string(),
        pressure_sensitivity: pressure,
        common_symptoms: labels(symptoms),
        triggers: labels(triggers),
        notifications: true,
    }
}

fn ids(matches: &[MatchResult]) -> Vec<String> {
    matches.iter().map(|entry| entry.user.id.clone()).collect()
}

#[test]
fn the_limit_is_ten() {
    assert_eq!(MAX_MATCHES, 10);
}

#[test]
fn score_all_follows_the_candidates() {
    let target = profile("t", &["nausea", "light sensitivity"], &["weather"], 3);
    let candidates: Vec<UserProfile> = vec![
        profile("a", &[], &[], 0),
        profile("b", &["nausea"], &["weather"], 2),
        profile("c", &["nausea"], &[], 30),
    ];
    assert_eq!(score_all(&target, &candidates), vec![10, 38, -100]);
    assert_eq!(score_all(&target, &Vec::new()), Vec::<i128>::new());
}

#[test]
fn engine_ranks_the_example() {
    let u1 = profile("U1", &["nausea", "light sensitivity"], &["weather"], 3);
    let candidates: Vec<UserProfile> = vec![
        profile("U2", &["nausea"], &["weather"], 2),
        profile("U3", &[], &[], 0),
    ];
    let matches: Vec<MatchResult> = find_matches(&u1, &candidates);
    assert_eq!(matches.len(), 2);
    assert_eq!(matches[0].user, candidates[0]);
    assert_eq!(matches[0].score, 38);
    assert_eq!(matches[1].user, candidates[1]);
    assert_eq!(matches[1].score, 10);
}

#[test]
fn engine_returns_nothing_without_candidates() {
    let target = profile("t", &["nausea"], &[], 1);
    assert_eq!(find_matches(&target, &Vec::new()), Vec::<MatchResult>::new());
}

#[test]
fn engine_leaves_out_scores_of_zero_and_below() {
    let target = profile("t", &["nausea"], &["weather"], 0);
    let candidates: Vec<UserProfile> = vec![
        profile("zero", &[], &[], 5),
        profile("below", &["nausea"], &["weather"], 50),
        profile("above", &[], &[], 4),
    ];
    let matches: Vec<MatchResult> = find_matches(&target, &candidates);
    assert_eq!(ids(&matches), vec!["above".to_string()]);
    assert_eq!(matches[0].score, 5);
}

#[test]
fn engine_keeps_equal_scores_in_candidate_order() {
    let target = profile("t", &["nausea"], &[], 2);
    let candidates: Vec<UserProfile> = vec![
        profile("low1", &[], &[], 2),
        profile("high1", &["nausea"], &[], 2),
        profile("low2", &[], &[], 2),
        profile("high2", &["nausea"], &[], 2),
        profile("low3", &[], &[], 2),
    ];
    let matches: Vec<MatchResult> = find_matches(&target, &candidates);
    let expected: Vec<String> = labels(&["high1", "high2", "low1", "low2", "low3"]);
    assert_eq!(ids(&matches), expected);
    let scores: Vec<i128> = matches.iter().map(|entry| entry.score).collect();
    assert_eq!(scores, vec![35, 35, 25, 25, 25]);
}

#[test]
fn engine_cuts_off_after_ten() {
    let target = profile("t", &["nausea"], &[], 0);
    let mut candidates: Vec<UserProfile> = Vec::new();
    for n in 0..15 {
        candidates.push(profile(&format!("c{}", n), &["nausea"], &[], 0));
    }
    let matches: Vec<MatchResult> = find_matches(&target, &candidates);
    assert_eq!(matches.len(), 10);
    for (n, entry) in matches.iter().enumerate() {
        assert_eq!(entry.user.id, format!("c{}", n));
        assert_eq!(entry.score, 35);
    }
}

#[test]
fn engine_prefers_late_high_scores_over_early_low_ones() {
    let target = profile("t", &["nausea"], &[], 0);
    let mut candidates: Vec<UserProfile> = Vec::new();
    for n in 0..12 {
        candidates.push(profile(&format!("plain{}", n), &[], &[], 0));
    }
    candidates.push(profile("late", &["nausea"], &[], 0));
    let matches: Vec<MatchResult> = find_matches(&target, &candidates);
    assert_eq!(matches.len(), 10);
    assert_eq!(matches[0].user.id, "late");
    assert_eq!(matches[0].score, 35);
    for n in 1..10 {
        assert_eq!(matches[n].user.id, format!("plain{}", n - 1));
        assert_eq!(matches[n].score, 25);
    }
}

#[test]
fn engine_scores_in_the_target_s_direction() {
    let target = profile("t", &["nausea", "nausea"], &[], 0);
    let candidates: Vec<UserProfile> = vec![profile("c", &["nausea"], &[], 0)];
    let matches: Vec<MatchResult> = find_matches(&target, &candidates);
    assert_eq!(matches[0].score, 45);
}

#[test]
fn engine_copies_the_whole_candidate() {
    let target = profile("t", &[], &[], 0);
    let mut other = profile("c", &["aura"], &["noise"], 1);
    other.prefecture = "Okinawa".to_string();
    other.notifications = false;
    let candidates: Vec<UserProfile> = vec![other.clone()];
    let matches: Vec<MatchResult> = find_matches(&target, &candidates);
    assert_eq!(matches, vec![MatchResult { user: other, score: 20 }]);
}

#[test]
fn a_cloned_match_equals_its_source() {
    let entry = MatchResult { user: profile("c", &["aura"], &["noise"], 1), score: 7 };
    assert_eq!(entry.clone(), entry);
}
