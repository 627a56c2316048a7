use ie_core::search::fuzzy::{score, score_path};

fn ranked<'a>(needle: &str, candidates: &[&'a str]) -> Vec<&'a str> {
    let mut scored: Vec<(i32, &str)> = candidates
        .iter()
        .filter_map(|c| score_path(needle, c).map(|m| (m.score, *c)))
        .collect();
    scored.sort_by(|a, b| b.0.cmp(&a.0).then_with(|| a.1.cmp(b.1)));
    scored.into_iter().map(|(_, c)| c).collect()
}

#[test]
fn an_initialism_matches_a_multi_word_name() {
    assert!(score("prjpl", "Project Plan").is_some());
    assert!(score("pp", "Project Plan").is_some());
}

#[test]
fn a_non_subsequence_does_not_match() {
    assert!(score("xyz", "Project Plan").is_none());
    assert!(score("planp", "Plan").is_none());
}

#[test]
fn matching_is_case_insensitive() {
    assert!(score("PLAN", "plan.md").is_some());
    assert!(score("plan", "PLAN.md").is_some());
}

#[test]
fn word_starts_outrank_matches_buried_mid_word() {
    let word_start = score("pp", "Project Plan").unwrap().score;
    let buried = score("pp", "apple pp").unwrap().score;
    assert!(word_start > buried, "{word_start} should beat {buried}");
}

#[test]
fn consecutive_characters_outrank_scattered_ones() {
    let consecutive = score("plan", "plan").unwrap().score;
    let scattered = score("plan", "p-l-a-n").unwrap().score;
    assert!(consecutive > scattered);
}

#[test]
fn the_filename_outranks_a_folder_of_the_same_name() {
    assert_eq!(
        ranked("plan", &["Planning/notes.md", "Plan.md", "a/b/Plan.md"]),
        vec!["Plan.md", "a/b/Plan.md", "Planning/notes.md"]
    );
}

#[test]
fn a_shorter_candidate_wins_when_the_match_is_otherwise_equal() {
    let short = score("ab", "ab").unwrap().score;
    let long = score("ab", "ab with a great deal of other text").unwrap().score;
    assert!(short > long);
}

#[test]
fn positions_point_at_the_characters_that_matched() {
    let hit = score("pl", "Plan").unwrap();
    assert_eq!(hit.positions, vec![0, 1]);

    let in_path = score_path("pl", "Notes/Plan.md").unwrap();
    assert_eq!(in_path.positions, vec![6, 7]);
}

#[test]
fn an_empty_needle_matches_everything_with_no_positions() {
    let hit = score("", "anything").unwrap();
    assert_eq!(hit.score, 0);
    assert!(hit.positions.is_empty());
}

#[test]
fn a_needle_longer_than_the_candidate_cannot_match() {
    assert!(score("abcdef", "abc").is_none());
}

#[test]
fn unicode_candidates_index_by_character_not_byte() {
    let hit = score("é", "café").unwrap();
    assert_eq!(hit.positions, vec![3]);
}

#[test]
fn exact_scores_follow_the_bonuses() {
    // p: 1 + exact case 2 + word start 10; l: 1 + 2 + consecutive 12; length 4 / 8 = 0.
    assert_eq!(score("pl", "pl").unwrap().score, 28);
    // P matched by p: 1 + word start 10; then l consecutive: 1 + 2 + 12.
    assert_eq!(score("pl", "Plan").unwrap().score, 26);
    // leading penalty: "xxa" matching a at 2 mid-word: 1 + 2 - 4; minus 0.
    assert_eq!(score("a", "xxa").unwrap().score, -1);
    // gap penalty: a at 0 (13), c at 2 after a gap of one: 1 + 2 - 1 = 2.
    assert_eq!(score("ac", "abc").unwrap().score, 15);
    // a filename match earns 20 more than the same match alone.
    assert_eq!(score_path("pl", "dir/pl").unwrap().score, 48);
}

#[test]
fn a_path_without_a_filename_match_is_scored_whole() {
    let hit = score_path("dn", "dir/note").unwrap();
    assert_eq!(hit.positions, vec![0, 4]);
    assert_eq!(hit.score, score("dn", "dir/note").unwrap().score);
}
