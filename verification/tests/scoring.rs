use emoji_picker::score::search_score;

#[test]
fn empty_query_scores_zero() {
    assert_eq!(search_score("grinning face", ""), Some(0));
    assert_eq!(search_score("", ""), Some(0));
    assert_eq!(search_score("😀😂", ""), Some(0));
}

#[test]
fn exact_and_prefix_matches_score_zero() {
    assert_eq!(search_score("grin", "grin"), Some(0));
    assert_eq!(search_score("grinning face", "grin"), Some(0));
}

#[test]
fn non_subsequence_returns_none() {
    assert_eq!(search_score("face with tears of joy", "grin"), None);
    assert_eq!(search_score("face with tears of joy", "gr"), None);
    assert_eq!(search_score("grin", "grinning"), None);
    assert_eq!(search_score("", "a"), None);
}

#[test]
fn matching_is_case_sensitive() {
    assert_eq!(search_score("Grin", "grin"), None);
    assert_eq!(search_score("grin", "G"), None);
}

#[test]
fn score_counts_skipped_characters() {
    assert_eq!(search_score("xgxrxixn", "grin"), Some(4));
    assert_eq!(search_score("a grin", "grin"), Some(2));
    assert_eq!(search_score("grain", "grin"), Some(1));
}

#[test]
fn characters_after_the_match_are_not_scored() {
    assert_eq!(search_score("grin and more", "grin"), Some(0));
    assert_eq!(search_score("xgxrxixn trailing junk", "grin"), Some(4));
}

#[test]
fn scoring_walks_characters_not_bytes() {
    assert_eq!(search_score("thumbs 👍 up", "👍"), Some(7));
    assert_eq!(search_score("😀😂", "😂"), Some(1));
}
