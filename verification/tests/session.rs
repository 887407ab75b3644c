use emoji_picker::input::sanitize_search;
use emoji_picker::rank::rank;
use emoji_picker::rank::EmojiEntry;
use emoji_picker::rank::RankedResult;
use emoji_picker::session::decide;
use emoji_picker::session::Outcome;

fn ranked_pair() -> Vec<RankedResult> {
    vec![
        RankedResult {
            entry: EmojiEntry { name: "grin".to_string(), glyph: "😁".to_string() },
            index: 2,
            score: 0,
        },
        RankedResult {
            entry: EmojiEntry { name: "grinning face".to_string(), glyph: "😀".to_string() },
            index: 0,
            score: 1,
        },
    ]
}

#[test]
fn newline_is_detected_and_stripped() {
    let (cleaned, submitted) = sanitize_search("grin\n");
    assert_eq!(cleaned, "grin");
    assert!(submitted);
}

#[test]
fn plain_text_passes_through() {
    let (cleaned, submitted) = sanitize_search("grin");
    assert_eq!(cleaned, "grin");
    assert!(!submitted);
}

#[test]
fn embedded_newlines_are_all_removed() {
    let (cleaned, submitted) = sanitize_search("a\nb\nc");
    assert_eq!(cleaned, "abc");
    assert!(submitted);
}

#[test]
fn empty_buffer_is_not_a_submit() {
    let (cleaned, submitted) = sanitize_search("");
    assert_eq!(cleaned, "");
    assert!(!submitted);
}

#[test]
fn cancel_terminates_with_failure_and_no_output() {
    match decide(&ranked_pair(), true, false, None) {
        Outcome::Terminate(code, output) => {
            assert_ne!(code, 0);
            assert!(output.is_none());
        }
        Outcome::Browse => panic!("cancel must end the session"),
    }
}

#[test]
fn cancel_wins_over_submit_and_activation() {
    match decide(&ranked_pair(), true, true, Some(1)) {
        Outcome::Terminate(code, output) => {
            assert_ne!(code, 0);
            assert!(output.is_none());
        }
        Outcome::Browse => panic!("cancel must end the session"),
    }
}

#[test]
fn submit_picks_the_top_ranked_entry() {
    match decide(&ranked_pair(), false, true, None) {
        Outcome::Terminate(code, output) => {
            assert_eq!(code, 0);
            assert_eq!(output.as_deref(), Some("😁"));
        }
        Outcome::Browse => panic!("submit with results must end the session"),
    }
}

#[test]
fn submit_wins_over_a_simultaneous_activation() {
    match decide(&ranked_pair(), false, true, Some(1)) {
        Outcome::Terminate(code, output) => {
            assert_eq!(code, 0);
            assert_eq!(output.as_deref(), Some("😁"));
        }
        Outcome::Browse => panic!("submit with results must end the session"),
    }
}

#[test]
fn submit_with_no_results_keeps_browsing() {
    let empty: Vec<RankedResult> = Vec::new();
    assert!(matches!(decide(&empty, false, true, None), Outcome::Browse));
}

#[test]
fn activation_picks_that_entry() {
    match decide(&ranked_pair(), false, false, Some(1)) {
        Outcome::Terminate(code, output) => {
            assert_eq!(code, 0);
            assert_eq!(output.as_deref(), Some("😀"));
        }
        Outcome::Browse => panic!("activation must end the session"),
    }
}

#[test]
fn no_signal_keeps_browsing() {
    assert!(matches!(decide(&ranked_pair(), false, false, None), Outcome::Browse));
}

#[test]
fn submitted_search_ends_with_best_match_printed() {
    let c = vec![
        EmojiEntry { name: "grinning face".to_string(), glyph: "😀".to_string() },
        EmojiEntry { name: "face with tears of joy".to_string(), glyph: "😂".to_string() },
        EmojiEntry { name: "grin".to_string(), glyph: "😁".to_string() },
    ];
    let (cleaned, submitted) = sanitize_search("grin\n");
    assert!(submitted);
    let ranked = rank(&c, &cleaned);
    match decide(&ranked, false, submitted, None) {
        Outcome::Terminate(code, output) => {
            assert_eq!(code, 0);
            assert_eq!(output.as_deref(), Some("😀"));
        }
        Outcome::Browse => panic!("submit with results must end the session"),
    }
}
