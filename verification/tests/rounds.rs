use entroguess::session::apply_feedback;
use entroguess::session::round_state;
use entroguess::session::select_words;
use entroguess::session::FeedbackOutcome;
use entroguess::session::RoundState;

fn word(s: &str) -> Vec<u8> {
    s.as_bytes().to_vec()
}

#[test]
fn vocabulary_keeps_only_words_of_the_session_length() {
    let lines = vec![
        word("APPLE"),
        word("CAT"),
        word("ALLEY"),
        word("LONGERWORD"),
        word("ANGLE"),
    ];
    let picked = select_words(&lines, 5);
    assert_eq!(picked, vec![word("APPLE"), word("ALLEY"), word("ANGLE")]);
}

#[test]
fn vocabulary_drops_non_ascii_lines() {
    let lines = vec![word("APPLE"), vec![0xC3, 0x89, 0x43, 0x4C, 0x41], word("ANGLE")];
    let picked = select_words(&lines, 5);
    assert_eq!(picked, vec![word("APPLE"), word("ANGLE")]);
}

#[test]
fn round_state_reads_candidate_count() {
    let none: Vec<Vec<u8>> = Vec::new();
    assert_eq!(round_state(&none), RoundState::Failed);
    let one = vec![word("APPLE")];
    assert_eq!(round_state(&one), RoundState::Solved);
    let two = vec![word("APPLE"), word("ANGLE")];
    assert_eq!(round_state(&two), RoundState::InProgress);
}

#[test]
fn feedback_with_bad_pattern_is_refused() {
    let cands = vec![word("APPLE"), word("ALLEY"), word("ANGLE")];
    let pattern: Vec<u8> = vec![2, 2, 9, 0, 0];
    let r = apply_feedback(&cands, &word("APPLE"), &pattern);
    assert!(matches!(r, FeedbackOutcome::BadPattern));
}

#[test]
fn feedback_narrows_to_the_consistent_candidates() {
    let cands = vec![word("APPLE"), word("ALLEY"), word("ANGLE")];
    let pattern: Vec<u8> = vec![2, 0, 0, 2, 2];
    match apply_feedback(&cands, &word("APPLE"), &pattern) {
        FeedbackOutcome::Narrowed(kept) => assert_eq!(kept, vec![word("ANGLE")]),
        _ => panic!("expected a narrowed candidate set"),
    }
}

#[test]
fn feedback_matching_nothing_reports_no_match() {
    // A, P exact and P, L, E absent: APPLE itself would answer all-exact,
    // and no other candidate matches either, so nothing survives.
    let cands = vec![word("APPLE"), word("ALLEY"), word("ANGLE")];
    let pattern: Vec<u8> = vec![2, 2, 0, 0, 0];
    let r = apply_feedback(&cands, &word("APPLE"), &pattern);
    assert!(matches!(r, FeedbackOutcome::NoMatch));
}

#[test]
fn pattern_line_parses_to_marks() {
    let line = b"0 1 2 2 1\n".to_vec();
    assert_eq!(entroguess::session::parse_pattern(&line), Some(vec![0u8, 1, 2, 2, 1]));
}

#[test]
fn pattern_line_with_letters_is_refused() {
    let line = b"0 1 x 2 1".to_vec();
    assert_eq!(entroguess::session::parse_pattern(&line), None);
}

#[test]
fn pattern_line_with_glued_digits_is_refused() {
    let line = b"01 2 2 1".to_vec();
    assert_eq!(entroguess::session::parse_pattern(&line), None);
}

#[test]
fn empty_pattern_line_parses_to_no_marks() {
    let line = b"  \n".to_vec();
    assert_eq!(entroguess::session::parse_pattern(&line), Some(Vec::new()));
}
