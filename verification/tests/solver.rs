use entroguess::codec::code_to_marks;
use entroguess::codec::encode;
use entroguess::codec::marks_to_code;
use entroguess::codec::pow3_u64;
use entroguess::entropy::log2_fixed;
use entroguess::filter::FilterError;
use entroguess::filter::filter_candidates;
use entroguess::scorer::histogram;
use entroguess::scorer::score_candidates;
use entroguess::scorer::score_word;
use entroguess::scorer::ScoreError;

fn word(s: &str) -> Vec<u8> {
    s.as_bytes().to_vec()
}

fn small_vocab() -> Vec<Vec<u8>> {
    vec![word("APPLE"), word("ALLEY"), word("ANGLE")]
}

#[test]
fn codec_deterministic_across_calls() {
    let g = word("SPEED");
    let a = word("ERASE");
    let first = encode(&g, &a);
    let second = encode(&g, &a);
    let third = encode(&g, &a);
    assert_eq!(first, second);
    assert_eq!(second, third);
}

#[test]
fn self_match_gives_all_exact_code() {
    // 2 at every position: 3^5 - 1 = 242.
    let w = word("APPLE");
    assert_eq!(encode(&w, &w), 242);
    let v = word("ERASE");
    assert_eq!(encode(&v, &v), 242);
}

#[test]
fn self_match_empty_word() {
    let w: Vec<u8> = Vec::new();
    assert_eq!(encode(&w, &w), 0);
}

#[test]
fn repeated_letters_consume_answer_occurrences() {
    // Guess SPEED against answer ERASE, derived by hand:
    // no position matches exactly; S is present (answer has one S),
    // P is absent, both E's are present (answer has two E's),
    // D is absent. Marks are [1,0,1,1,0], code 1 + 9 + 27 = 37.
    let g = word("SPEED");
    let a = word("ERASE");
    let code = encode(&g, &a);
    assert_eq!(code, 37);
    assert_eq!(code_to_marks(code, 5), vec![1u8, 0, 1, 1, 0]);
}

#[test]
fn repeated_letters_never_overcount() {
    // Guess EERIE against answer THEME: the answer holds two E's. The
    // last E matches exactly and consumes one; only one of the two
    // leading E's may then be marked present.
    let g = word("EERIE");
    let a = word("THEME");
    // Exact: position 4 (E). Remaining answer letters: T, H, E, M.
    // Position 0 E: present, consumes the E. Position 1 E: absent.
    // R, I: absent. Marks [1,0,0,0,2], code 1 + 2*81 = 163.
    assert_eq!(encode(&g, &a), 163);
}

#[test]
fn marks_round_trip_through_codes() {
    let marks: Vec<u8> = vec![2, 1, 0, 1, 2];
    let code = marks_to_code(&marks);
    assert_eq!(code_to_marks(code, 5), marks);
    assert_eq!(marks_to_code(&code_to_marks(37, 5)), 37);
    assert_eq!(code_to_marks(242, 5), vec![2u8, 2, 2, 2, 2]);
}

#[test]
fn pow3_small_values() {
    assert_eq!(pow3_u64(0), 1);
    assert_eq!(pow3_u64(5), 243);
    assert_eq!(pow3_u64(13), 1594323);
}

#[test]
fn log2_fixed_small_values() {
    // Scaled by 65536; exact on powers of two.
    assert_eq!(log2_fixed(1), 0);
    assert_eq!(log2_fixed(2), 65536);
    assert_eq!(log2_fixed(3), 98304);
    assert_eq!(log2_fixed(4), 131072);
    assert_eq!(log2_fixed(1024), 10 * 65536);
}

#[test]
fn histogram_conserves_candidate_count() {
    let cands = small_vocab();
    for g in &cands {
        let h = histogram(&cands, g);
        assert_eq!(h.len(), 243);
        let total: u64 = h.iter().sum();
        assert_eq!(total, cands.len() as u64);
    }
}

#[test]
fn histogram_buckets_match_codes() {
    let cands = small_vocab();
    let g = word("APPLE");
    let h = histogram(&cands, &g);
    // APPLE vs APPLE = 242, vs ALLEY = 110, vs ANGLE = 218.
    assert_eq!(h[242], 1);
    assert_eq!(h[110], 1);
    assert_eq!(h[218], 1);
    assert_eq!(h[0], 0);
}

#[test]
fn scoring_rejects_empty_candidates() {
    let cands: Vec<Vec<u8>> = Vec::new();
    assert_eq!(score_candidates(&cands, 5), Err(ScoreError::DegenerateInput));
}

#[test]
fn single_candidate_scores_zero() {
    let cands = vec![word("APPLE")];
    assert_eq!(score_word(&cands, &word("APPLE")), 0);
    let ranked = score_candidates(&cands, 5).unwrap();
    assert_eq!(ranked.len(), 1);
    assert_eq!(ranked[0].score, 0);
    assert_eq!(ranked[0].word, word("APPLE"));
}

#[test]
fn entropy_scores_stay_in_bounds() {
    let cands = small_vocab();
    let n = cands.len() as u64;
    let ceiling = n * log2_fixed(n);
    let ranked = score_candidates(&cands, 5).unwrap();
    for e in &ranked {
        assert!(e.score <= ceiling);
    }
}

#[test]
fn end_to_end_ranking_is_deterministic() {
    // APPLE and ANGLE each split the three candidates into three distinct
    // outcomes (scaled entropy 3 * log2_fixed(3) = 294912); ALLEY leaves
    // two candidates indistinguishable (294912 - 2 * 65536 = 163840).
    // The tie between the top two is broken by word order: ANGLE first.
    let cands = small_vocab();
    let ranked = score_candidates(&cands, 5).unwrap();
    assert_eq!(ranked.len(), 3);
    assert_eq!(ranked[0].word, word("ANGLE"));
    assert_eq!(ranked[0].score, 294912);
    assert_eq!(ranked[1].word, word("APPLE"));
    assert_eq!(ranked[1].score, 294912);
    assert_eq!(ranked[2].word, word("ALLEY"));
    assert_eq!(ranked[2].score, 163840);
}

#[test]
fn filter_rejects_bad_arity() {
    let cands = small_vocab();
    let pattern: Vec<u8> = vec![2, 2, 0, 0];
    let r = filter_candidates(&cands, &word("APPLE"), &pattern);
    assert_eq!(r, Err(FilterError::InvalidPattern));
}

#[test]
fn filter_rejects_out_of_range_mark() {
    let cands = small_vocab();
    let pattern: Vec<u8> = vec![2, 2, 0, 0, 3];
    let r = filter_candidates(&cands, &word("APPLE"), &pattern);
    assert_eq!(r, Err(FilterError::InvalidPattern));
}

#[test]
fn true_answer_survives_its_own_feedback() {
    let cands = small_vocab();
    let guess = word("ALLEY");
    let answer = word("ANGLE");
    let pattern = code_to_marks(encode(&guess, &answer), 5);
    let kept = filter_candidates(&cands, &guess, &pattern).unwrap();
    assert!(kept.contains(&answer));
}

#[test]
fn filter_never_grows_the_candidate_set() {
    let cands = small_vocab();
    let guess = word("ALLEY");
    for code in 0u64..243 {
        let pattern = code_to_marks(code, 5);
        let kept = filter_candidates(&cands, &guess, &pattern).unwrap();
        assert!(kept.len() <= cands.len());
        for w in &kept {
            assert!(cands.contains(w));
        }
    }
}

#[test]
fn filter_keeps_exactly_the_consistent_candidates() {
    let cands = small_vocab();
    let guess = word("APPLE");
    // encode(APPLE, ANGLE) = 218, marks [2,0,0,2,2]: only ANGLE matches.
    let pattern: Vec<u8> = vec![2, 0, 0, 2, 2];
    let kept = filter_candidates(&cands, &guess, &pattern).unwrap();
    assert_eq!(kept, vec![word("ANGLE")]);
}

#[test]
fn longest_supported_words_encode() {
    // Length 20 is the codec's limit: self-match yields 3^20 - 1.
    let w: Vec<u8> = b"ABCDEFGHIJKLMNOPQRST".to_vec();
    assert_eq!(encode(&w, &w), 3486784400);
}

#[test]
fn filtering_an_empty_candidate_set_keeps_it_empty() {
    let cands: Vec<Vec<u8>> = Vec::new();
    let pattern: Vec<u8> = vec![0, 0, 0, 0, 0];
    let kept = filter_candidates(&cands, &word("APPLE"), &pattern).unwrap();
    assert!(kept.is_empty());
}

#[test]
fn every_answer_survives_every_guess() {
    let cands = small_vocab();
    for guess in &cands {
        for answer in &cands {
            let pattern = code_to_marks(encode(guess, answer), 5);
            let kept = filter_candidates(&cands, guess, &pattern).unwrap();
            assert!(kept.contains(answer));
        }
    }
}
