use quiz_engine::questions::{judge_vocab, matches_any_answer, numeric_in_range, vocab_translation_valid};

#[test]
fn free_text_matching_ignores_case() {
    let answers = vec!["Paris".to_string(), "Lutetia".to_string()];
    assert!(matches_any_answer(&answers, &"paris".to_string()));
    assert!(matches_any_answer(&answers, &"PARIS".to_string()));
    assert!(matches_any_answer(&answers, &"lutetia".to_string()));
    assert!(!matches_any_answer(&answers, &"London".to_string()));
    assert!(!matches_any_answer(&answers, &"".to_string()));
}

#[test]
fn numeric_range_accepts_within_bounds() {
    // 1000 with a 10% band: [900, 1100]
    assert!(numeric_in_range(1000, 100, 900));
    assert!(numeric_in_range(1000, 100, 1000));
    assert!(numeric_in_range(1000, 100, 1100));
    assert!(!numeric_in_range(1000, 100, 899));
    assert!(!numeric_in_range(1000, 100, 1101));
}

#[test]
fn numeric_range_zero_band_is_exact() {
    assert!(numeric_in_range(42, 0, 42));
    assert!(!numeric_in_range(42, 0, 41));
    assert!(!numeric_in_range(42, 0, 43));
}

#[test]
fn numeric_range_handles_negative_answers() {
    // For a negative answer the two scaled bounds swap sides, so a
    // non-zero band accepts nothing; the exact form still works.
    assert!(!numeric_in_range(-1000, 100, -1000));
    assert!(!numeric_in_range(-1000, 100, -900));
    assert!(numeric_in_range(-42, 0, -42));
    assert!(!numeric_in_range(-42, 0, -41));
}

#[test]
fn numeric_range_truncates_bounds() {
    // 15 with a 10% band: 13.5 and 16.5 truncate to [13, 16]
    assert!(numeric_in_range(15, 100, 13));
    assert!(numeric_in_range(15, 100, 16));
    assert!(!numeric_in_range(15, 100, 12));
    assert!(!numeric_in_range(15, 100, 17));
}

#[test]
fn vocab_translation_is_exact() {
    let translations = vec!["haus".to_string(), "heim".to_string()];
    assert!(vocab_translation_valid(&translations, &"haus".to_string()));
    assert!(!vocab_translation_valid(&translations, &"Haus".to_string()));
    assert!(!vocab_translation_valid(&translations, &"burg".to_string()));
}

#[test]
fn vocab_judgement_needs_both_parts() {
    let translations = vec!["haus".to_string()];
    assert!(judge_vocab(&translations, &"haus".to_string(), true));
    assert!(!judge_vocab(&translations, &"haus".to_string(), false));
    assert!(!judge_vocab(&translations, &"burg".to_string(), true));
}
