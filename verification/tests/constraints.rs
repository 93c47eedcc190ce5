use wordle_bot::Feedback;
use wordle_bot::Feedback::Gray;
use wordle_bot::Feedback::Green;
use wordle_bot::Feedback::Yellow;
use wordle_bot::Pattern;
use wordle_bot::SolveError;

#[test]
fn pattern_01() {
    let mut pattern = Pattern::default();

    pattern
        .insert_guess("apple", [Green, Yellow, Gray, Gray, Gray])
        .unwrap();

    assert!(pattern.matches_word("asipm"));
    assert!(pattern.matches_word("asrip"));
    assert!(!pattern.matches_word("bspim"));
    assert!(!pattern.matches_word("asrim"));
}

#[test]
fn empty_pattern_matches_everything() {
    let pattern = Pattern::default();
    for word in ["apple", "zzzzz", "abide"] {
        assert!(pattern.matches_word(word));
    }
}

#[test]
fn honest_feedback_never_eliminates_the_solution() {
    let solution = "abide";
    let mut pattern = Pattern::default();
    for guess in ["crane", "speed", "aback", "ledge"] {
        let fb = Feedback::from_guess(guess, solution).unwrap();
        pattern.insert_guess(guess, fb).unwrap();
        assert!(pattern.matches_word(solution));
    }
}

#[test]
fn duplicate_letter_gray_excludes_only_at_its_position() {
    // Absorbing the feedback of "speed" against "abide" requires an e, but
    // the second e of the guess was Gray: e is ruled out at that position
    // only, not everywhere.
    let mut pattern = Pattern::default();
    let fb = Feedback::from_guess("speed", "abide").unwrap();
    pattern.insert_guess("speed", fb).unwrap();
    assert!(pattern.matches_word("abide"));
    // "elder" carries an e exactly at the position the Gray verdict closed.
    assert!(!pattern.matches_word("elder"));
}

#[test]
fn gray_for_a_new_letter_excludes_it_everywhere() {
    let mut pattern = Pattern::default();
    pattern
        .insert_guess("crane", [Gray, Gray, Gray, Gray, Gray])
        .unwrap();
    assert!(!pattern.matches_word("caput"));
    assert!(!pattern.matches_word("sugar"));
    assert!(pattern.matches_word("moody"));
}

#[test]
fn insert_guess_rejects_wrong_length() {
    let mut pattern = Pattern::default();
    assert_eq!(
        pattern.insert_guess("abcdef", [Gray, Gray, Gray, Gray, Gray]),
        Err(SolveError::LengthMismatch)
    );
    // Nothing was absorbed.
    assert!(pattern.matches_word("apple"));
}
