use wordle_bot::Feedback;
use wordle_bot::SolveError;

#[test]
fn classify_apple_against_angle() {
    let fb = Feedback::from_guess("apple", "angle").unwrap();
    assert_eq!(
        fb,
        [
            Feedback::Green,
            Feedback::Gray,
            Feedback::Gray,
            Feedback::Green,
            Feedback::Green,
        ]
    );
}

#[test]
fn classify_speed_against_abide() {
    // "abide" holds a single e: the first e of the guess claims it as
    // Yellow, the second finds nothing left and stays Gray; the d is
    // relocated, so it is Yellow too.
    let fb = Feedback::from_guess("speed", "abide").unwrap();
    assert_eq!(
        fb,
        [
            Feedback::Gray,
            Feedback::Gray,
            Feedback::Yellow,
            Feedback::Gray,
            Feedback::Yellow,
        ]
    );
}

#[test]
fn classify_green_exactly_on_exact_matches() {
    let guess = "crane";
    let solution = "crown";
    let fb = Feedback::from_guess(guess, solution).unwrap();
    let g: Vec<char> = guess.chars().collect();
    let s: Vec<char> = solution.chars().collect();
    for i in 0..5 {
        assert_eq!(fb[i] == Feedback::Green, g[i] == s[i]);
    }
    assert_eq!(
        fb,
        [
            Feedback::Green,
            Feedback::Green,
            Feedback::Gray,
            Feedback::Yellow,
            Feedback::Gray,
        ]
    );
}

#[test]
fn classify_self_is_all_green() {
    for word in ["apple", "abide", "zzzzz"] {
        let fb = Feedback::from_guess(word, word).unwrap();
        assert_eq!(fb, [Feedback::Green; 5]);
    }
}

#[test]
fn classify_never_credits_a_letter_more_often_than_it_occurs() {
    // The solution has two a's; the guess offers five.  Exactly the two
    // exact matches are credited, the rest are Gray.
    let fb = Feedback::from_guess("aaaaa", "aabbb").unwrap();
    assert_eq!(
        fb,
        [
            Feedback::Green,
            Feedback::Green,
            Feedback::Gray,
            Feedback::Gray,
            Feedback::Gray,
        ]
    );
    let credited = fb.iter().filter(|v| **v != Feedback::Gray).count();
    assert!(credited <= 2);
}

#[test]
fn classify_prefers_early_guess_positions_for_yellow() {
    // One x in the solution, two misplaced x's in the guess: only the
    // earlier one is credited.
    let fb = Feedback::from_guess("xaxbb", "ccccx").unwrap();
    assert_eq!(
        fb,
        [
            Feedback::Yellow,
            Feedback::Gray,
            Feedback::Gray,
            Feedback::Gray,
            Feedback::Gray,
        ]
    );
}

#[test]
fn classify_rejects_short_guess() {
    assert_eq!(
        Feedback::from_guess("abc", "angle"),
        Err(SolveError::LengthMismatch)
    );
}

#[test]
fn classify_rejects_long_solution() {
    assert_eq!(
        Feedback::from_guess("apple", "apples"),
        Err(SolveError::LengthMismatch)
    );
}
