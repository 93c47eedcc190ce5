use wordle_bot::Bot;
use wordle_bot::Feedback;
use wordle_bot::Recommendation;
use wordle_bot::SolveError;
use wordle_bot::NUM_PATTERNS;

fn pool(words: &[&str]) -> Vec<String> {
    words.iter().map(|w| w.to_string()).collect()
}

/// Expected information gain, in bits, of the distribution of candidate
/// counts over feedback patterns.
fn entropy_from_counts(counts: &[usize]) -> f64 {
    let n: usize = counts.iter().sum();
    if n == 0 {
        return 0.0;
    }
    let mut bits: f64 = 0.0;
    for &k in counts {
        if k > 0 {
            let p = k as f64 / n as f64;
            bits -= p * p.log2();
        }
    }
    bits
}

#[test]
fn bot_narrows_candidates_from_feedback() {
    let mut bot = Bot::new(pool(&["abide", "abode", "abuse"]), pool(&[]), false);
    let fb = Feedback::from_guess("abide", "abuse").unwrap();
    bot.guess("abide", fb).unwrap();
    assert_eq!(bot.count, 2);
    assert_eq!(bot.all_matching_solutions(), vec!["abuse".to_string()]);
}

#[test]
fn distribution_counts_sum_to_remaining_candidates() {
    let bot = Bot::new(pool(&["abide", "abode", "abuse"]), pool(&[]), false);
    let counts = bot.feedback_distribution("crane");
    assert_eq!(counts.len(), NUM_PATTERNS);
    let total: usize = counts.iter().sum();
    assert_eq!(total, 3);
}

#[test]
fn entropy_of_fully_distinguishing_guess_is_log2_of_candidates() {
    let bot = Bot::new(pool(&["abide", "abode", "abuse"]), pool(&[]), false);
    let counts = bot.feedback_distribution("abide");
    let nonzero = counts.iter().filter(|k| **k > 0).count();
    assert_eq!(nonzero, 3);
    let bits = entropy_from_counts(&counts);
    assert!((bits - 3.0f64.log2()).abs() < 1e-9);
}

#[test]
fn entropy_of_uninformative_guess_is_zero() {
    let bot = Bot::new(pool(&["abide", "abode", "abuse"]), pool(&[]), false);
    // No letter of the guess occurs in any candidate: one bucket holds all.
    let counts = bot.feedback_distribution("fghjk");
    let bits = entropy_from_counts(&counts);
    assert_eq!(bits, 0.0);
}

#[test]
fn entropy_lies_between_zero_and_log2_of_candidates() {
    let bot = Bot::new(
        pool(&["abide", "abode", "abuse", "angle", "apple"]),
        pool(&[]),
        false,
    );
    let remaining = bot.all_matching_solutions().len();
    for guess in ["abide", "crane", "zzzzz", "apple"] {
        let bits = entropy_from_counts(&bot.feedback_distribution(guess));
        assert!(bits >= 0.0);
        assert!(bits <= (remaining as f64).log2() + 1e-9);
    }
}

#[test]
fn entropy_of_empty_candidate_set_is_zero() {
    let mut bot = Bot::new(pool(&["abide"]), pool(&[]), false);
    // Feedback that rules out the only candidate: claim all of it is absent.
    bot.guess(
        "abide",
        [
            Feedback::Gray,
            Feedback::Gray,
            Feedback::Gray,
            Feedback::Gray,
            Feedback::Gray,
        ],
    )
    .unwrap();
    assert_eq!(bot.all_matching_solutions().len(), 0);
    let counts = bot.feedback_distribution("crane");
    assert_eq!(entropy_from_counts(&counts), 0.0);
    assert_eq!(counts.iter().sum::<usize>(), 0);
}

#[test]
fn recommend_in_easy_mode_offers_the_whole_pool() {
    let mut bot = Bot::new(pool(&["abide", "abode"]), pool(&["crane"]), false);
    let fb = Feedback::from_guess("abide", "abode").unwrap();
    bot.guess("abide", fb).unwrap();
    match bot.recommend() {
        Recommendation::Eligible(words) => {
            assert_eq!(
                words,
                vec![
                    "abide".to_string(),
                    "abode".to_string(),
                    "crane".to_string()
                ]
            );
        }
        Recommendation::Endgame(_) => panic!("guess budget is not exhausted"),
    }
}

#[test]
fn recommend_in_hard_mode_offers_only_consistent_words() {
    let mut bot = Bot::new(pool(&["abide", "abode"]), pool(&["crane"]), true);
    let fb = Feedback::from_guess("abide", "abode").unwrap();
    bot.guess("abide", fb).unwrap();
    match bot.recommend() {
        Recommendation::Eligible(words) => {
            assert!(!words.is_empty());
            for word in &words {
                assert!(bot.pattern.matches_word(word));
            }
            assert_eq!(words, vec!["abode".to_string()]);
        }
        Recommendation::Endgame(_) => panic!("guess budget is not exhausted"),
    }
}

#[test]
fn recommend_at_guess_limit_returns_remaining_candidates() {
    let mut bot = Bot::new(pool(&["abide", "abode", "abuse"]), pool(&["crane"]), false);
    let fb = Feedback::from_guess("abuse", "abode").unwrap();
    bot.guess("abuse", fb).unwrap();
    bot.count = bot.max_guesses;
    match bot.recommend() {
        Recommendation::Endgame(words) => {
            assert_eq!(words, bot.all_matching_solutions());
            assert_eq!(words, vec!["abide".to_string(), "abode".to_string()]);
        }
        Recommendation::Eligible(_) => panic!("guess budget is exhausted"),
    }
}

#[test]
fn partition_counts_agree_with_simulated_absorption() {
    // Two ways to weigh a guess: partition the candidates by the feedback
    // pattern each would produce, or absorb each pattern into a fresh
    // constraint state and count the candidates that remain consistent.
    // On this pool they must give the same counts.
    let words = ["abide", "abode", "abuse"];
    let bot = Bot::new(pool(&words), pool(&[]), false);
    let guess = "abide";
    let counts = bot.feedback_distribution(guess);
    for solution in words {
        let fb = Feedback::from_guess(guess, solution).unwrap();
        let mut code: usize = 0;
        for verdict in fb {
            let digit = match verdict {
                Feedback::Gray => 0,
                Feedback::Yellow => 1,
                Feedback::Green => 2,
            };
            code = code * 3 + digit;
        }
        let mut simulated = wordle_bot::Pattern::default();
        simulated.insert_guess(guess, fb).unwrap();
        let consistent = words.iter().filter(|w| simulated.matches_word(w)).count();
        assert_eq!(counts[code], consistent);
    }
}

#[test]
fn guess_rejects_wrong_length_and_changes_nothing() {
    let mut bot = Bot::new(pool(&["abide"]), pool(&[]), false);
    let before = bot.all_matching_solutions();
    assert_eq!(
        bot.guess(
            "abcdef",
            [
                Feedback::Gray,
                Feedback::Gray,
                Feedback::Gray,
                Feedback::Gray,
                Feedback::Gray
            ]
        ),
        Err(SolveError::LengthMismatch)
    );
    assert_eq!(bot.count, 1);
    assert_eq!(bot.all_matching_solutions(), before);
}

#[test]
fn reset_starts_a_fresh_session_over_the_same_pools() {
    let mut bot = Bot::new(pool(&["abide", "abode"]), pool(&["crane"]), true);
    let fb = Feedback::from_guess("abide", "abode").unwrap();
    bot.guess("abide", fb).unwrap();
    assert_eq!(bot.all_matching_solutions().len(), 1);
    bot.reset();
    assert_eq!(bot.count, 1);
    assert!(bot.hard_mode);
    assert_eq!(bot.all_matching_solutions().len(), 2);
}
