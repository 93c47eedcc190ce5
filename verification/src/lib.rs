//! Core engine of a solver for Wordle-style word-guessing puzzles.
//!
//! The library compares a guessed word against a hidden solution and produces
//! per-position feedback (`feedback`), accumulates feedback into a reusable
//! constraint state (`pattern`), and filters the pool of possible solutions
//! down to the candidates consistent with everything learned so far.  The
//! floating-point entropy scoring that ranks guesses is left to callers; the
//! library supplies the verified combinatorial part: the exact partition of
//! the remaining candidates by the feedback pattern a guess would produce.

use vstd::prelude::*;

mod feedback;
mod pattern;

pub use feedback::classify;
pub use feedback::count_credited;
pub use feedback::count_occurrences;
pub use feedback::lemma_classify_green_iff_exact;
pub use feedback::lemma_classify_len;
pub use feedback::lemma_classify_self_all_green;
pub use feedback::lemma_duplicate_letter_bound;
pub use feedback::lemma_pattern_code_injective;
pub use feedback::pattern_code;
pub use feedback::Feedback;
pub use pattern::absorb;
pub use pattern::lemma_absorb_wf;
pub use pattern::lemma_empty_admits;
pub use pattern::lemma_honest_feedback_keeps_solution;
pub use pattern::slot_permits;
pub use pattern::Character;
pub use pattern::CharKnowledge;
pub use pattern::Pattern;
pub use pattern::PatternModel;

verus! {

/// Number of characters in every puzzle word.
pub const WORD_LENGTH: usize = 5;

/// Guesses a session permits before the endgame, unless configured
/// otherwise: the canonical puzzle allows six.
pub const DEFAULT_MAX_GUESSES: usize = 6;

/// Number of distinct feedback patterns over a word: three verdicts at each
/// of the five positions.
pub const NUM_PATTERNS: usize = 243;

/// Error conditions surfaced by the solver core.
#[derive(Debug, Clone, Copy, PartialEq, Eq, Structural)]
pub enum SolveError {
    /// A word did not have exactly `WORD_LENGTH` characters.
    LengthMismatch,
}

/// A well-formed word pool: every word has exactly `WORD_LENGTH` characters
/// and no word appears twice.
pub open spec fn pool_wf(pool: Seq<Seq<char>>) -> bool {
    &&& forall|i: int| 0 <= i < pool.len() ==> (#[trigger] pool[i]).len() == WORD_LENGTH
    &&& pool.no_duplicates()
}

/// The candidacy test a constraint state imposes, as a predicate on words.
pub open spec fn admits_pred(m: PatternModel) -> spec_fn(Seq<char>) -> bool {
    |w: Seq<char>| m.admits(w)
}

/// The orchestrating solver: the two word pools, the accumulated constraint
/// state, the guess counter and the session's mode flags.
pub struct Bot {
    /// Words that may be the hidden solution.
    pub possible_solutions: Vec<String>,
    /// Words usable only as probes, never themselves the solution.
    pub extra_guessing_options: Vec<String>,
    /// Everything learned from the guesses made so far.
    pub pattern: Pattern,
    /// In hard mode every guess must itself satisfy the known constraints.
    pub hard_mode: bool,
    /// Number of the upcoming guess, starting at 1.
    pub count: usize,
    /// Once the counter reaches this bound, ranking gives way to the endgame.
    pub max_guesses: usize,
}

impl Bot {
    pub open spec fn wf(self) -> bool {
        &&& self.pattern.wf()
        &&& pool_wf(self.possible_solutions.deep_view())
        &&& pool_wf(self.extra_guessing_options.deep_view())
        &&& self.max_guesses >= 1
    }

    /// The solution-pool words consistent with the constraint state, in pool
    /// order.
    pub open spec fn spec_remaining(self) -> Seq<Seq<char>> {
        self.possible_solutions.deep_view().filter(admits_pred(self.pattern@))
    }

    /// Every word that may be guessed: the solution pool followed by the
    /// extra probing words.
    pub open spec fn spec_guess_pool(self) -> Seq<Seq<char>> {
        self.possible_solutions.deep_view() + self.extra_guessing_options.deep_view()
    }

    /// The guess-eligibility test: in hard mode a guess must itself be
    /// consistent with the constraint state; otherwise anything goes.
    pub open spec fn eligible_pred(self) -> spec_fn(Seq<char>) -> bool {
        |w: Seq<char>| self.pattern@.admits(w) || !self.hard_mode
    }

    /// The guess-pool words eligible under the current mode, in pool order.
    pub open spec fn spec_eligible(self) -> Seq<Seq<char>> {
        self.spec_guess_pool().filter(self.eligible_pred())
    }

    /// Starts a session over the given pools with an empty constraint state,
    /// the guess counter at 1 and the default guess budget.
    pub fn new(
        possible_solutions: Vec<String>,
        extra_guessing_options: Vec<String>,
        hard_mode: bool,
    ) -> (result: Bot)
        requires
            pool_wf(possible_solutions.deep_view()),
            pool_wf(extra_guessing_options.deep_view()),
        ensures
            result.wf(),
            result.possible_solutions == possible_solutions,
            result.extra_guessing_options == extra_guessing_options,
            result.pattern@ == PatternModel::empty(),
            result.hard_mode == hard_mode,
            result.count == 1,
            result.max_guesses == DEFAULT_MAX_GUESSES,
    {
        Bot {
            possible_solutions,
            extra_guessing_options,
            pattern: Pattern::default(),
            hard_mode,
            count: 1,
            max_guesses: DEFAULT_MAX_GUESSES,
        }
    }

    /// Records a guess and the feedback it earned: the constraint state
    /// absorbs the feedback and the counter advances.  A word of the wrong
    /// length is rejected and nothing changes.
    pub fn guess(&mut self, word: &str, feedback: [Feedback; WORD_LENGTH]) -> (result: Result<
        (),
        SolveError,
    >)
        requires
            old(self).wf(),
            old(self).count < usize::MAX,
        ensures
            final(self).wf(),
            word@.len() == WORD_LENGTH ==> (result matches Ok(u)
                && final(self).pattern@ == absorb(old(self).pattern@, word@, feedback@)
                && final(self).count == old(self).count + 1
                && final(self).possible_solutions == old(self).possible_solutions
                && final(self).extra_guessing_options == old(self).extra_guessing_options
                && final(self).hard_mode == old(self).hard_mode
                && final(self).max_guesses == old(self).max_guesses),
            word@.len() != WORD_LENGTH ==> (result matches Err(e) && e
                == SolveError::LengthMismatch && *final(self) == *old(self)),
    {
        if word.unicode_len() != WORD_LENGTH {
            return Err(SolveError::LengthMismatch);
        }
        let _ = self.pattern.insert_guess(word, feedback);
        self.count = self.count + 1;
        Ok(())
    }

    /// Forgets the constraint state and the counter; the pools and the mode
    /// flags survive into the new session.
    pub fn reset(&mut self)
        requires
            old(self).wf(),
        ensures
            final(self).wf(),
            final(self).pattern@ == PatternModel::empty(),
            final(self).count == 1,
            final(self).possible_solutions == old(self).possible_solutions,
            final(self).extra_guessing_options == old(self).extra_guessing_options,
            final(self).hard_mode == old(self).hard_mode,
            final(self).max_guesses == old(self).max_guesses,
    {
        self.pattern = Pattern::default();
        self.count = 1;
    }

    /// The solution-pool words still consistent with everything learned, in
    /// pool order.
    pub fn all_matching_solutions(&self) -> (result: Vec<String>)
        requires
            self.wf(),
        ensures
            result.deep_view() == self.spec_remaining(),
            forall|k: int|
                0 <= k < result.deep_view().len() ==> (#[trigger] result.deep_view()[k]).len()
                    == WORD_LENGTH,
    {
        let ghost pool = self.possible_solutions.deep_view();
        let ghost pred = admits_pred(self.pattern@);
        let mut result: Vec<String> = Vec::new();
        let mut i: usize = 0;
        while i < self.possible_solutions.len()
            invariant
                self.wf(),
                pool == self.possible_solutions.deep_view(),
                pred == admits_pred(self.pattern@),
                i <= pool.len(),
                result.deep_view() == pool.take(i as int).filter(pred),
                forall|k: int|
                    0 <= k < result.deep_view().len() ==> (#[trigger] result.deep_view()[k]).len()
                        == WORD_LENGTH,
            decreases pool.len() - i,
        {
            let word = &self.possible_solutions[i];
            let ghost prev = result.deep_view();
            proof {
                assert(word.deep_view() == pool[i as int]);
                assert(pool.take(i as int + 1) =~= pool.take(i as int).push(pool[i as int]));
                lemma_filter_push(pool.take(i as int), pool[i as int], pred);
            }
            if self.pattern.matches_word(word.as_str()) {
                result.push(word.clone());
                proof {
                    assert(result.deep_view() =~= prev.push(pool[i as int]));
                }
            }
            i += 1;
        }
        proof {
            assert(pool.take(pool.len() as int) =~= pool);
        }
        result
    }
}

/// Number of words among the first `n` of `ws` whose feedback against guess
/// `g` has the code `code`.
pub open spec fn count_code_prefix(ws: Seq<Seq<char>>, g: Seq<char>, code: int, n: int) -> nat
    decreases n,
{
    if n <= 0 {
        0
    } else {
        count_code_prefix(ws, g, code, n - 1) + if pattern_code(classify(g, ws[n - 1])) == code {
            1nat
        } else {
            0nat
        }
    }
}

/// Number of words in `ws` whose feedback against guess `g` has the code
/// `code`.
pub open spec fn count_code(ws: Seq<Seq<char>>, g: Seq<char>, code: int) -> nat {
    count_code_prefix(ws, g, code, ws.len() as int)
}

/// Sum of the first `k` entries of a vector of counts.
pub open spec fn sum_prefix(v: Seq<usize>, k: int) -> int
    decreases k,
{
    if k <= 0 {
        0
    } else {
        sum_prefix(v, k - 1) + v[k - 1]
    }
}

proof fn lemma_count_code_push(ws: Seq<Seq<char>>, g: Seq<char>, code: int, n: int)
    requires
        0 < n <= ws.len(),
    ensures
        count_code_prefix(ws, g, code, n) == count_code_prefix(ws, g, code, n - 1)
            + if pattern_code(classify(g, ws[n - 1])) == code {
            1nat
        } else {
            0nat
        },
{
}

/// Bumping one entry of a count vector raises the sum of a prefix that
/// covers it by the same amount, and leaves other prefixes alone.
proof fn lemma_sum_prefix_update(v: Seq<usize>, u: int, x: usize, k: int)
    requires
        0 <= u < v.len(),
        k <= v.len(),
    ensures
        sum_prefix(v.update(u, x), k) == sum_prefix(v, k) + if u < k {
            x - v[u]
        } else {
            0
        },
    decreases k,
{
    if k > 0 {
        lemma_sum_prefix_update(v, u, x, k - 1);
    }
}

/// What one recommendation holds: either the ranking universe for the
/// caller to score, or — once the guess budget is spent — the remaining
/// candidates themselves, unranked, to be played directly.
pub enum Recommendation {
    /// The guess budget is exhausted: these are exactly the remaining
    /// candidate solutions, and the next guess should simply be one of them.
    Endgame(Vec<String>),
    /// The words eligible to be guessed under the current mode, for the
    /// caller to rank by expected information gain.
    Eligible(Vec<String>),
}

impl Bot {
    /// Partitions the remaining candidate solutions by the feedback pattern
    /// that guessing `word` would produce against each: entry `code` of the
    /// result counts the candidates whose pattern has that code.  The
    /// entries sum to the number of remaining candidates; the expected
    /// information gain of `word` is a function of these counts alone.
    pub fn feedback_distribution(&self, word: &str) -> (result: Vec<usize>)
        requires
            self.wf(),
            word@.len() == WORD_LENGTH,
        ensures
            result@.len() == NUM_PATTERNS,
            forall|code: int|
                0 <= code < NUM_PATTERNS ==> result@[code] == count_code(
                    self.spec_remaining(),
                    word@,
                    code,
                ),
            sum_prefix(result@, NUM_PATTERNS as int) == self.spec_remaining().len(),
    {
        let matching = self.all_matching_solutions();
        let ghost ws = self.spec_remaining();
        let mut counts: Vec<usize> = Vec::new();
        let mut k: usize = 0;
        while k < NUM_PATTERNS
            invariant
                counts@.len() == k,
                k <= NUM_PATTERNS,
                forall|c: int| 0 <= c < k ==> counts@[c] == 0,
            decreases NUM_PATTERNS - k,
        {
            counts.push(0);
            k += 1;
        }
        proof {
            lemma_sum_prefix_zero(counts@, NUM_PATTERNS as int);
        }
        let mut n: usize = 0;
        while n < matching.len()
            invariant
                self.wf(),
                word@.len() == WORD_LENGTH,
                ws == self.spec_remaining(),
                matching.deep_view() == ws,
                forall|j: int|
                    0 <= j < matching.deep_view().len() ==> (
                    #[trigger] matching.deep_view()[j]).len() == WORD_LENGTH,
                n <= ws.len(),
                counts@.len() == NUM_PATTERNS,
                forall|code: int|
                    0 <= code < NUM_PATTERNS ==> counts@[code] == count_code_prefix(
                        ws,
                        word@,
                        code,
                        n as int,
                    ),
                forall|code: int| 0 <= code < NUM_PATTERNS ==> counts@[code] <= n,
                sum_prefix(counts@, NUM_PATTERNS as int) == n,
            decreases ws.len() - n,
        {
            let sol = &matching[n];
            proof {
                assert(sol.deep_view() == ws[n as int]);
            }
            let fb = match Feedback::from_guess(word, sol.as_str()) {
                Ok(fb) => fb,
                Err(_) => {
                    proof {
                        assert(false);
                    }
                    return Vec::new();
                },
            };
            let code = feedback::encode_pattern(&fb);
            let ghost prev = counts@;
            let cur = counts[code];
            counts[code] = cur + 1;
            proof {
                assert(counts@ == prev.update(code as int, (cur + 1) as usize));
                lemma_sum_prefix_update(prev, code as int, (cur + 1) as usize, NUM_PATTERNS as int);
                assert forall|c: int| 0 <= c < NUM_PATTERNS implies counts@[c] == count_code_prefix(
                    ws,
                    word@,
                    c,
                    n as int + 1,
                ) by {
                    lemma_count_code_push(ws, word@, c, n as int + 1);
                }
            }
            n += 1;
        }
        counts
    }

    /// What to recommend now.  While guesses remain in the budget, the
    /// eligible guess pool — restricted to consistent words in hard mode —
    /// is handed back for entropy ranking; once the counter reaches the
    /// budget, the remaining candidates are returned verbatim instead, for
    /// the last guess must be an attempt at the solution, not a probe.
    pub fn recommend(&self) -> (result: Recommendation)
        requires
            self.wf(),
        ensures
            self.count >= self.max_guesses ==> (result matches Recommendation::Endgame(v)
                && v.deep_view() == self.spec_remaining()),
            self.count < self.max_guesses ==> (result matches Recommendation::Eligible(v)
                && v.deep_view() == self.spec_eligible() && (forall|k: int|
                0 <= k < v.deep_view().len() && self.hard_mode ==> self.pattern@.admits(
                    #[trigger] v.deep_view()[k],
                )) && (forall|k: int|
                0 <= k < v.deep_view().len() ==> (#[trigger] v.deep_view()[k]).len()
                    == WORD_LENGTH)),
    {
        if self.count >= self.max_guesses {
            return Recommendation::Endgame(self.all_matching_solutions());
        }
        let ghost pred = self.eligible_pred();
        let ghost pool_a = self.possible_solutions.deep_view();
        let ghost pool_b = self.extra_guessing_options.deep_view();
        let mut eligible: Vec<String> = Vec::new();
        let mut i: usize = 0;
        while i < self.possible_solutions.len()
            invariant
                self.wf(),
                pred == self.eligible_pred(),
                pool_a == self.possible_solutions.deep_view(),
                i <= pool_a.len(),
                eligible.deep_view() == pool_a.take(i as int).filter(pred),
                forall|k: int|
                    0 <= k < eligible.deep_view().len() && self.hard_mode
                        ==> self.pattern@.admits(#[trigger] eligible.deep_view()[k]),
                forall|k: int|
                    0 <= k < eligible.deep_view().len() ==> (
                    #[trigger] eligible.deep_view()[k]).len() == WORD_LENGTH,
            decreases pool_a.len() - i,
        {
            let word = &self.possible_solutions[i];
            let ghost prev = eligible.deep_view();
            proof {
                assert(word.deep_view() == pool_a[i as int]);
                assert(pool_a.take(i as int + 1) =~= pool_a.take(i as int).push(
                    pool_a[i as int],
                ));
                lemma_filter_push(pool_a.take(i as int), pool_a[i as int], pred);
            }
            if self.pattern.matches_word(word.as_str()) || !self.hard_mode {
                eligible.push(word.clone());
                proof {
                    assert(eligible.deep_view() =~= prev.push(pool_a[i as int]));
                }
            }
            i += 1;
        }
        proof {
            assert(pool_a.take(pool_a.len() as int) =~= pool_a);
        }
        let mut j: usize = 0;
        while j < self.extra_guessing_options.len()
            invariant
                self.wf(),
                pred == self.eligible_pred(),
                pool_a == self.possible_solutions.deep_view(),
                pool_b == self.extra_guessing_options.deep_view(),
                j <= pool_b.len(),
                eligible.deep_view() == pool_a.filter(pred) + pool_b.take(j as int).filter(pred),
                forall|k: int|
                    0 <= k < eligible.deep_view().len() && self.hard_mode
                        ==> self.pattern@.admits(#[trigger] eligible.deep_view()[k]),
                forall|k: int|
                    0 <= k < eligible.deep_view().len() ==> (
                    #[trigger] eligible.deep_view()[k]).len() == WORD_LENGTH,
            decreases pool_b.len() - j,
        {
            let word = &self.extra_guessing_options[j];
            let ghost prev = eligible.deep_view();
            proof {
                assert(word.deep_view() == pool_b[j as int]);
                assert(pool_b.take(j as int + 1) =~= pool_b.take(j as int).push(
                    pool_b[j as int],
                ));
                lemma_filter_push(pool_b.take(j as int), pool_b[j as int], pred);
            }
            if self.pattern.matches_word(word.as_str()) || !self.hard_mode {
                eligible.push(word.clone());
                proof {
                    assert(eligible.deep_view() =~= prev.push(pool_b[j as int]));
                }
            }
            j += 1;
        }
        proof {
            assert(pool_b.take(pool_b.len() as int) =~= pool_b);
            Seq::filter_distributes_over_add(pool_a, pool_b, pred);
            assert(eligible.deep_view() == self.spec_eligible());
        }
        Recommendation::Eligible(eligible)
    }
}

/// The candidate filter never eliminates the true solution on honest
/// feedback: a solution-pool word admitted by the constraint state is among
/// the remaining candidates, and stays among them after the solver absorbs
/// the feedback that any guess produces against that very word.
pub proof fn lemma_honest_guess_keeps_candidate(b1: Bot, b2: Bot, g: Seq<char>, s: Seq<char>)
    requires
        b1.pattern.wf(),
        g.len() == WORD_LENGTH,
        s.len() == WORD_LENGTH,
        b2.possible_solutions == b1.possible_solutions,
        b2.pattern@ == absorb(b1.pattern@, g, classify(g, s)),
        b1.possible_solutions.deep_view().contains(s),
        b1.pattern@.admits(s),
    ensures
        b1.spec_remaining().contains(s),
        b2.spec_remaining().contains(s),
{
    lemma_honest_feedback_keeps_solution(b1.pattern@, g, s);
    let pool = b1.possible_solutions.deep_view();
    let i = choose|i: int| 0 <= i < pool.len() && pool[i] == s;
    assert(admits_pred(b1.pattern@)(pool[i]));
    assert(admits_pred(b2.pattern@)(pool[i]));
    pool.lemma_filter_contains(admits_pred(b1.pattern@), i);
    pool.lemma_filter_contains(admits_pred(b2.pattern@), i);
}

proof fn lemma_sum_prefix_zero(v: Seq<usize>, k: int)
    requires
        forall|c: int| 0 <= c < v.len() ==> v[c] == 0,
        k <= v.len(),
    ensures
        sum_prefix(v, k) == 0,
    decreases k,
{
    if k > 0 {
        lemma_sum_prefix_zero(v, k - 1);
    }
}

/// Filtering a sequence extended by one element keeps the element exactly
/// when the predicate holds of it.
proof fn lemma_filter_push<A>(s: Seq<A>, x: A, pred: spec_fn(A) -> bool)
    ensures
        s.push(x).filter(pred) == (if pred(x) {
            s.filter(pred).push(x)
        } else {
            s.filter(pred)
        }),
{
    reveal(Seq::filter);
    assert(s.push(x).drop_last() =~= s);
    assert(s.push(x).last() == x);
}

} // verus!
