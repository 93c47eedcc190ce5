//! Per-position feedback for a guess against a hidden solution.
//!
//! The classifier works in two passes.  The first pass marks every exact
//! match `Green` and consumes the matching solution position.  The second
//! pass walks the remaining guess positions in order and, for each, consumes
//! the first still-unconsumed solution position holding the same character,
//! marking the guess position `Yellow`.  Whatever is left is `Gray`.  The
//! consumption bookkeeping is what gives the canonical duplicate-letter rule:
//! a guess letter is credited at most once per physical occurrence in the
//! solution.

use vstd::prelude::*;

use crate::SolveError;
use crate::WORD_LENGTH;

verus! {

/// One verdict of the tri-state feedback: `Gray` means the letter cannot be
/// used at this position, `Yellow` that it is present elsewhere, `Green` that
/// it matches exactly.
#[derive(Debug, Clone, Copy, PartialEq, Eq, Structural, PartialOrd, Ord, Hash)]
pub enum Feedback {
    Gray,
    Yellow,
    Green,
}

/// Feedback after the first pass: `Green` exactly where guess and solution
/// agree, `Gray` everywhere else.
pub open spec fn initial_feedback(g: Seq<char>, s: Seq<char>) -> Seq<Feedback> {
    Seq::new(g.len(), |i: int| if g[i] == s[i] { Feedback::Green } else { Feedback::Gray })
}

/// Consumption state after the first pass: a solution position is consumed
/// exactly where guess and solution agree.
pub open spec fn initial_used(g: Seq<char>, s: Seq<char>) -> Seq<bool> {
    Seq::new(s.len(), |j: int| g[j] == s[j])
}

/// Index of the first solution position at or after `j` that holds `c` and is
/// not yet consumed, or `-1` when there is none.
pub open spec fn first_unconsumed(s: Seq<char>, used: Seq<bool>, c: char, j: int) -> int
    decreases s.len() - j,
{
    if j < 0 || j >= s.len() {
        -1
    } else if s[j] == c && !used[j] {
        j
    } else {
        first_unconsumed(s, used, c, j + 1)
    }
}

/// One step of the second pass at guess position `i`: a position already
/// `Green` is skipped; otherwise the first unconsumed occurrence of the guess
/// letter in the solution, if any, is consumed and the position turns
/// `Yellow`.
pub open spec fn pass2_step(
    g: Seq<char>,
    s: Seq<char>,
    st: (Seq<Feedback>, Seq<bool>),
    i: int,
) -> (Seq<Feedback>, Seq<bool>) {
    if st.0[i] == Feedback::Green {
        st
    } else {
        let j = first_unconsumed(s, st.1, g[i], 0);
        if j >= 0 {
            (st.0.update(i, Feedback::Yellow), st.1.update(j, true))
        } else {
            st
        }
    }
}

/// Feedback and consumption state after the second pass has processed the
/// first `i` guess positions.
pub open spec fn pass2_state(g: Seq<char>, s: Seq<char>, i: int) -> (Seq<Feedback>, Seq<bool>)
    decreases i,
{
    if i <= 0 {
        (initial_feedback(g, s), initial_used(g, s))
    } else {
        pass2_step(g, s, pass2_state(g, s, i - 1), i - 1)
    }
}

/// The feedback the classifier produces for guess `g` against solution `s`.
pub open spec fn classify(g: Seq<char>, s: Seq<char>) -> Seq<Feedback> {
    pass2_state(g, s, g.len() as int).0
}

/// Number of occurrences of `c` among the first `j` characters of `s`.
pub open spec fn count_occ_prefix(s: Seq<char>, c: char, j: int) -> nat
    decreases j,
{
    if j <= 0 {
        0
    } else {
        count_occ_prefix(s, c, j - 1) + if s[j - 1] == c {
            1nat
        } else {
            0nat
        }
    }
}

/// Number of occurrences of `c` in `s`.
pub open spec fn count_occurrences(s: Seq<char>, c: char) -> nat {
    count_occ_prefix(s, c, s.len() as int)
}

/// Number of positions among the first `i` where the guess letter is `c` and
/// the verdict credits it (`Green` or `Yellow`).
pub open spec fn count_credited_prefix(g: Seq<char>, fb: Seq<Feedback>, c: char, i: int) -> nat
    decreases i,
{
    if i <= 0 {
        0
    } else {
        count_credited_prefix(g, fb, c, i - 1) + if g[i - 1] == c && fb[i - 1] != Feedback::Gray {
            1nat
        } else {
            0nat
        }
    }
}

/// Number of guess positions whose letter is `c` and whose verdict credits it.
pub open spec fn count_credited(g: Seq<char>, fb: Seq<Feedback>, c: char) -> nat {
    count_credited_prefix(g, fb, c, g.len() as int)
}

/// Number of consumed solution positions among the first `j` that hold `c`.
pub open spec fn count_consumed_prefix(s: Seq<char>, used: Seq<bool>, c: char, j: int) -> nat
    decreases j,
{
    if j <= 0 {
        0
    } else {
        count_consumed_prefix(s, used, c, j - 1) + if s[j - 1] == c && used[j - 1] {
            1nat
        } else {
            0nat
        }
    }
}

impl Feedback {
    /// Classifies `word` against `solution`, both of exactly `WORD_LENGTH`
    /// characters, into per-position feedback; words of any other length are
    /// rejected.
    pub fn from_guess(word: &str, solution: &str) -> (result: Result<
        [Feedback; WORD_LENGTH],
        SolveError,
    >)
        ensures
            word@.len() == WORD_LENGTH && solution@.len() == WORD_LENGTH ==> (result matches Ok(fb)
                && fb@ == classify(word@, solution@)),
            !(word@.len() == WORD_LENGTH && solution@.len() == WORD_LENGTH) ==> (result matches Err(
                e,
            ) && e == SolveError::LengthMismatch),
    {
        if word.unicode_len() != WORD_LENGTH || solution.unicode_len() != WORD_LENGTH {
            return Err(SolveError::LengthMismatch);
        }
        let mut feedback: [Feedback; WORD_LENGTH] = [Feedback::Gray; WORD_LENGTH];
        let mut used: [bool; WORD_LENGTH] = [false; WORD_LENGTH];
        let mut i: usize = 0;
        while i < WORD_LENGTH
            invariant
                word@.len() == WORD_LENGTH,
                solution@.len() == WORD_LENGTH,
                i <= WORD_LENGTH,
                forall|k: int|
                    0 <= k < i ==> feedback@[k] == initial_feedback(word@, solution@)[k],
                forall|k: int| i <= k < WORD_LENGTH ==> feedback@[k] == Feedback::Gray,
                forall|k: int| 0 <= k < i ==> used@[k] == initial_used(word@, solution@)[k],
                forall|k: int| i <= k < WORD_LENGTH ==> used@[k] == false,
            decreases WORD_LENGTH - i,
        {
            if word.get_char(i) == solution.get_char(i) {
                feedback[i] = Feedback::Green;
                used[i] = true;
            }
            i += 1;
        }
        proof {
            assert(feedback@ =~= initial_feedback(word@, solution@));
            assert(used@ =~= initial_used(word@, solution@));
        }
        let mut i: usize = 0;
        while i < WORD_LENGTH
            invariant
                word@.len() == WORD_LENGTH,
                solution@.len() == WORD_LENGTH,
                i <= WORD_LENGTH,
                feedback@ == pass2_state(word@, solution@, i as int).0,
                used@ == pass2_state(word@, solution@, i as int).1,
            decreases WORD_LENGTH - i,
        {
            if feedback[i] != Feedback::Green {
                let c = word.get_char(i);
                match find_unconsumed(solution, &used, c) {
                    Some(j) => {
                        feedback[i] = Feedback::Yellow;
                        used[j] = true;
                    },
                    None => {},
                }
            }
            i += 1;
        }
        Ok(feedback)
    }
}

/// Holds when some guess position before `i` has letter `c` and verdict
/// `Yellow`.
pub open spec fn yellow_before(g: Seq<char>, fb: Seq<Feedback>, c: char, i: int) -> bool {
    exists|k: int| 0 <= k < i && fb[k] == Feedback::Yellow && g[k] == c
}

proof fn lemma_first_unconsumed_found(s: Seq<char>, used: Seq<bool>, c: char, j: int)
    requires
        0 <= j,
        first_unconsumed(s, used, c, j) >= 0,
    ensures
        ({
            let r = first_unconsumed(s, used, c, j);
            &&& j <= r < s.len()
            &&& s[r] == c
            &&& !used[r]
            &&& forall|k: int| j <= k < r ==> !(s[k] == c && !used[k])
        }),
    decreases s.len() - j,
{
    if j < s.len() && !(s[j] == c && !used[j]) {
        lemma_first_unconsumed_found(s, used, c, j + 1);
    }
}

proof fn lemma_first_unconsumed_none(s: Seq<char>, used: Seq<bool>, c: char, j: int)
    requires
        0 <= j,
        first_unconsumed(s, used, c, j) < 0,
    ensures
        forall|k: int| j <= k < s.len() ==> !(s[k] == c && !used[k]),
    decreases s.len() - j,
{
    if j < s.len() {
        lemma_first_unconsumed_none(s, used, c, j + 1);
    }
}

/// The facts that hold of the second pass after it has processed the first
/// `i` guess positions: lengths are kept; a verdict is `Green` exactly on an
/// exact match; positions at or after `i` still carry their first-pass
/// verdict; exact matches stay consumed; and every consumed solution
/// position is either an exact match or was consumed by an earlier `Yellow`
/// for the same letter.
proof fn lemma_pass2_invariant(g: Seq<char>, s: Seq<char>, i: int)
    requires
        g.len() == s.len(),
        0 <= i <= g.len(),
    ensures
        pass2_state(g, s, i).0.len() == g.len(),
        pass2_state(g, s, i).1.len() == s.len(),
        forall|k: int|
            0 <= k < g.len() ==> (pass2_state(g, s, i).0[k] == Feedback::Green <==> g[k] == s[k]),
        forall|k: int| i <= k < g.len() ==> pass2_state(g, s, i).0[k] == initial_feedback(g, s)[k],
        forall|j: int| 0 <= j < s.len() && g[j] == s[j] ==> pass2_state(g, s, i).1[j],
        forall|j: int|
            0 <= j < s.len() && pass2_state(g, s, i).1[j] ==> g[j] == s[j] || yellow_before(
                g,
                pass2_state(g, s, i).0,
                s[j],
                i,
            ),
    decreases i,
{
    if i > 0 {
        lemma_pass2_invariant(g, s, i - 1);
        let st = pass2_state(g, s, i - 1);
        let st2 = pass2_state(g, s, i);
        if st.0[i - 1] != Feedback::Green {
            let j = first_unconsumed(s, st.1, g[i - 1], 0);
            if j >= 0 {
                lemma_first_unconsumed_found(s, st.1, g[i - 1], 0);
                assert(st2.0[i - 1] == Feedback::Yellow);
                assert forall|j2: int| 0 <= j2 < s.len() && st2.1[j2] implies g[j2] == s[j2]
                    || yellow_before(g, st2.0, s[j2], i) by {
                    if j2 == j {
                        assert(st2.0[i - 1] == Feedback::Yellow && g[i - 1] == s[j2]);
                    } else {
                        assert(st.1[j2]);
                        if g[j2] != s[j2] {
                            let k = choose|k: int|
                                0 <= k < i - 1 && st.0[k] == Feedback::Yellow && g[k] == s[j2];
                            assert(st2.0[k] == Feedback::Yellow && g[k] == s[j2]);
                        }
                    }
                }
            }
        }
        assert forall|j2: int|
            0 <= j2 < s.len() && st2.1[j2] && g[j2] != s[j2] && st2.1 == st.1 implies yellow_before(
            g,
            st2.0,
            s[j2],
            i,
        ) by {
            let k = choose|k: int| 0 <= k < i - 1 && st.0[k] == Feedback::Yellow && g[k] == s[j2];
            assert(st2.0[k] == Feedback::Yellow && g[k] == s[j2]);
        }
    }
}

/// Once the second pass has moved past a position, its verdict never changes
/// again.
proof fn lemma_pass2_prefix_stable(g: Seq<char>, s: Seq<char>, i1: int, i2: int)
    requires
        g.len() == s.len(),
        0 <= i1 <= i2 <= g.len(),
    ensures
        forall|k: int| 0 <= k < i1 ==> pass2_state(g, s, i2).0[k] == pass2_state(g, s, i1).0[k],
    decreases i2,
{
    if i2 > i1 {
        lemma_pass2_prefix_stable(g, s, i1, i2 - 1);
        lemma_pass2_invariant(g, s, i2 - 1);
    }
}

/// The classifier's feedback has one verdict per guess position.
pub proof fn lemma_classify_len(g: Seq<char>, s: Seq<char>)
    requires
        g.len() == s.len(),
    ensures
        classify(g, s).len() == g.len(),
{
    lemma_pass2_invariant(g, s, g.len() as int);
}

/// A verdict is `Green` exactly where guess and solution hold the same
/// character.
pub proof fn lemma_classify_green_iff_exact(g: Seq<char>, s: Seq<char>, i: int)
    requires
        g.len() == s.len(),
        0 <= i < g.len(),
    ensures
        classify(g, s)[i] == Feedback::Green <==> g[i] == s[i],
{
    lemma_pass2_invariant(g, s, g.len() as int);
}

/// Classifying a word against itself yields `Green` everywhere.
pub proof fn lemma_classify_self_all_green(s: Seq<char>)
    ensures
        forall|i: int| 0 <= i < s.len() ==> classify(s, s)[i] == Feedback::Green,
{
    lemma_pass2_invariant(s, s, s.len() as int);
    assert forall|i: int| 0 <= i < s.len() implies classify(s, s)[i] == Feedback::Green by {
        lemma_classify_green_iff_exact(s, s, i);
    }
}

/// A `Yellow` verdict only ever credits a letter the solution contains.
pub proof fn lemma_classify_yellow_present(g: Seq<char>, s: Seq<char>, i: int)
    requires
        g.len() == s.len(),
        0 <= i < g.len(),
        classify(g, s)[i] == Feedback::Yellow,
    ensures
        s.contains(g[i]),
{
    let len = g.len() as int;
    lemma_pass2_prefix_stable(g, s, i + 1, len);
    lemma_pass2_invariant(g, s, i);
    let st = pass2_state(g, s, i);
    let st2 = pass2_state(g, s, i + 1);
    assert(st2 == pass2_step(g, s, st, i));
    assert(pass2_state(g, s, len).0[i] == st2.0[i]);
    assert(st.0[i] == initial_feedback(g, s)[i]);
    if st.0[i] == Feedback::Green {
        assert(st2.0[i] == Feedback::Green);
    } else {
        let j = first_unconsumed(s, st.1, g[i], 0);
        if j >= 0 {
            lemma_first_unconsumed_found(s, st.1, g[i], 0);
            assert(0 <= j < s.len() && s[j] == g[i]);
            assert(s.contains(g[i]));
        } else {
            assert(st2.0[i] == st.0[i]);
        }
    }
}

/// A `Gray` verdict at `i`, for a letter no earlier position got a `Yellow`
/// for, means every occurrence of that letter in the solution is an exact
/// match of the guess: all its copies were consumed by `Green` verdicts.
pub proof fn lemma_classify_gray_case(g: Seq<char>, s: Seq<char>, i: int, j: int)
    requires
        g.len() == s.len(),
        0 <= i < g.len(),
        classify(g, s)[i] == Feedback::Gray,
        !yellow_before(g, classify(g, s), g[i], i),
        0 <= j < s.len(),
        s[j] == g[i],
    ensures
        g[j] == s[j],
{
    let len = g.len() as int;
    lemma_pass2_prefix_stable(g, s, i + 1, len);
    lemma_pass2_prefix_stable(g, s, i, len);
    lemma_pass2_invariant(g, s, i);
    let st = pass2_state(g, s, i);
    let st2 = pass2_state(g, s, i + 1);
    assert(st2 == pass2_step(g, s, st, i));
    assert(pass2_state(g, s, len).0[i] == st2.0[i]);
    assert(st.0[i] == initial_feedback(g, s)[i]);
    assert(st.0[i] != Feedback::Green);
    let j0 = first_unconsumed(s, st.1, g[i], 0);
    if j0 >= 0 {
        assert(st2.0[i] == Feedback::Yellow);
    }
    lemma_first_unconsumed_none(s, st.1, g[i], 0);
    assert(st.1[j]);
    if g[j] != s[j] {
        let k = choose|k: int| 0 <= k < i && st.0[k] == Feedback::Yellow && g[k] == s[j];
        assert(pass2_state(g, s, len).0[k] == st.0[k]);
        assert(classify(g, s)[k] == Feedback::Yellow && g[k] == g[i]);
        assert(yellow_before(g, classify(g, s), g[i], i));
    }
}

/// A `Gray` verdict never stands on an exact match.
pub proof fn lemma_classify_gray_not_exact(g: Seq<char>, s: Seq<char>, i: int)
    requires
        g.len() == s.len(),
        0 <= i < g.len(),
        classify(g, s)[i] == Feedback::Gray,
    ensures
        g[i] != s[i],
{
    lemma_classify_green_iff_exact(g, s, i);
}

/// Crediting is consumption: at every stage of the second pass, the credited
/// guess positions holding `c` and the consumed solution positions holding
/// `c` are equinumerous.
proof fn lemma_initial_counts(g: Seq<char>, s: Seq<char>, c: char, j: int)
    requires
        g.len() == s.len(),
        0 <= j <= g.len(),
    ensures
        count_credited_prefix(g, initial_feedback(g, s), c, j) == count_consumed_prefix(
            s,
            initial_used(g, s),
            c,
            j,
        ),
    decreases j,
{
    if j > 0 {
        lemma_initial_counts(g, s, c, j - 1);
    }
}

proof fn lemma_count_credited_update(
    g: Seq<char>,
    fb: Seq<Feedback>,
    c: char,
    u: int,
    v: Feedback,
    i: int,
)
    requires
        0 <= u < fb.len(),
        i <= fb.len(),
    ensures
        ({
            let old_ind: nat = if 0 <= u < i && g[u] == c && fb[u] != Feedback::Gray {
                1nat
            } else {
                0nat
            };
            let new_ind: nat = if 0 <= u < i && g[u] == c && v != Feedback::Gray {
                1nat
            } else {
                0nat
            };
            count_credited_prefix(g, fb.update(u, v), c, i) + old_ind == count_credited_prefix(
                g,
                fb,
                c,
                i,
            ) + new_ind
        }),
    decreases i,
{
    if i > 0 {
        lemma_count_credited_update(g, fb, c, u, v, i - 1);
    }
}

proof fn lemma_count_consumed_update(s: Seq<char>, used: Seq<bool>, c: char, u: int, j: int)
    requires
        0 <= u < used.len(),
        j <= used.len(),
    ensures
        ({
            let old_ind: nat = if 0 <= u < j && s[u] == c && used[u] {
                1nat
            } else {
                0nat
            };
            let new_ind: nat = if 0 <= u < j && s[u] == c {
                1nat
            } else {
                0nat
            };
            count_consumed_prefix(s, used.update(u, true), c, j) + old_ind == count_consumed_prefix(
                s,
                used,
                c,
                j,
            ) + new_ind
        }),
    decreases j,
{
    if j > 0 {
        lemma_count_consumed_update(s, used, c, u, j - 1);
    }
}

proof fn lemma_pass2_counts(g: Seq<char>, s: Seq<char>, c: char, i: int)
    requires
        g.len() == s.len(),
        0 <= i <= g.len(),
    ensures
        count_credited_prefix(g, pass2_state(g, s, i).0, c, g.len() as int)
            == count_consumed_prefix(s, pass2_state(g, s, i).1, c, s.len() as int),
    decreases i,
{
    let len = g.len() as int;
    if i == 0 {
        lemma_initial_counts(g, s, c, len);
    } else {
        lemma_pass2_counts(g, s, c, i - 1);
        lemma_pass2_invariant(g, s, i - 1);
        let st = pass2_state(g, s, i - 1);
        if st.0[i - 1] != Feedback::Green {
            let j = first_unconsumed(s, st.1, g[i - 1], 0);
            if j >= 0 {
                lemma_first_unconsumed_found(s, st.1, g[i - 1], 0);
                assert(st.0[i - 1] == initial_feedback(g, s)[i - 1]);
                lemma_count_credited_update(g, st.0, c, i - 1, Feedback::Yellow, len);
                lemma_count_consumed_update(s, st.1, c, j, len);
            }
        }
    }
}

proof fn lemma_consumed_le_occ(s: Seq<char>, used: Seq<bool>, c: char, j: int)
    ensures
        count_consumed_prefix(s, used, c, j) <= count_occ_prefix(s, c, j),
    decreases j,
{
    if j > 0 {
        lemma_consumed_le_occ(s, used, c, j - 1);
    }
}

/// The duplicate-letter bound: a letter is never credited (`Green` or
/// `Yellow`) more often than it occurs in the solution.
pub proof fn lemma_duplicate_letter_bound(g: Seq<char>, s: Seq<char>, c: char)
    requires
        g.len() == s.len(),
    ensures
        count_credited(g, classify(g, s), c) <= count_occurrences(s, c),
{
    lemma_pass2_counts(g, s, c, g.len() as int);
    lemma_consumed_le_occ(s, pass2_state(g, s, g.len() as int).1, c, s.len() as int);
}

/// The digit a verdict contributes to a feedback pattern's code.
pub open spec fn verdict_digit(f: Feedback) -> int {
    match f {
        Feedback::Gray => 0,
        Feedback::Yellow => 1,
        Feedback::Green => 2,
    }
}

/// The base-3 code of the first `i` verdicts of a feedback pattern.
pub open spec fn pattern_code_prefix(fb: Seq<Feedback>, i: int) -> int
    decreases i,
{
    if i <= 0 {
        0
    } else {
        pattern_code_prefix(fb, i - 1) * 3 + verdict_digit(fb[i - 1])
    }
}

/// The base-3 code of a whole feedback pattern: distinct patterns of
/// `WORD_LENGTH` verdicts get distinct codes below `NUM_PATTERNS`.
pub open spec fn pattern_code(fb: Seq<Feedback>) -> int {
    pattern_code_prefix(fb, fb.len() as int)
}

/// The code of an `i`-verdict prefix is below the `i`-th power of three.
proof fn lemma_pattern_code_prefix_bound(fb: Seq<Feedback>, i: int)
    requires
        0 <= i <= 5,
    ensures
        0 <= pattern_code_prefix(fb, i),
        i <= 1 ==> pattern_code_prefix(fb, i) <= 2,
        i <= 2 ==> pattern_code_prefix(fb, i) <= 8,
        i <= 3 ==> pattern_code_prefix(fb, i) <= 26,
        i <= 4 ==> pattern_code_prefix(fb, i) <= 80,
        i <= 5 ==> pattern_code_prefix(fb, i) <= 242,
    decreases i,
{
    if i > 0 {
        lemma_pattern_code_prefix_bound(fb, i - 1);
    }
}

proof fn lemma_pattern_code_prefix_injective(a: Seq<Feedback>, b: Seq<Feedback>, i: int)
    requires
        0 <= i <= 5,
        pattern_code_prefix(a, i) == pattern_code_prefix(b, i),
    ensures
        forall|k: int| 0 <= k < i ==> a[k] == b[k],
    decreases i,
{
    if i > 0 {
        lemma_pattern_code_prefix_bound(a, i - 1);
        lemma_pattern_code_prefix_bound(b, i - 1);
        assert(0 <= verdict_digit(a[i - 1]) <= 2);
        assert(0 <= verdict_digit(b[i - 1]) <= 2);
        assert(verdict_digit(a[i - 1]) == verdict_digit(b[i - 1]));
        assert(a[i - 1] == b[i - 1]);
        lemma_pattern_code_prefix_injective(a, b, i - 1);
    }
}

/// Distinct feedback patterns have distinct codes: the code determines the
/// whole pattern.
pub proof fn lemma_pattern_code_injective(a: Seq<Feedback>, b: Seq<Feedback>)
    requires
        a.len() == WORD_LENGTH,
        b.len() == WORD_LENGTH,
        pattern_code(a) == pattern_code(b),
    ensures
        a =~= b,
{
    lemma_pattern_code_prefix_injective(a, b, WORD_LENGTH as int);
}

/// Computes the base-3 code of a feedback pattern.
pub(crate) fn encode_pattern(fb: &[Feedback; WORD_LENGTH]) -> (code: usize)
    ensures
        code as int == pattern_code(fb@),
        code < crate::NUM_PATTERNS,
{
    let mut code: usize = 0;
    let mut i: usize = 0;
    while i < WORD_LENGTH
        invariant
            i <= WORD_LENGTH,
            code as int == pattern_code_prefix(fb@, i as int),
        decreases WORD_LENGTH - i,
    {
        proof {
            lemma_pattern_code_prefix_bound(fb@, i as int);
            lemma_pattern_code_prefix_bound(fb@, i as int + 1);
        }
        let d: usize = match fb[i] {
            Feedback::Gray => 0,
            Feedback::Yellow => 1,
            Feedback::Green => 2,
        };
        code = code * 3 + d;
        i += 1;
    }
    proof {
        lemma_pattern_code_prefix_bound(fb@, WORD_LENGTH as int);
    }
    code
}

/// Scans the solution for the first unconsumed position holding `c`.
fn find_unconsumed(solution: &str, used: &[bool; WORD_LENGTH], c: char) -> (result: Option<usize>)
    requires
        solution@.len() == WORD_LENGTH,
    ensures
        match result {
            Some(j) => j < WORD_LENGTH && first_unconsumed(solution@, used@, c, 0) == j as int,
            None => first_unconsumed(solution@, used@, c, 0) == -1,
        },
{
    let mut j: usize = 0;
    while j < WORD_LENGTH
        invariant
            solution@.len() == WORD_LENGTH,
            j <= WORD_LENGTH,
            first_unconsumed(solution@, used@, c, 0) == first_unconsumed(
                solution@,
                used@,
                c,
                j as int,
            ),
        decreases WORD_LENGTH - j,
    {
        if solution.get_char(j) == c && !used[j] {
            return Some(j);
        }
        j += 1;
    }
    None
}

} // verus!
