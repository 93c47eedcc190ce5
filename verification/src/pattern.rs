//! Accumulated knowledge about the hidden solution.
//!
//! A `Pattern` records, for every position, either the character known to
//! stand there or the set of characters excluded there, together with the
//! set of characters known to occur somewhere in the solution.  Feedback for
//! a guess is absorbed position by position: `Green` fixes the character,
//! `Yellow` marks the letter required and excludes it at its position, and
//! `Gray` excludes the letter — at every open position when the letter is
//! not yet required, only at its own position otherwise (the duplicate-letter
//! case, where the solution does contain the letter elsewhere).

use vstd::prelude::*;

use crate::feedback::classify;
use crate::feedback::yellow_before;
use crate::feedback::Feedback;
use crate::SolveError;
use crate::WORD_LENGTH;

verus! {

/// What is known about one position of the solution: the character that
/// stands there, or the characters that cannot.
#[derive(Debug, Clone)]
pub enum Character {
    Known(char),
    Unknown(Vec<char>),
}

/// Mathematical counterpart of `Character`: the exclusions form a set.
pub enum CharKnowledge {
    Known(char),
    Unknown(Set<char>),
}

impl View for Character {
    type V = CharKnowledge;

    open spec fn view(&self) -> CharKnowledge {
        match self {
            Character::Known(c) => CharKnowledge::Known(*c),
            Character::Unknown(excluding) => CharKnowledge::Unknown(excluding@.to_set()),
        }
    }
}

/// Whether a position about which `k` is known may hold the character `c`.
pub open spec fn slot_permits(k: CharKnowledge, c: char) -> bool {
    match k {
        CharKnowledge::Known(kc) => c == kc,
        CharKnowledge::Unknown(excluding) => !excluding.contains(c),
    }
}

/// Mathematical counterpart of `Pattern`: per-position knowledge plus the
/// set of characters required to occur in the solution.
#[verifier::ext_equal]
pub struct PatternModel {
    pub slots: Seq<CharKnowledge>,
    pub required: Set<char>,
}

impl PatternModel {
    /// The state of complete ignorance.
    pub open spec fn empty() -> PatternModel {
        PatternModel {
            slots: Seq::new(WORD_LENGTH as nat, |i: int| CharKnowledge::Unknown(Set::empty())),
            required: Set::empty(),
        }
    }

    pub open spec fn wf(self) -> bool {
        self.slots.len() == WORD_LENGTH
    }

    /// Whether the word `w` is consistent with everything known so far:
    /// every required character occurs in it, and every position holds a
    /// character its knowledge permits.
    pub open spec fn admits(self, w: Seq<char>) -> bool {
        &&& forall|c: char| self.required.contains(c) ==> w.contains(c)
        &&& forall|i: int| 0 <= i < self.slots.len() ==> slot_permits(self.slots[i], w[i])
    }
}

/// Adds `c` to the exclusions of slot `i`, when that slot is still open.
pub open spec fn exclude_at(slots: Seq<CharKnowledge>, i: int, c: char) -> Seq<CharKnowledge> {
    match slots[i] {
        CharKnowledge::Unknown(excluding) => slots.update(
            i,
            CharKnowledge::Unknown(excluding.insert(c)),
        ),
        CharKnowledge::Known(_) => slots,
    }
}

/// Adds `c` to the exclusions of every slot that is still open.
pub open spec fn exclude_everywhere(slots: Seq<CharKnowledge>, c: char) -> Seq<CharKnowledge> {
    Seq::new(
        slots.len(),
        |j: int|
            match slots[j] {
                CharKnowledge::Known(kc) => CharKnowledge::Known(kc),
                CharKnowledge::Unknown(excluding) => CharKnowledge::Unknown(excluding.insert(c)),
            },
    )
}

/// Absorbs the verdict `fb` for guess letter `c` at position `i`.
pub open spec fn absorb_step(m: PatternModel, c: char, fb: Feedback, i: int) -> PatternModel {
    match fb {
        Feedback::Green => PatternModel {
            slots: m.slots.update(i, CharKnowledge::Known(c)),
            required: m.required,
        },
        Feedback::Yellow => PatternModel {
            slots: exclude_at(m.slots, i, c),
            required: m.required.insert(c),
        },
        Feedback::Gray => if m.required.contains(c) {
            PatternModel { slots: exclude_at(m.slots, i, c), required: m.required }
        } else {
            PatternModel { slots: exclude_everywhere(m.slots, c), required: m.required }
        },
    }
}

/// Absorbs the verdicts for the first `i` positions of guess `g`, in order.
pub open spec fn absorb_prefix(m: PatternModel, g: Seq<char>, fb: Seq<Feedback>, i: int) -> PatternModel
    decreases i,
{
    if i <= 0 {
        m
    } else {
        absorb_step(absorb_prefix(m, g, fb, i - 1), g[i - 1], fb[i - 1], i - 1)
    }
}

/// Absorbs a whole guess with its feedback into the knowledge `m`.
pub open spec fn absorb(m: PatternModel, g: Seq<char>, fb: Seq<Feedback>) -> PatternModel {
    absorb_prefix(m, g, fb, g.len() as int)
}

/// The accumulated constraint state: one `Character` per position and the
/// characters required to occur somewhere in the solution.
#[derive(Debug, Clone)]
pub struct Pattern {
    pub characters: Vec<Character>,
    pub required: Vec<char>,
}

impl View for Pattern {
    type V = PatternModel;

    open spec fn view(&self) -> PatternModel {
        PatternModel {
            slots: self.characters@.map_values(|ch: Character| ch@),
            required: self.required@.to_set(),
        }
    }
}

impl Pattern {
    pub open spec fn wf(self) -> bool {
        self.characters@.len() == WORD_LENGTH
    }

    /// Tests whether `word` is consistent with everything absorbed so far.
    pub fn matches_word(&self, word: &str) -> (result: bool)
        requires
            self.wf(),
            word@.len() == WORD_LENGTH,
        ensures
            result == self@.admits(word@),
    {
        let mut r: usize = 0;
        while r < self.required.len()
            invariant
                self.wf(),
                word@.len() == WORD_LENGTH,
                r <= self.required@.len(),
                forall|k: int| 0 <= k < r ==> word@.contains(#[trigger] self.required@[k]),
            decreases self.required@.len() - r,
        {
            if !str_contains_char(word, self.required[r]) {
                proof {
                    assert(self@.required.contains(self.required@[r as int]));
                }
                return false;
            }
            r += 1;
        }
        proof {
            assert forall|c: char| self@.required.contains(c) implies word@.contains(c) by {
                let k = choose|k: int| 0 <= k < self.required@.len() && self.required@[k] == c;
                assert(word@.contains(self.required@[k]));
            }
        }
        let mut i: usize = 0;
        while i < WORD_LENGTH
            invariant
                self.wf(),
                word@.len() == WORD_LENGTH,
                i <= WORD_LENGTH,
                forall|c: char| self@.required.contains(c) ==> word@.contains(c),
                forall|k: int| 0 <= k < i ==> slot_permits(#[trigger] self@.slots[k], word@[k]),
            decreases WORD_LENGTH - i,
        {
            let c = word.get_char(i);
            match &self.characters[i] {
                Character::Known(kc) => {
                    if c != *kc {
                        return false;
                    }
                },
                Character::Unknown(excluding) => {
                    if vec_contains_char(excluding, c) {
                        return false;
                    }
                },
            }
            i += 1;
        }
        true
    }

    /// Absorbs one guess and its feedback into the state, position by
    /// position; a word of the wrong length is rejected and nothing changes.
    pub fn insert_guess(&mut self, word: &str, feedback: [Feedback; WORD_LENGTH]) -> (result:
        Result<(), SolveError>)
        requires
            old(self).wf(),
        ensures
            final(self).wf(),
            word@.len() == WORD_LENGTH ==> (result matches Ok(u) && final(self)@ == absorb(
                old(self)@,
                word@,
                feedback@,
            )),
            word@.len() != WORD_LENGTH ==> (result matches Err(e) && e == SolveError::LengthMismatch
                && *final(self) == *old(self)),
    {
        if word.unicode_len() != WORD_LENGTH {
            return Err(SolveError::LengthMismatch);
        }
        let ghost orig = self@;
        let mut i: usize = 0;
        while i < WORD_LENGTH
            invariant
                self.wf(),
                word@.len() == WORD_LENGTH,
                i <= WORD_LENGTH,
                self@ == absorb_prefix(orig, word@, feedback@, i as int),
            decreases WORD_LENGTH - i,
        {
            let c = word.get_char(i);
            let ghost before = self@;
            match feedback[i] {
                Feedback::Gray => {
                    if !vec_contains_char(&self.required, c) {
                        let ghost start_chars = self.characters@;
                        let ghost req0 = self.required@;
                        let mut j: usize = 0;
                        while j < WORD_LENGTH
                            invariant
                                self.characters@.len() == WORD_LENGTH,
                                j <= WORD_LENGTH,
                                self.required@ == req0,
                                start_chars.len() == WORD_LENGTH,
                                forall|k: int|
                                    0 <= k < j ==> (#[trigger] self.characters@[k])@
                                        == exclude_everywhere(
                                        start_chars.map_values(|ch: Character| ch@),
                                        c,
                                    )[k],
                                forall|k: int|
                                    j <= k < WORD_LENGTH ==> #[trigger] self.characters@[k]
                                        == start_chars[k],
                            decreases WORD_LENGTH - j,
                        {
                            exclude_char(&mut self.characters[j], c);
                            j += 1;
                        }
                        proof {
                            assert(self@.slots =~= exclude_everywhere(before.slots, c));
                            assert(self@ =~= absorb_step(before, c, Feedback::Gray, i as int));
                        }
                    } else {
                        exclude_char(&mut self.characters[i], c);
                        proof {
                            assert forall|k: int| 0 <= k < WORD_LENGTH implies self@.slots[k]
                                == exclude_at(before.slots, i as int, c)[k] by {}
                            assert(self@.slots =~= exclude_at(before.slots, i as int, c));
                            assert(self@ =~= absorb_step(before, c, Feedback::Gray, i as int));
                        }
                    }
                },
                Feedback::Yellow => {
                    let ghost req_before = self.required@;
                    self.required.push(c);
                    exclude_char(&mut self.characters[i], c);
                    proof {
                        lemma_to_set_push(req_before, c);
                        assert(self.required@.to_set() =~= before.required.insert(c));
                        assert forall|k: int| 0 <= k < WORD_LENGTH implies self@.slots[k]
                            == exclude_at(before.slots, i as int, c)[k] by {}
                        assert(self@.slots =~= exclude_at(before.slots, i as int, c));
                        assert(self@ =~= absorb_step(before, c, Feedback::Yellow, i as int));
                    }
                },
                Feedback::Green => {
                    self.characters[i] = Character::Known(c);
                    proof {
                        assert(self@.slots =~= before.slots.update(
                            i as int,
                            CharKnowledge::Known(c),
                        ));
                        assert(self@ =~= absorb_step(before, c, Feedback::Green, i as int));
                    }
                },
            }
            i += 1;
        }
        Ok(())
    }
}

proof fn lemma_absorb_prefix_len(m: PatternModel, g: Seq<char>, fb: Seq<Feedback>, i: int)
    requires
        i <= m.slots.len(),
    ensures
        absorb_prefix(m, g, fb, i).slots.len() == m.slots.len(),
    decreases i,
{
    if i > 0 {
        lemma_absorb_prefix_len(m, g, fb, i - 1);
        let mp = absorb_prefix(m, g, fb, i - 1);
        assert(absorb_prefix(m, g, fb, i) == absorb_step(mp, g[i - 1], fb[i - 1], i - 1));
        lemma_absorb_step_facts(mp, g[i - 1], fb[i - 1], i - 1);
    }
}

/// Everything one absorption step does to the slots: the step's own slot is
/// fixed or gains one exclusion; in the global `Gray` case every open slot
/// gains the same exclusion; every other slot is untouched.
proof fn lemma_absorb_step_facts(mp: PatternModel, c: char, f: Feedback, k: int)
    requires
        0 <= k < mp.slots.len(),
    ensures
        absorb_step(mp, c, f, k).slots.len() == mp.slots.len(),
        f == Feedback::Green ==> absorb_step(mp, c, f, k).slots[k] == CharKnowledge::Known(c),
        f == Feedback::Green ==> forall|j: int|
            0 <= j < mp.slots.len() && j != k ==> absorb_step(mp, c, f, k).slots[j]
                == mp.slots[j],
        f != Feedback::Green && (f == Feedback::Yellow || mp.required.contains(c)) ==> forall|
            j: int,
        |
            0 <= j < mp.slots.len() && j != k ==> absorb_step(mp, c, f, k).slots[j]
                == mp.slots[j],
        f != Feedback::Green && (f == Feedback::Yellow || mp.required.contains(c))
            ==> absorb_step(mp, c, f, k).slots[k] == (match mp.slots[k] {
            CharKnowledge::Known(kc) => CharKnowledge::Known(kc),
            CharKnowledge::Unknown(excluding) => CharKnowledge::Unknown(excluding.insert(c)),
        }),
        f == Feedback::Gray && !mp.required.contains(c) ==> forall|j: int|
            0 <= j < mp.slots.len() ==> absorb_step(mp, c, f, k).slots[j] == (match mp.slots[j] {
                CharKnowledge::Known(kc) => CharKnowledge::Known(kc),
                CharKnowledge::Unknown(excluding) => CharKnowledge::Unknown(excluding.insert(c)),
            }),
        absorb_step(mp, c, f, k).required == (if f == Feedback::Yellow {
            mp.required.insert(c)
        } else {
            mp.required
        }),
{
    if f == Feedback::Yellow || (f == Feedback::Gray && mp.required.contains(c)) {
        match mp.slots[k] {
            CharKnowledge::Known(_) => {},
            CharKnowledge::Unknown(excluding) => {
                assert(absorb_step(mp, c, f, k).slots == mp.slots.update(
                    k,
                    CharKnowledge::Unknown(excluding.insert(c)),
                ));
            },
        }
    }
}

/// Absorbing feedback for a whole guess preserves the number of slots.
pub proof fn lemma_absorb_wf(m: PatternModel, g: Seq<char>, fb: Seq<Feedback>)
    requires
        m.wf(),
        g.len() == WORD_LENGTH,
    ensures
        absorb(m, g, fb).wf(),
{
    lemma_absorb_prefix_len(m, g, fb, g.len() as int);
}

/// After absorbing the first `i` verdicts, a character is required exactly
/// when it was required before or an earlier position got a `Yellow` for it.
proof fn lemma_absorb_prefix_required(m: PatternModel, g: Seq<char>, fb: Seq<Feedback>, i: int)
    requires
        0 <= i,
    ensures
        forall|c: char|
            #[trigger] absorb_prefix(m, g, fb, i).required.contains(c) <==> (m.required.contains(c)
                || yellow_before(g, fb, c, i)),
    decreases i,
{
    if i > 0 {
        lemma_absorb_prefix_required(m, g, fb, i - 1);
        let mp = absorb_prefix(m, g, fb, i - 1);
        let mi = absorb_prefix(m, g, fb, i);
        assert forall|c: char| #[trigger] mi.required.contains(c) implies (m.required.contains(c)
            || yellow_before(g, fb, c, i)) by {
            if mp.required.contains(c) {
                if !m.required.contains(c) {
                    let k = choose|k: int|
                        0 <= k < i - 1 && fb[k] == Feedback::Yellow && g[k] == c;
                    assert(0 <= k < i && fb[k] == Feedback::Yellow && g[k] == c);
                }
            } else {
                assert(fb[i - 1] == Feedback::Yellow && g[i - 1] == c);
                assert(0 <= i - 1 < i && fb[i - 1] == Feedback::Yellow && g[i - 1] == c);
            }
        }
        assert forall|c: char| (m.required.contains(c) || yellow_before(g, fb, c, i)) implies (
        #[trigger] mi.required.contains(c)) by {
            if m.required.contains(c) {
                assert(mp.required.contains(c));
            } else {
                let k = choose|k: int| 0 <= k < i && fb[k] == Feedback::Yellow && g[k] == c;
                if k < i - 1 {
                    assert(yellow_before(g, fb, c, i - 1));
                    assert(mp.required.contains(c));
                } else {
                    assert(fb[i - 1] == Feedback::Yellow && g[i - 1] == c);
                }
            }
        }
    }
}

/// Once a position's `Green` verdict has been absorbed, its slot holds the
/// guessed (and thus solution) character, and nothing later dislodges it.
proof fn lemma_absorb_prefix_green_fixed(
    m: PatternModel,
    g: Seq<char>,
    fb: Seq<Feedback>,
    i: int,
    j: int,
)
    requires
        m.slots.len() == WORD_LENGTH,
        0 <= j < i <= WORD_LENGTH,
        fb[j] == Feedback::Green,
    ensures
        absorb_prefix(m, g, fb, i).slots[j] == CharKnowledge::Known(g[j]),
    decreases i,
{
    lemma_absorb_prefix_len(m, g, fb, i - 1);
    let mp = absorb_prefix(m, g, fb, i - 1);
    assert(absorb_prefix(m, g, fb, i) == absorb_step(mp, g[i - 1], fb[i - 1], i - 1));
    lemma_absorb_step_facts(mp, g[i - 1], fb[i - 1], i - 1);
    if j < i - 1 {
        lemma_absorb_prefix_green_fixed(m, g, fb, i - 1, j);
    }
}

/// The induction behind `lemma_honest_feedback_keeps_solution`: while the
/// verdicts of `classify(g, s)` are being absorbed one by one, the solution
/// `s` satisfies every requirement recorded so far, and every slot permits
/// its character — except possibly at positions whose `Green` verdict is
/// still to come, which will be fixed to the right character when it is.
proof fn lemma_absorb_keeps_admitted(m: PatternModel, g: Seq<char>, s: Seq<char>, i: int)
    requires
        g.len() == WORD_LENGTH,
        s.len() == WORD_LENGTH,
        m.wf(),
        m.admits(s),
        0 <= i <= WORD_LENGTH,
    ensures
        ({
            let fb = classify(g, s);
            let mi = absorb_prefix(m, g, fb, i);
            &&& forall|c: char| #[trigger] mi.required.contains(c) ==> s.contains(c)
            &&& forall|j: int|
                0 <= j < WORD_LENGTH && !(fb[j] == Feedback::Green && j >= i) ==> slot_permits(
                    #[trigger] mi.slots[j],
                    s[j],
                )
        }),
    decreases i,
{
    let fb = classify(g, s);
    crate::feedback::lemma_classify_len(g, s);
    if i == 0 {
        assert forall|j: int|
            0 <= j < WORD_LENGTH && !(fb[j] == Feedback::Green && j >= 0) implies slot_permits(
            #[trigger] m.slots[j],
            s[j],
        ) by {
            assert(slot_permits(m.slots[j], s[j]));
        }
    } else {
        lemma_absorb_keeps_admitted(m, g, s, i - 1);
        lemma_absorb_prefix_len(m, g, fb, i - 1);
        lemma_absorb_prefix_required(m, g, fb, i - 1);
        let mp = absorb_prefix(m, g, fb, i - 1);
        let mi = absorb_prefix(m, g, fb, i);
        let c = g[i - 1];
        assert(mi == absorb_step(mp, c, fb[i - 1], i - 1));
        lemma_absorb_step_facts(mp, c, fb[i - 1], i - 1);
        crate::feedback::lemma_classify_green_iff_exact(g, s, i - 1);
        if fb[i - 1] == Feedback::Green {
            assert forall|j: int|
                0 <= j < WORD_LENGTH && !(fb[j] == Feedback::Green && j >= i) implies slot_permits(
                #[trigger] mi.slots[j],
                s[j],
            ) by {
                if j == i - 1 {
                    assert(mi.slots[j] == CharKnowledge::Known(c));
                } else {
                    assert(mi.slots[j] == mp.slots[j]);
                    assert(slot_permits(mp.slots[j], s[j]));
                }
            }
        } else if fb[i - 1] == Feedback::Yellow {
            crate::feedback::lemma_classify_yellow_present(g, s, i - 1);
            assert forall|j: int|
                0 <= j < WORD_LENGTH && !(fb[j] == Feedback::Green && j >= i) implies slot_permits(
                #[trigger] mi.slots[j],
                s[j],
            ) by {
                assert(slot_permits(mp.slots[j], s[j]));
                if j == i - 1 {
                    assert(s[j] != c);
                }
            }
        } else {
            crate::feedback::lemma_classify_gray_not_exact(g, s, i - 1);
            if mp.required.contains(c) {
                assert forall|j: int|
                    0 <= j < WORD_LENGTH && !(fb[j] == Feedback::Green && j >= i)
                    implies slot_permits(#[trigger] mi.slots[j], s[j]) by {
                    assert(slot_permits(mp.slots[j], s[j]));
                    if j == i - 1 {
                        assert(s[j] != c);
                    }
                }
            } else {
                // The letter is not yet required, so no earlier position got
                // a `Yellow` for it, and every occurrence of it in the
                // solution is an exact match — whose slot is already fixed.
                assert(!yellow_before(g, fb, c, i - 1));
                assert forall|j: int|
                    0 <= j < WORD_LENGTH && !(fb[j] == Feedback::Green && j >= i)
                    implies slot_permits(#[trigger] mi.slots[j], s[j]) by {
                    assert(slot_permits(mp.slots[j], s[j]));
                    match mp.slots[j] {
                        CharKnowledge::Known(_) => {
                            assert(mi.slots[j] == mp.slots[j]);
                        },
                        CharKnowledge::Unknown(excluding) => {
                            if s[j] == c {
                                crate::feedback::lemma_classify_gray_case(g, s, i - 1, j);
                                assert(g[j] == s[j]);
                                crate::feedback::lemma_classify_green_iff_exact(g, s, j);
                                assert(fb[j] == Feedback::Green);
                                assert(j < i - 1);
                                lemma_absorb_prefix_green_fixed(m, g, fb, i - 1, j);
                                assert(false);
                            }
                        },
                    }
                }
            }
        }
    }
}

/// Honest feedback never eliminates the solution it was computed from: a
/// constraint state that admits `s` still admits `s` after absorbing the
/// feedback that any guess `g` produces against `s`.
pub proof fn lemma_honest_feedback_keeps_solution(m: PatternModel, g: Seq<char>, s: Seq<char>)
    requires
        g.len() == WORD_LENGTH,
        s.len() == WORD_LENGTH,
        m.wf(),
        m.admits(s),
    ensures
        absorb(m, g, classify(g, s)).wf(),
        absorb(m, g, classify(g, s)).admits(s),
{
    let fb = classify(g, s);
    lemma_absorb_prefix_len(m, g, fb, g.len() as int);
    lemma_absorb_keeps_admitted(m, g, s, WORD_LENGTH as int);
    let mf = absorb(m, g, fb);
    assert forall|j: int| 0 <= j < mf.slots.len() implies slot_permits(
        #[trigger] mf.slots[j],
        s[j],
    ) by {
        assert(!(fb[j] == Feedback::Green && j >= WORD_LENGTH));
    }
}

/// The empty constraint state admits every word: nothing is required and
/// nothing is excluded.
pub proof fn lemma_empty_admits(w: Seq<char>)
    ensures
        PatternModel::empty().admits(w),
{
    assert forall|i: int| 0 <= i < PatternModel::empty().slots.len() implies slot_permits(
        PatternModel::empty().slots[i],
        w[i],
    ) by {
        assert(PatternModel::empty().slots[i] == CharKnowledge::Unknown(Set::<char>::empty()));
    }
}

/// Adds `c` to the exclusions of one slot, when the slot is still open.
fn exclude_char(slot: &mut Character, c: char)
    ensures
        final(slot)@ == (match old(slot)@ {
            CharKnowledge::Unknown(excluding) => CharKnowledge::Unknown(excluding.insert(c)),
            CharKnowledge::Known(kc) => CharKnowledge::Known(kc),
        }),
{
    match slot {
        Character::Known(_) => {},
        Character::Unknown(excluding) => {
            let ghost ex0 = excluding@;
            excluding.push(c);
            proof {
                lemma_to_set_push(ex0, c);
            }
        },
    }
}

/// Pushing a character onto a sequence inserts it into the sequence's set of
/// elements.
proof fn lemma_to_set_push(s: Seq<char>, c: char)
    ensures
        s.push(c).to_set() =~= s.to_set().insert(c),
{
    assert forall|x: char| s.push(c).to_set().contains(x) implies s.to_set().insert(c).contains(
        x,
    ) by {
        let k = choose|k: int| 0 <= k < s.push(c).len() && s.push(c)[k] == x;
        if k < s.len() {
            assert(s[k] == x);
        } else {
            assert(x == c);
        }
    }
    assert forall|x: char| s.to_set().insert(c).contains(x) implies s.push(c).to_set().contains(
        x,
    ) by {
        if x == c {
            assert(s.push(c)[s.len() as int] == x);
        } else {
            let k = choose|k: int| 0 <= k < s.len() && s[k] == x;
            assert(s.push(c)[k] == x);
        }
    }
}

/// Whether `word` contains the character `c`.
fn str_contains_char(word: &str, c: char) -> (result: bool)
    ensures
        result == word@.contains(c),
{
    let n = word.unicode_len();
    let mut i: usize = 0;
    while i < n
        invariant
            n as nat == word@.len(),
            i <= n,
            forall|k: int| 0 <= k < i ==> word@[k] != c,
        decreases n - i,
    {
        if word.get_char(i) == c {
            proof {
                assert(word@.contains(c)) by {
                    assert(word@[i as int] == c);
                }
            }
            return true;
        }
        i += 1;
    }
    false
}

/// Whether the vector `v` contains the character `c`.
fn vec_contains_char(v: &Vec<char>, c: char) -> (result: bool)
    ensures
        result == v@.contains(c),
{
    let mut i: usize = 0;
    while i < v.len()
        invariant
            i <= v@.len(),
            forall|k: int| 0 <= k < i ==> v@[k] != c,
        decreases v@.len() - i,
    {
        if v[i] == c {
            proof {
                assert(v@.contains(c)) by {
                    assert(v@[i as int] == c);
                }
            }
            return true;
        }
        i += 1;
    }
    false
}

impl Default for Character {
    /// A position about which nothing is known.
    fn default() -> (result: Self)
        ensures
            result@ == CharKnowledge::Unknown(Set::<char>::empty()),
    {
        let r = Character::Unknown(Vec::new());
        proof {
            assert(Seq::<char>::empty().to_set() =~= Set::<char>::empty());
        }
        r
    }
}

impl Default for Pattern {
    /// The state of complete ignorance.
    fn default() -> (result: Self)
        ensures
            result.wf(),
            result@ == PatternModel::empty(),
    {
        let mut characters: Vec<Character> = Vec::new();
        let mut k: usize = 0;
        while k < WORD_LENGTH
            invariant
                characters@.len() == k,
                k <= WORD_LENGTH,
                forall|j: int|
                    0 <= j < k ==> (#[trigger] characters@[j])@ == CharKnowledge::Unknown(
                        Set::<char>::empty(),
                    ),
            decreases WORD_LENGTH - k,
        {
            let slot = Character::default();
            characters.push(slot);
            k += 1;
        }
        let result = Pattern { characters, required: Vec::new() };
        proof {
            assert(Seq::<char>::empty().to_set() =~= Set::<char>::empty());
            assert(result@.slots =~= PatternModel::empty().slots);
            assert(result@ =~= PatternModel::empty());
        }
        result
    }
}

} // verus!
