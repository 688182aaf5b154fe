//! The accumulated state of what is known about the hidden answer word:
//! confirmed letters per position, letters known present somewhere,
//! letters known absent everywhere, and per-position exclusions.

use vstd::prelude::*;
use crate::charset::CharSet;
use crate::outcome::LetterOutcome;
use crate::outcome::outcome_at;
use crate::text::str_contains_char;

verus! {

/// Everything learned so far about the answer in one guessing session.
///
/// The model exposed to specifications is: a word length; per position
/// either a confirmed letter or nothing (`hint_at`); the set of letters
/// known to occur somewhere (`present_set`); the set of letters known to
/// occur nowhere (`absent_set`); and per position the set of letters
/// known not to stand there despite occurring elsewhere (`missed_at`).
pub struct Knowledge {
    pattern: Vec<Option<char>>,
    present: CharSet,
    absent: CharSet,
    misses: Vec<CharSet>,
}

/// The letters that comparing `guess` against `answer` proves present
/// somewhere in the answer: every guessed letter the answer contains.
pub open spec fn learned_present(guess: Seq<char>, answer: Seq<char>) -> Set<char> {
    Set::new(
        |c: char| exists|i: int| 0 <= i < guess.len() && guess[i] == c && answer.contains(c),
    )
}

/// The letters that comparing `guess` against `answer` proves absent:
/// every guessed letter the answer does not contain.
pub open spec fn learned_absent(guess: Seq<char>, answer: Seq<char>) -> Set<char> {
    Set::new(
        |c: char| exists|i: int| 0 <= i < guess.len() && guess[i] == c && !answer.contains(c),
    )
}

/// The confirmed letter a human-authored pattern string gives for
/// position `i`: the character there unless it is the unknown marker '.'.
pub open spec fn hint_of_pattern(p: Seq<char>, i: int) -> Option<char> {
    if p[i] != '.' {
        Some(p[i])
    } else {
        None
    }
}

/// The letters a pattern string confirms somewhere: all its non-'.'
/// characters.
pub open spec fn pattern_hits(p: Seq<char>) -> Set<char> {
    Set::new(|c: char| c != '.' && exists|i: int| 0 <= i < p.len() && #[trigger] p[i] == c)
}

/// Whether position `i` of the tried word `w` is recorded as a miss:
/// the letter is among those known present (`pc`) and the pattern does
/// not already confirm that very letter there.
pub open spec fn word_miss_cond(p: Seq<char>, pc: Seq<char>, w: Seq<char>, i: int) -> bool {
    &&& 0 <= i < w.len()
    &&& pc.contains(w[i])
    &&& hint_of_pattern(p, i) != Some(w[i])
}

/// The letters one tried word `w` adds to the present set.
pub open spec fn word_present(p: Seq<char>, pc: Seq<char>, w: Seq<char>) -> Set<char> {
    Set::new(|c: char| exists|i: int| #[trigger] w[i] == c && word_miss_cond(p, pc, w, i))
}

/// The letters one tried word `w` adds to the absent set: those of its
/// letters not among the known-present characters.
pub open spec fn word_absent(pc: Seq<char>, w: Seq<char>) -> Set<char> {
    Set::new(
        |c: char| exists|i: int| 0 <= i < w.len() && #[trigger] w[i] == c && !pc.contains(c),
    )
}

/// The letters the whole list of tried words adds to the present set.
pub open spec fn tries_present(p: Seq<char>, pc: Seq<char>, tries: Seq<&str>) -> Set<char> {
    Set::new(
        |c: char| exists|k: int|
            0 <= k < tries.len() && word_present(p, pc, (#[trigger] tries[k])@).contains(c),
    )
}

/// The letters the whole list of tried words adds to the absent set.
pub open spec fn tries_absent(pc: Seq<char>, tries: Seq<&str>) -> Set<char> {
    Set::new(
        |c: char| exists|k: int|
            0 <= k < tries.len() && word_absent(pc, (#[trigger] tries[k])@).contains(c),
    )
}

/// The letters the whole list of tried words excludes from position `i`.
pub open spec fn tries_miss_at(
    p: Seq<char>,
    pc: Seq<char>,
    tries: Seq<&str>,
    i: int,
) -> Set<char> {
    Set::new(
        |c: char| exists|k: int|
            0 <= k < tries.len() && (#[trigger] tries[k])@[i] == c
                && word_miss_cond(p, pc, tries[k]@, i),
    )
}

impl Knowledge {
    /// The configured word length.
    pub closed spec fn word_len(&self) -> nat {
        self.pattern@.len()
    }

    /// The confirmed letter at position `i`, if any.
    pub closed spec fn hint_at(&self, i: int) -> Option<char> {
        self.pattern@[i]
    }

    /// Letters known to occur somewhere in the answer.
    pub closed spec fn present_set(&self) -> Set<char> {
        self.present@
    }

    /// Letters known to occur nowhere in the answer.
    pub closed spec fn absent_set(&self) -> Set<char> {
        self.absent@
    }

    /// Letters known not to occupy position `i` despite being present.
    pub closed spec fn missed_at(&self, i: int) -> Set<char> {
        self.misses@[i]@
    }

    /// Structural well-formedness: the per-position tables span the word
    /// length, a letter confirmed at some position is recorded as
    /// present, and a letter excluded from a position is one recorded as
    /// present elsewhere. Constructors establish it; every method
    /// preserves it.
    pub closed spec fn wf(&self) -> bool {
        &&& self.misses@.len() == self.pattern@.len()
        &&& self.present.wf()
        &&& self.absent.wf()
        &&& forall|i: int| 0 <= i < self.misses@.len() ==> (#[trigger] self.misses@[i]).wf()
        &&& forall|i: int| #![trigger self.hint_at(i)]
            0 <= i < self.pattern@.len()
                ==> match self.hint_at(i) {
                    Some(c) => self.present_set().contains(c),
                    None => true,
                }
        &&& forall|i: int, c: char|
            0 <= i < self.misses@.len() && #[trigger] self.missed_at(i).contains(c)
                ==> self.present_set().contains(c)
    }

    /// Whether letter `c` could still legally occupy position `i`: a
    /// confirmed position must match exactly; a letter known present is
    /// excluded from the positions it already failed at; a letter known
    /// absent is excluded everywhere.
    pub open spec fn fits_spec(&self, c: char, i: int) -> bool {
        match self.hint_at(i) {
            Some(k) => k == c,
            None => if self.present_set().contains(c) {
                !self.missed_at(i).contains(c)
            } else {
                !self.absent_set().contains(c)
            },
        }
    }

    /// Whether word `w` is still a possible answer: right length, every
    /// letter plausible at its position, and every letter known present
    /// actually occurring in `w`.
    pub open spec fn check_word_spec(&self, w: Seq<char>) -> bool {
        &&& w.len() == self.word_len()
        &&& forall|i: int| 0 <= i < w.len() ==> self.fits_spec(w[i], i)
        &&& self.present_set().subset_of(w.to_set())
    }

    /// Empty knowledge for a word of `length` letters: no constraints.
    pub fn new(length: usize) -> (k: Knowledge)
        ensures
            k.wf(),
            k.word_len() == length,
            forall|i: int| 0 <= i < length ==> k.hint_at(i) is None,
            k.present_set() == Set::<char>::empty(),
            k.absent_set() == Set::<char>::empty(),
            forall|i: int| 0 <= i < length ==> k.missed_at(i) == Set::<char>::empty(),
    {
        let mut pattern: Vec<Option<char>> = Vec::new();
        let mut misses: Vec<CharSet> = Vec::new();
        let mut i: usize = 0;
        while i < length
            invariant
                i <= length,
                pattern@.len() == i,
                misses@.len() == i,
                forall|j: int| 0 <= j < i ==> pattern@[j] is None,
                forall|j: int| 0 <= j < i ==> (#[trigger] misses@[j]).wf(),
                forall|j: int| 0 <= j < i ==> (#[trigger] misses@[j])@ == Set::<char>::empty(),
            decreases length - i,
        {
            pattern.push(None);
            misses.push(CharSet::new());
            i += 1;
        }
        Knowledge { pattern, present: CharSet::new(), absent: CharSet::new(), misses }
    }

    /// Whether nothing at all has been learned yet.
    pub fn is_empty(&self) -> (r: bool)
        requires
            self.wf(),
        ensures
            r == ({
                &&& forall|i: int| 0 <= i < self.word_len() ==> self.hint_at(i) is None
                &&& self.present_set() == Set::<char>::empty()
                &&& self.absent_set() == Set::<char>::empty()
                &&& forall|i: int| 0 <= i < self.word_len()
                    ==> self.missed_at(i) == Set::<char>::empty()
            }),
    {
        let n = self.pattern.len();
        let mut i: usize = 0;
        while i < n
            invariant
                self.wf(),
                n == self.pattern@.len(),
                i <= n,
                forall|j: int| 0 <= j < i ==> self.pattern@[j] is None,
            decreases n - i,
        {
            if self.pattern[i].is_some() {
                proof {
                    assert(!(self.hint_at(i as int) is None));
                }
                return false;
            }
            i += 1;
        }
        if self.present.len() != 0 {
            proof {
                self.present.lemma_finite();
                assert(self.present_set() != Set::<char>::empty()) by {
                    if self.present_set() =~= Set::<char>::empty() {
                        assert(self.present_set().len() == 0);
                    }
                }
            }
            return false;
        }
        if self.absent.len() != 0 {
            proof {
                self.absent.lemma_finite();
                assert(self.absent_set() != Set::<char>::empty()) by {
                    if self.absent_set() =~= Set::<char>::empty() {
                        assert(self.absent_set().len() == 0);
                    }
                }
            }
            return false;
        }
        let mut i: usize = 0;
        while i < n
            invariant
                self.wf(),
                n == self.pattern@.len(),
                i <= n,
                forall|j: int| 0 <= j < i ==> self.missed_at(j) == Set::<char>::empty(),
            decreases n - i,
        {
            if self.misses[i].len() != 0 {
                proof {
                    self.misses@[i as int].lemma_finite();
                    assert(self.missed_at(i as int) != Set::<char>::empty()) by {
                        if self.missed_at(i as int) =~= Set::<char>::empty() {
                            assert(self.missed_at(i as int).len() == 0);
                        }
                    }
                }
                return false;
            }
            proof {
                self.misses@[i as int].lemma_finite();
                self.missed_at(i as int).lemma_len0_is_empty();
            }
            i += 1;
        }
        proof {
            self.present.lemma_finite();
            self.absent.lemma_finite();
            self.present_set().lemma_len0_is_empty();
            self.absent_set().lemma_len0_is_empty();
        }
        true
    }

    /// Record that `ch` is confirmed at position `at`.
    fn add_hit(&mut self, ch: char, at: usize)
        requires
            old(self).wf(),
            at < old(self).word_len(),
        ensures
            final(self).wf(),
            final(self).word_len() == old(self).word_len(),
            forall|i: int|
                0 <= i < old(self).word_len()
                    ==> final(self).hint_at(i) == if i == at {
                        Some(ch)
                    } else {
                        old(self).hint_at(i)
                    },
            final(self).present_set() == old(self).present_set().insert(ch),
            final(self).absent_set() == old(self).absent_set(),
            forall|i: int|
                0 <= i < old(self).word_len()
                    ==> final(self).missed_at(i) == old(self).missed_at(i),
    {
        self.present.insert(ch);
        self.pattern[at] = Some(ch);
        proof {
            assert forall|i: int| #![trigger self.hint_at(i)]
                0 <= i < self.pattern@.len()
                implies match self.hint_at(i) {
                    Some(c) => self.present_set().contains(c),
                    None => true,
                } by {
                if i != at {
                    assert(self.hint_at(i) == old(self).hint_at(i));
                }
            }
            assert forall|i: int, c: char|
                0 <= i < self.misses@.len() && #[trigger] self.missed_at(i).contains(c)
                implies self.present_set().contains(c) by {
                assert(old(self).missed_at(i).contains(c));
            }
        }
    }

    /// Record that `ch` occurs in the answer but not at position `at`.
    fn add_miss(&mut self, ch: char, at: usize)
        requires
            old(self).wf(),
            at < old(self).word_len(),
        ensures
            final(self).wf(),
            final(self).word_len() == old(self).word_len(),
            forall|i: int|
                0 <= i < old(self).word_len() ==> final(self).hint_at(i) == old(self).hint_at(i),
            final(self).present_set() == old(self).present_set().insert(ch),
            final(self).absent_set() == old(self).absent_set(),
            forall|i: int|
                0 <= i < old(self).word_len()
                    ==> final(self).missed_at(i) == if i == at {
                        old(self).missed_at(i).insert(ch)
                    } else {
                        old(self).missed_at(i)
                    },
    {
        self.present.insert(ch);
        let m = &mut self.misses[at];
        m.insert(ch);
        proof {
            assert forall|i: int| #![trigger self.hint_at(i)]
                0 <= i < self.pattern@.len()
                implies match self.hint_at(i) {
                    Some(c) => self.present_set().contains(c),
                    None => true,
                } by {
                assert(self.hint_at(i) == old(self).hint_at(i));
            }
            assert forall|i: int, c: char|
                0 <= i < self.misses@.len() && #[trigger] self.missed_at(i).contains(c)
                implies self.present_set().contains(c) by {
                if i != at || c != ch {
                    assert(old(self).missed_at(i).contains(c));
                }
            }
        }
    }

    /// Record that `ch` occurs nowhere in the answer.
    fn add_absent(&mut self, ch: char)
        requires
            old(self).wf(),
        ensures
            final(self).wf(),
            final(self).word_len() == old(self).word_len(),
            forall|i: int|
                0 <= i < old(self).word_len() ==> final(self).hint_at(i) == old(self).hint_at(i),
            final(self).present_set() == old(self).present_set(),
            final(self).absent_set() == old(self).absent_set().insert(ch),
            forall|i: int|
                0 <= i < old(self).word_len()
                    ==> final(self).missed_at(i) == old(self).missed_at(i),
    {
        self.absent.insert(ch);
        proof {
            assert forall|i: int| #![trigger self.hint_at(i)]
                0 <= i < self.pattern@.len()
                implies match self.hint_at(i) {
                    Some(c) => self.present_set().contains(c),
                    None => true,
                } by {
                assert(self.hint_at(i) == old(self).hint_at(i));
            }
            assert forall|i: int, c: char|
                0 <= i < self.misses@.len() && #[trigger] self.missed_at(i).contains(c)
                implies self.present_set().contains(c) by {
                assert(old(self).missed_at(i).contains(c));
            }
        }
    }

    /// Whether `ch` could still legally occupy position `at`.
    pub fn fits(&self, ch: &char, at: usize) -> (r: bool)
        requires
            self.wf(),
            at < self.word_len(),
        ensures
            r == self.fits_spec(*ch, at as int),
    {
        if let Some(known) = self.pattern[at] {
            known == *ch
        } else if self.present.contains(*ch) {
            !self.misses[at].contains(*ch)
        } else {
            !self.absent.contains(*ch)
        }
    }

    /// Whether word `w` is still a possible answer.
    pub fn check_word(&self, w: &str) -> (r: bool)
        requires
            self.wf(),
        ensures
            r == self.check_word_spec(w@),
    {
        let n = w.unicode_len();
        if n != self.pattern.len() {
            return false;
        }
        let mut i: usize = 0;
        while i < n
            invariant
                self.wf(),
                n == w@.len(),
                n == self.word_len(),
                i <= n,
                forall|j: int| 0 <= j < i ==> self.fits_spec(w@[j], j),
            decreases n - i,
        {
            let ch = w.get_char(i);
            if !self.fits(&ch, i) {
                return false;
            }
            i += 1;
        }
        self.present.subset_of_chars(w)
    }

    /// The words of `words` still consistent with this knowledge, in
    /// their original order.
    pub fn filter<'b>(&self, words: &[&'b str]) -> (r: Vec<&'b str>)
        requires
            self.wf(),
        ensures
            r@ == words@.filter(|w: &str| self.check_word_spec(w@)),
    {
        let ghost pred = |w: &str| self.check_word_spec(w@);
        let n = words.len();
        let mut r: Vec<&'b str> = Vec::new();
        let mut i: usize = 0;
        proof {
            reveal(Seq::filter);
        }
        while i < n
            invariant
                self.wf(),
                n == words@.len(),
                i <= n,
                r@ == words@.take(i as int).filter(pred),
                pred == (|w: &str| self.check_word_spec(w@)),
            decreases n - i,
        {
            let w = words[i];
            proof {
                reveal(Seq::filter);
                let t1 = words@.take(i + 1);
                assert(t1.drop_last() =~= words@.take(i as int));
                assert(t1.last() == words@[i as int]);
            }
            if self.check_word(w) {
                r.push(w);
            }
            i += 1;
        }
        proof {
            assert(words@.take(n as int) =~= words@);
        }
        r
    }

    /// The letters already accounted for by what is known: those known
    /// present together with those known absent. Scoring uses this to
    /// avoid rewarding letters that can teach nothing new.
    pub fn get_covered(&self) -> (r: CharSet)
        requires
            self.wf(),
        ensures
            r.wf(),
            r@ == self.present_set().union(self.absent_set()),
    {
        let mut r = self.present.duplicate();
        r.extend_from(&self.absent);
        r
    }

    /// Fold the feedback of one full guess against `answer` into the
    /// accumulator: a hit confirms the position, a missed-but-contained
    /// letter is recorded present and excluded from that position, and a
    /// letter the answer lacks is recorded absent.
    pub fn learn(&mut self, guess: &str, answer: &str)
        requires
            old(self).wf(),
            guess@.len() == old(self).word_len(),
            answer@.len() == old(self).word_len(),
        ensures
            final(self).wf(),
            final(self).word_len() == old(self).word_len(),
            forall|i: int|
                0 <= i < old(self).word_len()
                    ==> final(self).hint_at(i) == if guess@[i] == answer@[i] {
                        Some(guess@[i])
                    } else {
                        old(self).hint_at(i)
                    },
            final(self).present_set() == old(self).present_set().union(
                learned_present(guess@, answer@),
            ),
            final(self).absent_set() == old(self).absent_set().union(
                learned_absent(guess@, answer@),
            ),
            forall|i: int|
                0 <= i < old(self).word_len()
                    ==> final(self).missed_at(i) == if guess@[i] != answer@[i]
                        && answer@.contains(guess@[i]) {
                        old(self).missed_at(i).insert(guess@[i])
                    } else {
                        old(self).missed_at(i)
                    },
            learn_rel(*old(self), *final(self), guess@, answer@),
    {
        let n = guess.unicode_len();
        let mut i: usize = 0;
        while i < n
            invariant
                self.wf(),
                n == guess@.len(),
                n == answer@.len(),
                n == old(self).word_len(),
                self.word_len() == old(self).word_len(),
                i <= n,
                forall|k: int|
                    0 <= k < n
                        ==> self.hint_at(k) == if k < i && guess@[k] == answer@[k] {
                            Some(guess@[k])
                        } else {
                            old(self).hint_at(k)
                        },
                self.present_set() == old(self).present_set().union(
                    learned_present(guess@.take(i as int), answer@),
                ),
                self.absent_set() == old(self).absent_set().union(
                    learned_absent(guess@.take(i as int), answer@),
                ),
                forall|k: int|
                    0 <= k < n
                        ==> self.missed_at(k) == if k < i && guess@[k] != answer@[k]
                            && answer@.contains(guess@[k]) {
                            old(self).missed_at(k).insert(guess@[k])
                        } else {
                            old(self).missed_at(k)
                        },
            decreases n - i,
        {
            let g = guess.get_char(i);
            let a = answer.get_char(i);
            let ghost lp0 = learned_present(guess@.take(i as int), answer@);
            let ghost la0 = learned_absent(guess@.take(i as int), answer@);
            let ghost lp1 = learned_present(guess@.take(i + 1), answer@);
            let ghost la1 = learned_absent(guess@.take(i + 1), answer@);
            proof {
                // One more guessed position extends the learned sets by at
                // most the letter at that position.
                assert forall|c: char| lp1.contains(c)
                    implies lp0.contains(c) || (c == g && answer@.contains(c)) by {
                    let k = choose|k: int|
                        0 <= k < i + 1 && #[trigger] guess@.take(i + 1)[k] == c
                            && answer@.contains(c);
                    if k < i {
                        assert(guess@.take(i as int)[k] == c);
                    }
                }
                assert forall|c: char| lp0.contains(c) implies lp1.contains(c) by {
                    let k = choose|k: int|
                        0 <= k < i && #[trigger] guess@.take(i as int)[k] == c
                            && answer@.contains(c);
                    assert(guess@.take(i + 1)[k] == c);
                }
                assert forall|c: char| la1.contains(c)
                    implies la0.contains(c) || (c == g && !answer@.contains(c)) by {
                    let k = choose|k: int|
                        0 <= k < i + 1 && #[trigger] guess@.take(i + 1)[k] == c
                            && !answer@.contains(c);
                    if k < i {
                        assert(guess@.take(i as int)[k] == c);
                    }
                }
                assert forall|c: char| la0.contains(c) implies la1.contains(c) by {
                    let k = choose|k: int|
                        0 <= k < i && #[trigger] guess@.take(i as int)[k] == c
                            && !answer@.contains(c);
                    assert(guess@.take(i + 1)[k] == c);
                }
                assert(guess@.take(i + 1)[i as int] == g);
            }
            if g == a {
                self.add_hit(g, i);
                proof {
                    assert(answer@[i as int] == g);
                    assert(answer@.contains(g));
                    assert(lp1 =~= lp0.insert(g));
                    assert(la1 =~= la0);
                    assert(self.present_set() =~= old(self).present_set().union(lp1));
                }
            } else if str_contains_char(answer, g) {
                self.add_miss(g, i);
                proof {
                    assert(lp1 =~= lp0.insert(g));
                    assert(la1 =~= la0);
                    assert(self.present_set() =~= old(self).present_set().union(lp1));
                }
            } else {
                self.add_absent(g);
                proof {
                    assert(lp1 =~= lp0);
                    assert(la1 =~= la0.insert(g));
                    assert(self.absent_set() =~= old(self).absent_set().union(la1));
                }
            }
            i += 1;
        }
        proof {
            assert(guess@.take(n as int) =~= guess@);
        }
    }

    /// Fold one previously tried word into the accumulator, given the
    /// known-present characters `present_chs`: a tried letter among them
    /// lands in `misses` for its position unless the pattern already
    /// confirms it there, and any other tried letter is recorded absent.
    fn absorb_try(&mut self, w: &str, present_chs: &str, Ghost(p): Ghost<Seq<char>>)
        requires
            old(self).wf(),
            w@.len() <= old(self).word_len(),
            p.len() == old(self).word_len(),
            forall|i: int|
                0 <= i < old(self).word_len()
                    ==> old(self).hint_at(i) == hint_of_pattern(p, i),
        ensures
            final(self).wf(),
            final(self).word_len() == old(self).word_len(),
            forall|i: int|
                0 <= i < old(self).word_len()
                    ==> final(self).hint_at(i) == old(self).hint_at(i),
            final(self).present_set() == old(self).present_set().union(
                word_present(p, present_chs@, w@),
            ),
            final(self).absent_set() == old(self).absent_set().union(
                word_absent(present_chs@, w@),
            ),
            forall|i: int|
                0 <= i < old(self).word_len()
                    ==> final(self).missed_at(i) == if word_miss_cond(p, present_chs@, w@, i) {
                        old(self).missed_at(i).insert(w@[i])
                    } else {
                        old(self).missed_at(i)
                    },
    {
        let ghost pc = present_chs@;
        let n = w.unicode_len();
        let mut i: usize = 0;
        while i < n
            invariant
                self.wf(),
                n == w@.len(),
                n <= old(self).word_len(),
                self.word_len() == old(self).word_len(),
                p.len() == old(self).word_len(),
                pc == present_chs@,
                i <= n,
                forall|k: int|
                    0 <= k < old(self).word_len()
                        ==> self.hint_at(k) == old(self).hint_at(k),
                forall|k: int|
                    0 <= k < old(self).word_len()
                        ==> old(self).hint_at(k) == hint_of_pattern(p, k),
                self.present_set() == old(self).present_set().union(
                    word_present(p, pc, w@.take(i as int)),
                ),
                self.absent_set() == old(self).absent_set().union(
                    word_absent(pc, w@.take(i as int)),
                ),
                forall|k: int|
                    0 <= k < old(self).word_len()
                        ==> self.missed_at(k) == if k < i && word_miss_cond(p, pc, w@, k) {
                            old(self).missed_at(k).insert(w@[k])
                        } else {
                            old(self).missed_at(k)
                        },
            decreases n - i,
        {
            let ch = w.get_char(i);
            let ghost wp0 = word_present(p, pc, w@.take(i as int));
            let ghost wa0 = word_absent(pc, w@.take(i as int));
            let ghost wp1 = word_present(p, pc, w@.take(i + 1));
            let ghost wa1 = word_absent(pc, w@.take(i + 1));
            proof {
                assert(w@.take(i + 1)[i as int] == ch);
                assert forall|c: char| wp1.contains(c)
                    implies wp0.contains(c)
                        || (c == ch && word_miss_cond(p, pc, w@, i as int)) by {
                    let k = choose|k: int|
                        #[trigger] w@.take(i + 1)[k] == c
                            && word_miss_cond(p, pc, w@.take(i + 1), k);
                    if k < i {
                        assert(w@.take(i as int)[k] == c);
                        assert(word_miss_cond(p, pc, w@.take(i as int), k));
                    } else {
                        assert(word_miss_cond(p, pc, w@, i as int));
                    }
                }
                assert forall|c: char| wp0.contains(c) implies wp1.contains(c) by {
                    let k = choose|k: int|
                        #[trigger] w@.take(i as int)[k] == c
                            && word_miss_cond(p, pc, w@.take(i as int), k);
                    assert(w@.take(i + 1)[k] == c);
                    assert(word_miss_cond(p, pc, w@.take(i + 1), k));
                }
                assert forall|c: char| wa1.contains(c)
                    implies wa0.contains(c) || (c == ch && !pc.contains(ch)) by {
                    let k = choose|k: int|
                        0 <= k < i + 1 && #[trigger] w@.take(i + 1)[k] == c && !pc.contains(c);
                    if k < i {
                        assert(w@.take(i as int)[k] == c);
                    }
                }
                assert forall|c: char| wa0.contains(c) implies wa1.contains(c) by {
                    let k = choose|k: int|
                        0 <= k < i && #[trigger] w@.take(i as int)[k] == c && !pc.contains(c);
                    assert(w@.take(i + 1)[k] == c);
                }
            }
            if str_contains_char(present_chs, ch) {
                let hit = self.pattern[i];
                let record = match hit {
                    None => true,
                    Some(h) => h != ch,
                };
                if record {
                    proof {
                        assert(hint_of_pattern(p, i as int) != Some(ch));
                        assert(word_miss_cond(p, pc, w@, i as int));
                    }
                    self.add_miss(ch, i);
                    proof {
                        assert(wp1 =~= wp0.insert(ch));
                        assert(wa1 =~= wa0);
                        assert(self.present_set() =~= old(self).present_set().union(wp1));
                    }
                } else {
                    proof {
                        assert(self.hint_at(i as int) == Some(ch));
                        assert(!word_miss_cond(p, pc, w@, i as int));
                        assert forall|c: char| wp1.contains(c) implies wp0.contains(c) by {}
                        assert(wp1 =~= wp0);
                        assert(wa1 =~= wa0);
                        // A letter confirmed at this very position is already
                        // recorded present, so nothing changes.
                    }
                }
            } else {
                self.add_absent(ch);
                proof {
                    assert(!word_miss_cond(p, pc, w@, i as int));
                    assert(wp1 =~= wp0);
                    assert(wa1 =~= wa0.insert(ch));
                    assert(self.absent_set() =~= old(self).absent_set().union(wa1));
                }
            }
            i += 1;
        }
        proof {
            assert(w@.take(n as int) =~= w@);
        }
    }

    /// Reconstruct knowledge from a human-authored pattern string
    /// (letters confirmed by position, '.' for unknown), the characters
    /// known to be present somewhere, and the words already tried.
    pub fn from_tries(pattern: &str, present_chs: &str, tries: &[&str]) -> (k: Knowledge)
        requires
            forall|j: int| 0 <= j < tries@.len() ==> (#[trigger] tries@[j])@.len() <= pattern@.len(),
        ensures
            k.wf(),
            k.word_len() == pattern@.len(),
            forall|i: int|
                0 <= i < pattern@.len() ==> k.hint_at(i) == hint_of_pattern(pattern@, i),
            k.present_set() == pattern_hits(pattern@).union(
                tries_present(pattern@, present_chs@, tries@),
            ),
            k.absent_set() == tries_absent(present_chs@, tries@),
            forall|i: int|
                0 <= i < pattern@.len()
                    ==> k.missed_at(i) == tries_miss_at(pattern@, present_chs@, tries@, i),
    {
        let ghost p = pattern@;
        let ghost pc = present_chs@;
        let length = pattern.unicode_len();
        let mut ret = Knowledge::new(length);

        // Confirmed positions from the pattern string.
        let mut i: usize = 0;
        while i < length
            invariant
                ret.wf(),
                length == p.len(),
                p == pattern@,
                ret.word_len() == length,
                i <= length,
                forall|j: int|
                    0 <= j < length
                        ==> ret.hint_at(j) == if j < i {
                            hint_of_pattern(p, j)
                        } else {
                            None::<char>
                        },
                ret.present_set() == pattern_hits(p.take(i as int)),
                ret.absent_set() == Set::<char>::empty(),
                forall|j: int| 0 <= j < length ==> ret.missed_at(j) == Set::<char>::empty(),
            decreases length - i,
        {
            let ch = pattern.get_char(i);
            let ghost ph0 = pattern_hits(p.take(i as int));
            let ghost ph1 = pattern_hits(p.take(i + 1));
            proof {
                assert(p.take(i + 1)[i as int] == ch);
                assert forall|c: char| ph1.contains(c)
                    implies ph0.contains(c) || (c == ch && c != '.') by {
                    let k = choose|k: int|
                        0 <= k < i + 1 && #[trigger] p.take(i + 1)[k] == c;
                    if k < i {
                        assert(p.take(i as int)[k] == c);
                    }
                }
                assert forall|c: char| ph0.contains(c) implies ph1.contains(c) by {
                    let k = choose|k: int| 0 <= k < i && #[trigger] p.take(i as int)[k] == c;
                    assert(p.take(i + 1)[k] == c);
                }
            }
            if ch != '.' {
                ret.add_hit(ch, i);
                proof {
                    assert(ph1 =~= ph0.insert(ch));
                    assert(ret.present_set() =~= pattern_hits(p.take(i + 1)));
                }
            } else {
                proof {
                    assert(ph1 =~= ph0);
                }
            }
            i += 1;
        }
        proof {
            assert(p.take(length as int) =~= p);
        }

        // What each earlier try teaches, given the known-present letters.
        let m = tries.len();
        let mut t: usize = 0;
        while t < m
            invariant
                ret.wf(),
                length == p.len(),
                p == pattern@,
                pc == present_chs@,
                m == tries@.len(),
                ret.word_len() == length,
                t <= m,
                forall|j: int|
                    0 <= j < tries@.len() ==> (#[trigger] tries@[j])@.len() <= p.len(),
                forall|j: int| 0 <= j < length ==> ret.hint_at(j) == hint_of_pattern(p, j),
                ret.present_set() == pattern_hits(p).union(
                    tries_present(p, pc, tries@.take(t as int)),
                ),
                ret.absent_set() == tries_absent(pc, tries@.take(t as int)),
                forall|j: int|
                    0 <= j < length
                        ==> ret.missed_at(j) == tries_miss_at(p, pc, tries@.take(t as int), j),
            decreases m - t,
        {
            let w = tries[t];
            let ghost tp0 = tries_present(p, pc, tries@.take(t as int));
            let ghost ta0 = tries_absent(pc, tries@.take(t as int));
            let ghost tp1 = tries_present(p, pc, tries@.take(t + 1));
            let ghost ta1 = tries_absent(pc, tries@.take(t + 1));
            proof {
                assert(tries@.take(t + 1)[t as int] == w);
                assert forall|c: char| tp1.contains(c)
                    implies tp0.contains(c) || word_present(p, pc, w@).contains(c) by {
                    let k = choose|k: int|
                        0 <= k < t + 1 && word_present(
                            p,
                            pc,
                            (#[trigger] tries@.take(t + 1)[k])@,
                        ).contains(c);
                    if k < t {
                        assert(tries@.take(t as int)[k] == tries@.take(t + 1)[k]);
                    }
                }
                assert forall|c: char| tp0.contains(c) implies tp1.contains(c) by {
                    let k = choose|k: int|
                        0 <= k < t && word_present(
                            p,
                            pc,
                            (#[trigger] tries@.take(t as int)[k])@,
                        ).contains(c);
                    assert(tries@.take(t + 1)[k] == tries@.take(t as int)[k]);
                }
                assert forall|c: char| word_present(p, pc, w@).contains(c)
                    implies tp1.contains(c) by {
                    assert(tries@.take(t + 1)[t as int] == w);
                }
                assert(tp1 =~= tp0.union(word_present(p, pc, w@)));
                assert forall|c: char| ta1.contains(c)
                    implies ta0.contains(c) || word_absent(pc, w@).contains(c) by {
                    let k = choose|k: int|
                        0 <= k < t + 1 && word_absent(
                            pc,
                            (#[trigger] tries@.take(t + 1)[k])@,
                        ).contains(c);
                    if k < t {
                        assert(tries@.take(t as int)[k] == tries@.take(t + 1)[k]);
                    }
                }
                assert forall|c: char| ta0.contains(c) implies ta1.contains(c) by {
                    let k = choose|k: int|
                        0 <= k < t && word_absent(
                            pc,
                            (#[trigger] tries@.take(t as int)[k])@,
                        ).contains(c);
                    assert(tries@.take(t + 1)[k] == tries@.take(t as int)[k]);
                }
                assert forall|c: char| word_absent(pc, w@).contains(c)
                    implies ta1.contains(c) by {
                    assert(tries@.take(t + 1)[t as int] == w);
                }
                assert(ta1 =~= ta0.union(word_absent(pc, w@)));
            }
            let ghost before = ret;
            ret.absorb_try(w, present_chs, Ghost(p));
            proof {
                assert(ret.present_set() =~= pattern_hits(p).union(tp1));
                assert(ret.absent_set() =~= ta1);
                assert forall|j: int| 0 <= j < length
                    implies ret.missed_at(j) == tries_miss_at(p, pc, tries@.take(t + 1), j) by {
                    let m0 = tries_miss_at(p, pc, tries@.take(t as int), j);
                    let m1 = tries_miss_at(p, pc, tries@.take(t + 1), j);
                    assert forall|c: char| m1.contains(c)
                        implies m0.contains(c)
                            || (word_miss_cond(p, pc, w@, j) && c == w@[j]) by {
                        let k = choose|k: int|
                            0 <= k < t + 1 && (#[trigger] tries@.take(t + 1)[k])@[j] == c
                                && word_miss_cond(p, pc, tries@.take(t + 1)[k]@, j);
                        if k < t {
                            assert(tries@.take(t as int)[k] == tries@.take(t + 1)[k]);
                        }
                    }
                    assert forall|c: char| m0.contains(c) implies m1.contains(c) by {
                        let k = choose|k: int|
                            0 <= k < t && (#[trigger] tries@.take(t as int)[k])@[j] == c
                                && word_miss_cond(p, pc, tries@.take(t as int)[k]@, j);
                        assert(tries@.take(t + 1)[k] == tries@.take(t as int)[k]);
                    }
                    if word_miss_cond(p, pc, w@, j) {
                        assert(tries@.take(t + 1)[t as int] == w);
                        assert(m1.contains(w@[j]));
                        assert(m1 =~= m0.insert(w@[j]));
                    } else {
                        assert(m1 =~= m0);
                    }
                }
            }
            t += 1;
        }
        proof {
            assert(tries@.take(m as int) =~= tries@);
        }
        ret
    }
}

/// How one call of `learn` relates the accumulator before (`k1`) and
/// after (`k2`) folding the feedback of `g` against the answer `a`:
/// positions where the guess was right become confirmed, the guessed
/// letters the answer contains join the present set, the rest join the
/// absent set, and each wrongly placed contained letter is excluded from
/// its position.
pub open spec fn learn_rel(k1: Knowledge, k2: Knowledge, g: Seq<char>, a: Seq<char>) -> bool {
    &&& k1.word_len() == g.len()
    &&& k1.word_len() == a.len()
    &&& k2.wf()
    &&& k2.word_len() == k1.word_len()
    &&& forall|i: int|
        0 <= i < k1.word_len()
            ==> k2.hint_at(i) == if g[i] == a[i] {
                Some(g[i])
            } else {
                k1.hint_at(i)
            }
    &&& k2.present_set() == k1.present_set().union(learned_present(g, a))
    &&& k2.absent_set() == k1.absent_set().union(learned_absent(g, a))
    &&& forall|i: int|
        0 <= i < k1.word_len()
            ==> k2.missed_at(i) == if g[i] != a[i] && a.contains(g[i]) {
                k1.missed_at(i).insert(g[i])
            } else {
                k1.missed_at(i)
            }
}

/// Knowledge in its initial state constrains nothing: every word of the
/// configured length is accepted.
pub proof fn lemma_empty_accepts(k: Knowledge, w: Seq<char>)
    requires
        w.len() == k.word_len(),
        forall|i: int| 0 <= i < k.word_len() ==> k.hint_at(i) is None,
        k.present_set() == Set::<char>::empty(),
        k.absent_set() == Set::<char>::empty(),
    ensures
        k.check_word_spec(w),
{
    assert forall|i: int| 0 <= i < w.len() implies k.fits_spec(w[i], i) by {
        assert(k.hint_at(i) is None);
    }
}

/// Learning the feedback of any guess against the true answer never
/// discards the answer itself: if `a` was a candidate before
/// `learn(g, a)`, it still is afterwards.
pub proof fn lemma_learn_keeps_answer(k1: Knowledge, k2: Knowledge, g: Seq<char>, a: Seq<char>)
    requires
        k1.wf(),
        learn_rel(k1, k2, g, a),
        k1.check_word_spec(a),
    ensures
        k2.check_word_spec(a),
{
    assert forall|i: int| 0 <= i < a.len() implies k2.fits_spec(a[i], i) by {
        let c = a[i];
        assert(k1.fits_spec(c, i));
        assert(a.contains(c));
        if g[i] == a[i] {
            assert(k2.hint_at(i) == Some(c));
        } else {
            assert(k2.hint_at(i) == k1.hint_at(i));
            match k1.hint_at(i) {
                Some(x) => {
                    assert(x == c);
                },
                None => {
                    if k2.present_set().contains(c) {
                        // Not newly excluded here: the exclusion added at
                        // this position, if any, is the wrong letter g[i].
                        if k1.present_set().contains(c) {
                            assert(!k1.missed_at(i).contains(c));
                        } else {
                            assert(!k1.missed_at(i).contains(c));
                        }
                        assert(!k2.missed_at(i).contains(c));
                    } else {
                        assert(!k1.present_set().contains(c));
                        assert(!k1.absent_set().contains(c));
                        assert(!learned_absent(g, a).contains(c));
                        assert(!k2.absent_set().contains(c));
                    }
                },
            }
        }
    }
    assert forall|c: char| k2.present_set().contains(c) implies a.to_set().contains(c) by {
        if k1.present_set().contains(c) {
            assert(a.to_set().contains(c));
        } else {
            assert(learned_present(g, a).contains(c));
            assert(a.contains(c));
        }
    }
}

/// Monotonicity of filtering: learning feedback for a guess against the
/// true answer only ever shrinks the candidate set, so any word accepted
/// afterwards was already accepted before. The hypothesis that the
/// answer itself is still a candidate rules out inconsistent prior
/// knowledge, which a learning step may legitimately revise in ways
/// that readmit words.
pub proof fn lemma_learn_monotone(
    k1: Knowledge,
    k2: Knowledge,
    g: Seq<char>,
    a: Seq<char>,
    w: Seq<char>,
)
    requires
        k1.wf(),
        learn_rel(k1, k2, g, a),
        k1.check_word_spec(a),
        k2.check_word_spec(w),
    ensures
        k1.check_word_spec(w),
{
    assert forall|i: int| 0 <= i < w.len() implies k1.fits_spec(w[i], i) by {
        let c = w[i];
        assert(k2.fits_spec(c, i));
        match k1.hint_at(i) {
            Some(x) => {
                // A confirmed position stays confirmed with the same
                // letter: the answer fits, so a hit there cannot differ.
                assert(k1.fits_spec(a[i], i));
                assert(x == a[i]);
                assert(k2.hint_at(i) == Some(x));
                assert(c == x);
            },
            None => {
                if g[i] == a[i] {
                    assert(k2.hint_at(i) == Some(a[i]));
                    assert(c == a[i]);
                    assert(k1.fits_spec(a[i], i));
                } else {
                    assert(k2.hint_at(i) == k1.hint_at(i));
                    if k1.present_set().contains(c) {
                        assert(k2.present_set().contains(c));
                        assert(!k2.missed_at(i).contains(c));
                        assert(!k1.missed_at(i).contains(c));
                    } else {
                        if k1.absent_set().contains(c) {
                            // Then c is not newly present either, and the
                            // accepted word could not contain it.
                            assert(k2.absent_set().contains(c));
                            assert(k2.present_set().contains(c));
                            assert(learned_present(g, a).contains(c));
                            assert(a.contains(c));
                            let m = choose|m: int| 0 <= m < a.len() && a[m] == c;
                            assert(k1.fits_spec(a[m], m));
                            match k1.hint_at(m) {
                                Some(y) => {
                                    assert(y == c);
                                    assert(k1.present_set().contains(c));
                                },
                                None => {
                                    assert(!k1.absent_set().contains(c));
                                },
                            }
                            assert(false);
                        }
                    }
                }
            },
        }
    }
    assert forall|c: char| k1.present_set().contains(c) implies w.to_set().contains(c) by {
        assert(k2.present_set().contains(c));
    }
}

/// Learning the same feedback twice changes nothing: a second
/// `learn(g, a)` leaves the present and absent sets, and the whole
/// candidate test, exactly as after the first.
pub proof fn lemma_learn_idempotent(
    k1: Knowledge,
    k2: Knowledge,
    k3: Knowledge,
    g: Seq<char>,
    a: Seq<char>,
)
    requires
        k1.wf(),
        learn_rel(k1, k2, g, a),
        learn_rel(k2, k3, g, a),
    ensures
        k3.present_set() == k2.present_set(),
        k3.absent_set() == k2.absent_set(),
        forall|w: Seq<char>|
            #![trigger k3.check_word_spec(w)]
            #![trigger k2.check_word_spec(w)]
            k3.check_word_spec(w) <==> k2.check_word_spec(w),
{
    assert(k3.present_set() =~= k2.present_set());
    assert(k3.absent_set() =~= k2.absent_set());
    assert forall|i: int| 0 <= i < k2.word_len()
        implies k3.hint_at(i) == k2.hint_at(i) by {}
    assert forall|i: int| 0 <= i < k2.word_len()
        implies k3.missed_at(i) == k2.missed_at(i) by {
        if g[i] != a[i] && a.contains(g[i]) {
            assert(k2.missed_at(i).contains(g[i]));
            assert(k3.missed_at(i) =~= k2.missed_at(i));
        }
    }
    assert forall|w: Seq<char>|
        #![trigger k3.check_word_spec(w)]
        #![trigger k2.check_word_spec(w)]
        k3.check_word_spec(w) <==> k2.check_word_spec(w) by {
        assert forall|i: int| 0 <= i < w.len() && i < k2.word_len()
            implies k3.fits_spec(w[i], i) == k2.fits_spec(w[i], i) by {
            assert(k3.hint_at(i) == k2.hint_at(i));
            assert(k3.missed_at(i) == k2.missed_at(i));
        }
    }
}

/// Folding feedback agrees with the per-position classifier: what
/// `learn(g, a)` does at position `i` is exactly what the outcome of
/// `g` against `a` there dictates. A hit confirms the letter, a
/// missed-but-contained letter is recorded present and excluded from
/// that position, and a letter the answer lacks is recorded absent.
pub proof fn lemma_learn_follows_classifier(
    k1: Knowledge,
    k2: Knowledge,
    g: Seq<char>,
    a: Seq<char>,
)
    requires
        learn_rel(k1, k2, g, a),
    ensures
        forall|i: int|
            0 <= i < k1.word_len() ==> match #[trigger] outcome_at(g, a, i) {
                LetterOutcome::Hit => k2.hint_at(i) == Some(g[i])
                    && k2.present_set().contains(g[i]),
                LetterOutcome::Miss => k2.missed_at(i) == k1.missed_at(i).insert(g[i])
                    && k2.present_set().contains(g[i]) && k2.hint_at(i) == k1.hint_at(i),
                LetterOutcome::Absent => k2.absent_set().contains(g[i]) && k2.hint_at(i)
                    == k1.hint_at(i) && k2.missed_at(i) == k1.missed_at(i),
            },
{
    assert forall|i: int| 0 <= i < k1.word_len()
        implies match #[trigger] outcome_at(g, a, i) {
            LetterOutcome::Hit => k2.hint_at(i) == Some(g[i])
                && k2.present_set().contains(g[i]),
            LetterOutcome::Miss => k2.missed_at(i) == k1.missed_at(i).insert(g[i])
                && k2.present_set().contains(g[i]) && k2.hint_at(i) == k1.hint_at(i),
            LetterOutcome::Absent => k2.absent_set().contains(g[i]) && k2.hint_at(i)
                == k1.hint_at(i) && k2.missed_at(i) == k1.missed_at(i),
        } by {
        if g[i] == a[i] {
            assert(a.contains(g[i]));
            assert(learned_present(g, a).contains(g[i]));
        } else if a.contains(g[i]) {
            assert(learned_present(g, a).contains(g[i]));
        } else {
            assert(learned_absent(g, a).contains(g[i]));
        }
    }
}

/// A word always remains a candidate of the knowledge built from its own
/// feedback: learning `a` against `a` on empty knowledge confirms every
/// position, and `a` passes the resulting test.
pub proof fn lemma_answer_self_consistent(k0: Knowledge, k1: Knowledge, a: Seq<char>)
    requires
        k0.wf(),
        a.len() == k0.word_len(),
        forall|i: int| 0 <= i < k0.word_len() ==> k0.hint_at(i) is None,
        k0.present_set() == Set::<char>::empty(),
        k0.absent_set() == Set::<char>::empty(),
        learn_rel(k0, k1, a, a),
    ensures
        k1.check_word_spec(a),
{
    lemma_empty_accepts(k0, a);
    lemma_learn_keeps_answer(k0, k1, a, a);
}

} // verus!

