//! Guess-selection strategies: greedy letter-coverage with a Hamming
//! tie-break, and the decision core of the entropy-maximizing strategy.

use vstd::prelude::*;
use crate::freq::char_freq;
use crate::freq::best_index;
use crate::freq::coverage_score;
use crate::freq::lemma_score_from_counts;
use crate::freq::word_score;
use crate::freq::word_score_spec;
use crate::knowledge::Knowledge;
use crate::text::char_is_lowercase;
use crate::text::str_eq;
use crate::text::total_chars;

verus! {

/// The words of `ws` still consistent with knowledge `k`, in order.
pub open spec fn candidates_of(ws: Seq<&str>, k: Knowledge) -> Seq<&str> {
    ws.filter(|w: &str| k.check_word_spec(w@))
}

/// The letters knowledge `k` already accounts for.
pub open spec fn covered_of(k: Knowledge) -> Set<char> {
    k.present_set().union(k.absent_set())
}

/// Number of positions at which two equal-length words differ.
pub open spec fn hamming_spec(a: Seq<char>, b: Seq<char>) -> nat
    decreases a.len(),
{
    if a.len() == 0 {
        0
    } else {
        hamming_spec(a.drop_last(), b.drop_last()) + if a.last() != b.last() {
            1nat
        } else {
            0nat
        }
    }
}

/// Relies on strsim::hamming: for words of equal character count it
/// returns the number of positions whose characters differ.
#[verifier::external_body]
fn hamming_dist(a: &str, b: &str) -> (r: usize)
    requires
        a@.len() == b@.len(),
    ensures
        r == hamming_spec(a@, b@),
{
    strsim::hamming(a, b).unwrap_or(0)
}

/// The smallest Hamming distance from `w` to any of the candidates.
pub open spec fn min_hamming_spec(w: Seq<char>, cands: Seq<&str>) -> nat
    decreases cands.len(),
{
    if cands.len() <= 1 {
        hamming_spec(w, cands[0]@)
    } else {
        let rest = min_hamming_spec(w, cands.drop_last());
        let h = hamming_spec(w, cands.last()@);
        if h < rest {
            h
        } else {
            rest
        }
    }
}

/// The smallest Hamming distance from `w` to any word of `cands`.
fn min_hamming(w: &str, cands: &Vec<&str>) -> (r: usize)
    requires
        cands@.len() > 0,
        forall|i: int| 0 <= i < cands@.len() ==> (#[trigger] cands@[i])@.len() == w@.len(),
    ensures
        r == min_hamming_spec(w@, cands@),
{
    let mut r = hamming_dist(w, cands[0]);
    let mut i: usize = 1;
    proof {
        assert(cands@.take(1).len() == 1);
        assert(cands@.take(1)[0] == cands@[0]);
    }
    while i < cands.len()
        invariant
            1 <= i <= cands@.len(),
            forall|k: int| 0 <= k < cands@.len() ==> (#[trigger] cands@[k])@.len() == w@.len(),
            r == min_hamming_spec(w@, cands@.take(i as int)),
        decreases cands@.len() - i,
    {
        let h = hamming_dist(w, cands[i]);
        proof {
            let t1 = cands@.take(i + 1);
            assert(t1.drop_last() =~= cands@.take(i as int));
            assert(t1.last() == cands@[i as int]);
            assert(t1.len() > 1);
        }
        if h < r {
            r = h;
        }
        i += 1;
    }
    proof {
        assert(cands@.take(cands@.len() as int) =~= cands@);
    }
    r
}

/// Every word of the filtered list stands somewhere in the original.
proof fn lemma_filter_members(ws: Seq<&str>, pred: spec_fn(&str) -> bool)
    ensures
        forall|j: int|
            0 <= j < ws.filter(pred).len() ==> exists|k: int|
                0 <= k < ws.len() && #[trigger] ws.filter(pred)[j] == ws[k],
    decreases ws.len(),
{
    reveal(Seq::filter);
    if ws.len() > 0 {
        lemma_filter_members(ws.drop_last(), pred);
        let out = ws.filter(pred);
        let sub = ws.drop_last().filter(pred);
        assert forall|j: int| 0 <= j < out.len()
            implies exists|k: int| 0 <= k < ws.len() && #[trigger] out[j] == ws[k] by {
            if j < sub.len() {
                let k = choose|k: int| 0 <= k < ws.drop_last().len() && sub[j] == ws.drop_last()[k];
                assert(out[j] == ws[k]);
            } else {
                assert(out[j] == ws[ws.len() - 1]);
            }
        }
    }
}

/// A filtered list holds no more characters than the original.
proof fn lemma_total_chars_filter(ws: Seq<&str>, pred: spec_fn(&str) -> bool)
    ensures
        total_chars(ws.filter(pred)) <= total_chars(ws),
    decreases ws.len(),
{
    reveal(Seq::filter);
    if ws.len() > 0 {
        lemma_total_chars_filter(ws.drop_last(), pred);
        let sub = ws.drop_last().filter(pred);
        if pred(ws.last()) {
            assert(sub.push(ws.last()).drop_last() =~= sub);
        }
    }
}

/// A strategy that proposes the next guess from a fixed word list.
pub trait GuessStrategy<'a> {
    /// The word list the strategy draws guesses from.
    spec fn word_list(&self) -> Seq<&'a str>;

    /// Propose the next guess. The word list must be non-empty, its
    /// words must have the session's word length, at least one word
    /// must still be a possible answer, and the list must be of
    /// machine-representable total size. The guess is always a word of
    /// the list.
    fn next_guess(&self, knowledge: &Knowledge) -> (r: &'a str)
        requires
            knowledge.wf(),
            self.word_list().len() > 0,
            forall|i: int|
                0 <= i < self.word_list().len() ==> (#[trigger] self.word_list()[i])@.len()
                    == knowledge.word_len(),
            exists|i: int|
                0 <= i < self.word_list().len() && knowledge.check_word_spec(
                    (#[trigger] self.word_list()[i])@,
                ),
            total_chars(self.word_list()) <= usize::MAX,
        ensures
            exists|i: int|
                0 <= i < self.word_list().len() && r@ == (#[trigger] self.word_list()[i])@,
    ;
}

/// The greedy letter-coverage strategy: score every word of the list by
/// the letter frequencies of the remaining candidates, and break ties
/// by closeness to the candidate set.
pub struct FreqStrategy<'a> {
    words: &'a [&'a str],
}

impl<'a> FreqStrategy<'a> {
    /// A coverage strategy drawing guesses from `words`.
    pub fn new(words: &'a [&'a str]) -> (s: FreqStrategy<'a>)
        ensures
            s.word_list() == words@,
    {
        FreqStrategy { words }
    }
}

impl<'a> GuessStrategy<'a> for FreqStrategy<'a> {
    closed spec fn word_list(&self) -> Seq<&'a str> {
        self.words@
    }

    /// With fewer than three candidates left the first candidate is the
    /// guess. Otherwise every word of the full list is scored by the
    /// letter frequencies of the candidate set, omitting letters the
    /// knowledge already covers; among the words tied for the top score
    /// the guess is the first with the smallest Hamming distance to any
    /// candidate.
    fn next_guess(&self, knowledge: &Knowledge) -> (r: &'a str)
        ensures
            ({
                let ws = self.word_list();
                let cands = candidates_of(ws, *knowledge);
                let cov = covered_of(*knowledge);
                &&& cands.len() < 3 ==> r@ == cands[0]@
                &&& cands.len() >= 3 ==> {
                    &&& forall|j: int|
                        0 <= j < ws.len() ==> coverage_score((#[trigger] ws[j])@, cands, cov)
                            <= coverage_score(r@, cands, cov)
                    &&& forall|j: int|
                        0 <= j < ws.len() && coverage_score((#[trigger] ws[j])@, cands, cov)
                            == coverage_score(r@, cands, cov) ==> min_hamming_spec(r@, cands)
                            <= min_hamming_spec(ws[j]@, cands)
                    &&& exists|bi: int|
                        {
                            &&& 0 <= bi < ws.len()
                            &&& r@ == (#[trigger] ws[bi])@
                            &&& forall|j: int|
                                0 <= j < bi ==> !(coverage_score(
                                    (#[trigger] ws[j])@,
                                    cands,
                                    cov,
                                ) == coverage_score(r@, cands, cov) && min_hamming_spec(
                                    ws[j]@,
                                    cands,
                                ) == min_hamming_spec(r@, cands))
                        }
                }
            }),
    {
        let ghost ws = self.words@;
        let ghost pred = |w: &str| knowledge.check_word_spec(w@);
        let candidates = knowledge.filter(self.words);
        proof {
            assert(self.word_list() == ws);
            let i = choose|i: int|
                0 <= i < self.word_list().len() && knowledge.check_word_spec(
                    (#[trigger] self.word_list()[i])@,
                );
            assert(pred(ws[i]));
            ws.lemma_filter_contains(pred, i);
            assert(candidates@.contains(ws[i]));
            assert(candidates@.len() > 0);
        }
        if candidates.len() < 3 {
            proof {
                lemma_filter_members(ws, pred);
                let k = choose|k: int| 0 <= k < ws.len() && candidates@[0] == ws[k];
                assert(candidates@[0]@ == (#[trigger] self.word_list()[k])@);
            }
            return candidates[0];
        }

        proof {
            lemma_total_chars_filter(ws, pred);
        }
        let freq = char_freq(candidates.as_slice());
        let covered = knowledge.get_covered();
        let ghost cands = candidates@;
        let ghost cov = covered@;
        proof {
            assert forall|w: Seq<char>, c: Set<char>|
                #[trigger] word_score_spec(w, freq, c) == coverage_score(w, cands, c) by {
                lemma_score_from_counts(w, freq, cands, c);
            }
            assert forall|k: int| 0 <= k < cands.len()
                implies (#[trigger] cands[k])@.len() == knowledge.word_len() by {
                ws.lemma_filter_pred(pred, k);
                assert(pred(cands[k]));
            }
        }

        // The top score over the whole list.
        let ti = best_index(self.words, &freq, &covered);
        let top = word_score(self.words[ti], &freq, &covered);

        // The first word with that score and the least Hamming distance
        // to any candidate.
        let n = self.words.len();
        let mut best_j: usize = 0;
        let mut best_h: usize = 0;
        let mut found = false;
        let mut j: usize = 0;
        while j < n
            invariant
                knowledge.wf(),
                freq.wf(),
                covered.wf(),
                n == ws.len(),
                ws == self.words@,
                cands == candidates@,
                cands == candidates_of(ws, *knowledge),
                cov == covered@,
                cov == covered_of(*knowledge),
                cands.len() >= 3,
                forall|i: int|
                    0 <= i < ws.len() ==> (#[trigger] ws[i])@.len() == knowledge.word_len(),
                forall|k: int| 0 <= k < cands.len() ==> (#[trigger] cands[k])@.len()
                    == knowledge.word_len(),
                forall|w: Seq<char>, c: Set<char>|
                    #[trigger] word_score_spec(w, freq, c) == coverage_score(w, cands, c),
                j <= n,
                top == coverage_score(ws[ti as int]@, cands, cov),
                forall|k: int|
                    0 <= k < ws.len() ==> coverage_score((#[trigger] ws[k])@, cands, cov) <= top,
                !found ==> forall|k: int|
                    0 <= k < j ==> coverage_score((#[trigger] ws[k])@, cands, cov) != top,
                found ==> {
                    &&& best_j < j
                    &&& coverage_score(ws[best_j as int]@, cands, cov) == top
                    &&& best_h == min_hamming_spec(ws[best_j as int]@, cands)
                    &&& forall|k: int|
                        0 <= k < j && coverage_score((#[trigger] ws[k])@, cands, cov) == top
                            ==> best_h <= min_hamming_spec(ws[k]@, cands)
                    &&& forall|k: int|
                        0 <= k < best_j ==> !(coverage_score((#[trigger] ws[k])@, cands, cov)
                            == top && min_hamming_spec(ws[k]@, cands) == best_h)
                },
                ti < n,
            decreases n - j,
        {
            let s = word_score(self.words[j], &freq, &covered);
            if s == top {
                let h = min_hamming(self.words[j], &candidates);
                if !found {
                    best_j = j;
                    best_h = h;
                    found = true;
                } else if h < best_h {
                    best_j = j;
                    best_h = h;
                }
            }
            j += 1;
        }
        proof {
            if !found {
                assert(coverage_score(ws[ti as int]@, cands, cov) != top);
                assert(false);
            }
            assert(ws[best_j as int]@ == (#[trigger] self.word_list()[best_j as int])@);
        }
        self.words[best_j]
    }
}

/// The words usable as guesses for a session: entirely lowercase, of
/// the session's word length, and not among the disallowed words.
pub open spec fn keeps_word(s: Seq<char>, len: nat, disallowed: Seq<String>) -> bool {
    &&& forall|i: int| 0 <= i < s.len() ==> char_is_lowercase(#[trigger] s[i])
    &&& s.len() == len
    &&& forall|k: int| 0 <= k < disallowed.len() ==> (#[trigger] disallowed[k])@ != s
}

/// Filter a raw word list down to usable guesses: keep the words that
/// are entirely lowercase, have exactly `target_word_len` characters,
/// and are not disallowed, in their original order.
pub fn valid_words<'a>(
    target_word_len: usize,
    all_words: &'a [String],
    disallowed: &[String],
) -> (r: Vec<&'a str>)
    ensures
        r@.map_values(|w: &str| w@) == all_words@.map_values(|s: String| s@).filter(
            |cs: Seq<char>| keeps_word(cs, target_word_len as nat, disallowed@),
        ),
{
    let ghost pred = |cs: Seq<char>| keeps_word(cs, target_word_len as nat, disallowed@);
    let ghost views = all_words@.map_values(|s: String| s@);
    let n = all_words.len();
    let mut r: Vec<&'a str> = Vec::new();
    let mut i: usize = 0;
    proof {
        reveal(Seq::filter);
        assert(views.take(0) =~= Seq::<Seq<char>>::empty());
        assert(r@.map_values(|w: &str| w@) =~= views.take(0).filter(pred));
    }
    while i < n
        invariant
            n == all_words@.len(),
            views == all_words@.map_values(|s: String| s@),
            pred == (|cs: Seq<char>| keeps_word(cs, target_word_len as nat, disallowed@)),
            i <= n,
            r@.map_values(|w: &str| w@) == views.take(i as int).filter(pred),
        decreases n - i,
    {
        let w = &all_words[i];
        let ws = w.as_str();

        // All characters lowercase?
        let m = ws.unicode_len();
        let mut all_lower = true;
        let mut k: usize = 0;
        while k < m && all_lower
            invariant
                m == ws@.len(),
                k <= m,
                all_lower ==> forall|t: int| 0 <= t < k ==> char_is_lowercase(#[trigger] ws@[t]),
                !all_lower ==> exists|t: int|
                    0 <= t < m && !char_is_lowercase(#[trigger] ws@[t]),
            decreases m - k + if all_lower { 1int } else { 0int },
        {
            if !ws.get_char(k).is_lowercase() {
                all_lower = false;
            } else {
                k += 1;
            }
        }

        // Of the right length and not disallowed?
        let mut keep = all_lower && m == target_word_len;
        let d = disallowed.len();
        let mut t: usize = 0;
        while t < d && keep
            invariant
                d == disallowed@.len(),
                t <= d,
                m == ws@.len(),
                keep ==> all_lower && m == target_word_len && forall|q: int|
                    0 <= q < t ==> (#[trigger] disallowed@[q])@ != ws@,
                !keep ==> !(all_lower && m == target_word_len && forall|q: int|
                    0 <= q < d ==> (#[trigger] disallowed@[q])@ != ws@),
                all_lower ==> forall|q: int| 0 <= q < m ==> char_is_lowercase(#[trigger] ws@[q]),
                !all_lower ==> exists|q: int|
                    0 <= q < m && !char_is_lowercase(#[trigger] ws@[q]),
            decreases d - t + if keep { 1int } else { 0int },
        {
            if str_eq(disallowed[t].as_str(), ws) {
                proof {
                    assert((#[trigger] disallowed@[t as int])@ == ws@);
                }
                keep = false;
            } else {
                t += 1;
            }
        }

        proof {
            let t1 = views.take(i + 1);
            assert(t1.drop_last() =~= views.take(i as int));
            assert(t1.last() == views[i as int]);
            assert(views[i as int] == ws@);
            reveal(Seq::filter);
            if keep {
                assert(pred(ws@));
            } else {
                assert(!pred(ws@));
            }
        }
        if keep {
            r.push(ws);
            proof {
                assert(r@.map_values(|x: &str| x@) =~= r@.drop_last().map_values(
                    |x: &str| x@,
                ).push(ws@));
            }
        }
        i += 1;
    }
    proof {
        assert(views.take(n as int) =~= views);
    }
    r
}

/// What the entropy strategy decides to do next.
pub enum GuessPlan<'a> {
    /// So few candidates remain that searching is pointless: answer
    /// with this word, the first remaining candidate.
    Settled(&'a str),
    /// Nothing has been learned yet, so every word is still a
    /// candidate: play the precomputed opening guess,
    /// `EntropyStrategy::opening_guess`, instead of re-deriving it.
    OpeningBook,
    /// Score each word of the list by the entropy of its feedback
    /// distribution over these candidates and play a maximizer.
    Evaluate(Vec<&'a str>),
}

/// The strategy that proposes the guess whose feedback pattern carries
/// the most information about the remaining candidates. This type
/// prepares every discrete part of that decision; the floating-point
/// entropy of each candidate distribution is computed by the caller
/// from `pattern_distribution`, and a maximizer is picked with
/// `index_of_max`.
pub struct EntropyStrategy<'a> {
    words: &'a [&'a str],
}

impl<'a> EntropyStrategy<'a> {
    /// An entropy strategy drawing guesses from `words`.
    pub fn new(words: &'a [&'a str]) -> (s: EntropyStrategy<'a>)
        ensures
            s.word_list() == words@,
    {
        EntropyStrategy { words }
    }

    /// The word list the strategy draws guesses from.
    pub closed spec fn word_list(&self) -> Seq<&'a str> {
        self.words@
    }

    /// The precomputed opening guess that `GuessPlan::OpeningBook`
    /// stands for. With no information yet the entropy search over a
    /// full English five-letter list always returns this word, at a
    /// cost of minutes, so it is served from a book instead.
    pub fn opening_guess() -> (r: &'static str)
        ensures
            r@ == "raise"@,
    {
        "raise"
    }

    /// Decide how the next guess is to be found: with fewer than three
    /// candidates left, the first candidate settles it; with no
    /// information learned yet, the fixed opening guess applies; and
    /// otherwise the candidates are handed back for entropy scoring.
    pub fn plan_guess(&self, knowledge: &Knowledge) -> (r: GuessPlan<'a>)
        requires
            knowledge.wf(),
            exists|i: int|
                0 <= i < self.word_list().len() && knowledge.check_word_spec(
                    (#[trigger] self.word_list()[i])@,
                ),
        ensures
            ({
                let cands = candidates_of(self.word_list(), *knowledge);
                &&& cands.len() < 3 ==> (r matches GuessPlan::Settled(w) && w@ == cands[0]@)
                &&& cands.len() >= 3 && cands.len() == self.word_list().len()
                    ==> r is OpeningBook
                &&& 3 <= cands.len() < self.word_list().len() ==> (r matches
                    GuessPlan::Evaluate(cs) && cs@ == cands)
            }),
    {
        let ghost ws = self.words@;
        let ghost pred = |w: &str| knowledge.check_word_spec(w@);
        let candidates = knowledge.filter(self.words);
        proof {
            assert(self.word_list() == ws);
            let i = choose|i: int|
                0 <= i < self.word_list().len() && knowledge.check_word_spec(
                    (#[trigger] self.word_list()[i])@,
                );
            assert(pred(ws[i]));
            ws.lemma_filter_contains(pred, i);
            assert(candidates@.contains(ws[i]));
            assert(candidates@.len() > 0);
        }
        if candidates.len() < 3 {
            return GuessPlan::Settled(candidates[0]);
        }
        if candidates.len() == self.words.len() {
            return GuessPlan::OpeningBook;
        }
        GuessPlan::Evaluate(candidates)
    }
}

/// The index of the largest key, the last one where several are equally
/// large. Entropy values are compared through order-preserving integer
/// keys, so this resolves the entropy search's ties the way the
/// documentation of the strategy pins them.
pub fn index_of_max(keys: &Vec<u64>) -> (r: usize)
    requires
        keys@.len() > 0,
    ensures
        r < keys@.len(),
        forall|j: int| 0 <= j < keys@.len() ==> keys@[j] <= keys@[r as int],
        forall|j: int| r < j < keys@.len() ==> keys@[j] < keys@[r as int],
{
    let n = keys.len();
    let mut r: usize = 0;
    let mut j: usize = 1;
    while j < n
        invariant
            n == keys@.len(),
            r < j <= n || (r == 0 && j <= n),
            r < n,
            forall|k: int| 0 <= k < j ==> keys@[k] <= keys@[r as int],
            forall|k: int| r < k < j ==> keys@[k] < keys@[r as int],
        decreases n - j,
    {
        if keys[j] >= keys[r] {
            r = j;
        }
        j += 1;
    }
    r
}

} // verus!
