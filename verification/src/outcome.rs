//! Per-position feedback when a guess is compared against the true answer,
//! and the distribution of feedback patterns a guess induces over a
//! candidate set.

use vstd::prelude::*;
use crate::text::str_contains_char;

verus! {

/// A letter's worth of feedback when a guess is compared with the answer.
#[derive(Debug, Copy, Clone, PartialEq, Eq, Structural)]
pub enum LetterOutcome {
    /// The guessed letter occupies this very position in the answer.
    Hit,
    /// The guessed letter occurs in the answer, but not at this position.
    /// A letter is classified this way whenever it occurs anywhere in the
    /// answer, with no cap on repeats: a guess that repeats a letter more
    /// often than the answer holds it still has every copy marked this
    /// way. That naive rule is deliberate and is relied on throughout.
    Miss,
    /// The guessed letter occurs nowhere in the answer.
    Absent,
}

/// The feedback for position `i` of `guess` against `answer`.
pub open spec fn outcome_at(guess: Seq<char>, answer: Seq<char>, i: int) -> LetterOutcome {
    if guess[i] == answer[i] {
        LetterOutcome::Hit
    } else if answer.contains(guess[i]) {
        LetterOutcome::Miss
    } else {
        LetterOutcome::Absent
    }
}

/// The full feedback pattern of `guess` against `answer`, position by position.
pub open spec fn pattern_spec(guess: Seq<char>, answer: Seq<char>) -> Seq<LetterOutcome> {
    Seq::new(guess.len(), |i: int| outcome_at(guess, answer, i))
}

impl LetterOutcome {
    /// The feedback pattern of `guess` against `target`, one outcome per
    /// position.
    pub fn pattern(guess: &str, target: &str) -> (r: Vec<LetterOutcome>)
        requires
            guess@.len() == target@.len(),
        ensures
            r@ == pattern_spec(guess@, target@),
    {
        let n = guess.unicode_len();
        let mut r: Vec<LetterOutcome> = Vec::new();
        let mut i: usize = 0;
        while i < n
            invariant
                n == guess@.len(),
                n == target@.len(),
                i <= n,
                r@.len() == i,
                forall|j: int| 0 <= j < i ==> r@[j] == outcome_at(guess@, target@, j),
            decreases n - i,
        {
            let g = guess.get_char(i);
            let t = target.get_char(i);
            if g == t {
                r.push(LetterOutcome::Hit);
            } else if str_contains_char(target, g) {
                r.push(LetterOutcome::Miss);
            } else {
                r.push(LetterOutcome::Absent);
            }
            i += 1;
        }
        proof {
            assert(r@ =~= pattern_spec(guess@, target@));
        }
        r
    }
}

/// The feedback pattern each candidate would produce for `guess`.
pub open spec fn induced_patterns(cands: Seq<&str>, guess: Seq<char>) -> Seq<Seq<LetterOutcome>> {
    cands.map_values(|c: &str| pattern_spec(guess, c@))
}

/// The distinct elements of `ps`, each at the position of its first
/// occurrence.
pub open spec fn first_occurrences(ps: Seq<Seq<LetterOutcome>>) -> Seq<Seq<LetterOutcome>>
    decreases ps.len(),
{
    if ps.len() == 0 {
        Seq::empty()
    } else {
        let prev = first_occurrences(ps.drop_last());
        if prev.contains(ps.last()) {
            prev
        } else {
            prev.push(ps.last())
        }
    }
}

/// How many times `p` occurs in `ps`.
pub open spec fn multiplicity(ps: Seq<Seq<LetterOutcome>>, p: Seq<LetterOutcome>) -> nat
    decreases ps.len(),
{
    if ps.len() == 0 {
        0
    } else {
        multiplicity(ps.drop_last(), p) + if ps.last() == p { 1nat } else { 0nat }
    }
}

/// A pattern that never occurs has multiplicity zero.
proof fn lemma_multiplicity_absent(ps: Seq<Seq<LetterOutcome>>, p: Seq<LetterOutcome>)
    requires
        !ps.contains(p),
    ensures
        multiplicity(ps, p) == 0,
    decreases ps.len(),
{
    if ps.len() > 0 {
        assert(forall|j: int| 0 <= j < ps.len() - 1 ==> ps.drop_last()[j] == ps[j]);
        assert(!ps.drop_last().contains(p));
        lemma_multiplicity_absent(ps.drop_last(), p);
        assert(ps[ps.len() - 1] != p);
    }
}

/// Elementwise equality of two feedback patterns.
pub fn patterns_equal(a: &Vec<LetterOutcome>, b: &Vec<LetterOutcome>) -> (r: bool)
    ensures
        r == (a@ == b@),
{
    if a.len() != b.len() {
        return false;
    }
    let n = a.len();
    let mut i: usize = 0;
    while i < n
        invariant
            n == a@.len(),
            n == b@.len(),
            i <= n,
            forall|j: int| 0 <= j < i ==> a@[j] == b@[j],
        decreases n - i,
    {
        if a[i] != b[i] {
            return false;
        }
        i += 1;
    }
    proof {
        assert(a@ =~= b@);
    }
    true
}

/// The distribution of feedback patterns `guess` induces over the
/// candidate set: each distinct pattern, in order of first occurrence,
/// paired with the number of candidates producing it. The probability
/// that the answer yields a given pattern is that count over the number
/// of candidates, which is what an entropy computation consumes.
pub fn pattern_distribution<'a>(
    candidates: &Vec<&'a str>,
    guess: &str,
) -> (r: Vec<(Vec<LetterOutcome>, usize)>)
    requires
        forall|i: int| 0 <= i < candidates@.len() ==> (#[trigger] candidates@[i])@.len()
            == guess@.len(),
    ensures
        ({
            let ps = induced_patterns(candidates@, guess@);
            let keys = first_occurrences(ps);
            &&& r@.len() == keys.len()
            &&& forall|j: int| 0 <= j < r@.len() ==> (#[trigger] r@[j]).0@ == keys[j]
            &&& forall|j: int| 0 <= j < r@.len() ==> (#[trigger] r@[j]).1
                == multiplicity(ps, keys[j])
            &&& forall|j: int| 0 <= j < r@.len() ==> 1 <= (#[trigger] r@[j]).1
                <= candidates@.len()
        }),
{
    let n = candidates.len();
    let mut dist: Vec<(Vec<LetterOutcome>, usize)> = Vec::new();
    let mut idx: usize = 0;
    while idx < n
        invariant
            n == candidates@.len(),
            idx <= n,
            forall|i: int| 0 <= i < candidates@.len() ==> (#[trigger] candidates@[i])@.len()
                == guess@.len(),
            ({
                let ps = induced_patterns(candidates@.take(idx as int), guess@);
                let keys = first_occurrences(ps);
                &&& dist@.len() == keys.len()
                &&& forall|j: int| 0 <= j < dist@.len() ==> (#[trigger] dist@[j]).0@ == keys[j]
                &&& forall|j: int| 0 <= j < dist@.len() ==> (#[trigger] dist@[j]).1
                    == multiplicity(ps, keys[j])
                &&& forall|j: int| 0 <= j < dist@.len() ==> 1 <= (#[trigger] dist@[j]).1 <= idx
                &&& forall|j: int, k: int|
                    0 <= j < dist@.len() && 0 <= k < dist@.len() && j != k
                        ==> (#[trigger] dist@[j]).0@ != (#[trigger] dist@[k]).0@
            }),
        decreases n - idx,
    {
        let ghost ps0 = induced_patterns(candidates@.take(idx as int), guess@);
        let ghost keys0 = first_occurrences(ps0);
        let p = LetterOutcome::pattern(guess, candidates[idx]);
        proof {
            let ps1 = induced_patterns(candidates@.take(idx + 1), guess@);
            assert(ps1.drop_last() =~= ps0);
            assert(ps1.last() == p@);
            assert(ps1 =~= ps0.push(p@));
        }
        let ghost ps1 = induced_patterns(candidates@.take(idx + 1), guess@);

        // Look for an existing entry with this pattern.
        let m = dist.len();
        let mut j: usize = 0;
        let mut found = false;
        while j < m && !found
            invariant
                m == dist@.len(),
                j <= m,
                !found ==> forall|k: int| 0 <= k < j ==> (#[trigger] dist@[k]).0@ != p@,
                found ==> j < m && dist@[j as int].0@ == p@,
            decreases m - j + if found { 0int } else { 1int },
        {
            if patterns_equal(&dist[j].0, &p) {
                found = true;
            } else {
                j += 1;
            }
        }

        if found {
            proof {
                assert(keys0.contains(p@)) by {
                    assert(keys0[j as int] == p@);
                }
                assert(first_occurrences(ps1) == keys0);
                // Every key other than p keeps its multiplicity; p's goes up
                // by one.
                assert(forall|q: Seq<LetterOutcome>|
                    multiplicity(ps1, q) == multiplicity(ps0, q)
                        + if q == p@ { 1nat } else { 0nat });
            }
            let c = dist[j].1;
            dist[j] = (LetterOutcome::pattern(guess, candidates[idx]), c + 1);
            proof {
                assert forall|k: int| 0 <= k < dist@.len()
                    implies (#[trigger] dist@[k]).1
                        == multiplicity(ps1, first_occurrences(ps1)[k]) by {
                    if k != j {
                        assert(dist@[k].0@ != p@);
                    }
                }
            }
        } else {
            proof {
                assert(!keys0.contains(p@)) by {
                    if keys0.contains(p@) {
                        let k = choose|k: int| 0 <= k < keys0.len() && keys0[k] == p@;
                        assert(dist@[k].0@ == p@);
                    }
                }
                assert(first_occurrences(ps1) == keys0.push(p@));
                assert(!ps0.contains(p@)) by {
                    if ps0.contains(p@) {
                        lemma_first_occurrences_complete(ps0, p@);
                    }
                }
                lemma_multiplicity_absent(ps0, p@);
                assert(forall|q: Seq<LetterOutcome>|
                    multiplicity(ps1, q) == multiplicity(ps0, q)
                        + if q == p@ { 1nat } else { 0nat });
            }
            dist.push((p, 1));
        }
        idx += 1;
    }
    proof {
        assert(candidates@.take(n as int) =~= candidates@);
    }
    dist
}

/// Every element of `ps` appears among its first occurrences.
proof fn lemma_first_occurrences_complete(ps: Seq<Seq<LetterOutcome>>, p: Seq<LetterOutcome>)
    requires
        ps.contains(p),
    ensures
        first_occurrences(ps).contains(p),
    decreases ps.len(),
{
    if ps.len() > 0 {
        let prev = first_occurrences(ps.drop_last());
        if ps.last() == p {
            if !prev.contains(p) {
                assert(first_occurrences(ps)[first_occurrences(ps).len() - 1] == p);
            }
        } else {
            let k = choose|k: int| 0 <= k < ps.len() && ps[k] == p;
            assert(ps.drop_last()[k] == p);
            assert(ps.drop_last().contains(p));
            lemma_first_occurrences_complete(ps.drop_last(), p);
            if !prev.contains(ps.last()) {
                let k2 = choose|k2: int| 0 <= k2 < prev.len() && prev[k2] == p;
                assert(first_occurrences(ps)[k2] == p);
            }
        }
    }
}

/// Sum of the multiplicities of the given patterns.
pub open spec fn total_multiplicity(
    keys: Seq<Seq<LetterOutcome>>,
    ps: Seq<Seq<LetterOutcome>>,
) -> nat
    decreases keys.len(),
{
    if keys.len() == 0 {
        0
    } else {
        total_multiplicity(keys.drop_last(), ps) + multiplicity(ps, keys.last())
    }
}

/// The first occurrences of a sequence hold no repeats.
proof fn lemma_first_occurrences_distinct(ps: Seq<Seq<LetterOutcome>>)
    ensures
        first_occurrences(ps).no_duplicates(),
    decreases ps.len(),
{
    if ps.len() > 0 {
        lemma_first_occurrences_distinct(ps.drop_last());
        let prev = first_occurrences(ps.drop_last());
        if !prev.contains(ps.last()) {
            let out = prev.push(ps.last());
            assert forall|i: int, j: int|
                0 <= i < out.len() && 0 <= j < out.len() && i != j
                implies out[i] != out[j] by {
                if i < prev.len() && j < prev.len() {
                    assert(prev[i] == out[i] && prev[j] == out[j]);
                } else if i < prev.len() {
                    assert(prev.contains(prev[i]));
                } else if j < prev.len() {
                    assert(prev.contains(prev[j]));
                }
            }
        }
    }
}

/// Appending one pattern to the population raises the summed
/// multiplicity of a duplicate-free key list by one when the pattern is
/// among the keys, else not at all.
proof fn lemma_total_multiplicity_push(
    keys: Seq<Seq<LetterOutcome>>,
    ps: Seq<Seq<LetterOutcome>>,
    p: Seq<LetterOutcome>,
)
    requires
        keys.no_duplicates(),
    ensures
        total_multiplicity(keys, ps.push(p)) == total_multiplicity(keys, ps) + if keys.contains(
            p,
        ) {
            1nat
        } else {
            0nat
        },
    decreases keys.len(),
{
    if keys.len() > 0 {
        assert(forall|j: int| 0 <= j < keys.len() - 1 ==> keys.drop_last()[j] == keys[j]);
        lemma_total_multiplicity_push(keys.drop_last(), ps, p);
        assert(ps.push(p).drop_last() =~= ps);
        assert(multiplicity(ps.push(p), keys.last()) == multiplicity(ps, keys.last())
            + if keys.last() == p { 1nat } else { 0nat });
        if keys.contains(p) {
            let j = choose|j: int| 0 <= j < keys.len() && keys[j] == p;
            if j == keys.len() - 1 {
                assert(!keys.drop_last().contains(p)) by {
                    if keys.drop_last().contains(p) {
                        let k = choose|k: int|
                            0 <= k < keys.len() - 1 && keys.drop_last()[k] == p;
                        assert(keys[k] == keys[j]);
                    }
                }
            } else {
                assert(keys.drop_last()[j] == p);
                assert(keys.drop_last().contains(p));
                assert(keys.last() != p);
            }
        } else {
            assert(keys.last() != p) by {
                if keys.last() == p {
                    assert(keys.contains(p));
                }
            }
            assert(!keys.drop_last().contains(p)) by {
                if keys.drop_last().contains(p) {
                    let k = choose|k: int| 0 <= k < keys.len() - 1 && keys.drop_last()[k] == p;
                    assert(keys[k] == p);
                    assert(keys.contains(p));
                }
            }
        }
    }
}

/// The feedback distribution carries the whole probability mass: the
/// multiplicities of the distinct patterns sum to the number of
/// candidates, so the pattern counts divided by that number form a
/// probability distribution.
pub proof fn lemma_distribution_mass(ps: Seq<Seq<LetterOutcome>>)
    ensures
        total_multiplicity(first_occurrences(ps), ps) == ps.len(),
    decreases ps.len(),
{
    if ps.len() > 0 {
        let s = ps.drop_last();
        let p = ps.last();
        lemma_distribution_mass(s);
        lemma_first_occurrences_distinct(s);
        assert(ps =~= s.push(p));
        let prev = first_occurrences(s);
        if prev.contains(p) {
            assert(first_occurrences(ps) == prev);
            lemma_total_multiplicity_push(prev, s, p);
        } else {
            assert(first_occurrences(ps) == prev.push(p));
            lemma_total_multiplicity_push(prev, s, p);
            assert(total_multiplicity(prev.push(p), s.push(p)) == total_multiplicity(
                prev,
                s.push(p),
            ) + multiplicity(s.push(p), p)) by {
                assert(prev.push(p).drop_last() =~= prev);
            }
            assert(!s.contains(p)) by {
                if s.contains(p) {
                    lemma_first_occurrences_complete(s, p);
                }
            }
            lemma_multiplicity_absent(s, p);
            assert(s.push(p).drop_last() =~= s);
            assert(multiplicity(s.push(p), p) == 1);
        }
    }
}

/// Against a single remaining candidate every guess induces one pattern
/// with multiplicity one: the whole probability mass sits on a single
/// outcome, so the guess's entropy is zero.
pub proof fn lemma_singleton_distribution(cands: Seq<&str>, guess: Seq<char>)
    requires
        cands.len() == 1,
    ensures
        first_occurrences(induced_patterns(cands, guess)).len() == 1,
        multiplicity(
            induced_patterns(cands, guess),
            first_occurrences(induced_patterns(cands, guess))[0],
        ) == cands.len(),
{
    let ps = induced_patterns(cands, guess);
    assert(ps.len() == 1);
    assert(ps.drop_last().len() == 0);
    assert(first_occurrences(ps.drop_last()) =~= Seq::empty());
    assert(first_occurrences(ps) =~= Seq::empty().push(ps.last()));
    assert(multiplicity(ps.drop_last(), ps.last()) == 0);
}

} // verus!
