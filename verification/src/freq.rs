//! Letter-frequency analysis of a word set and the greedy letter-coverage
//! ranking of guesses built on it.

use vstd::prelude::*;
use crate::charset::CharSet;
use crate::text::total_chars;

verus! {

/// Number of occurrences of `c` in one word.
pub open spec fn occ_in(s: Seq<char>, c: char) -> nat
    decreases s.len(),
{
    if s.len() == 0 {
        0
    } else {
        occ_in(s.drop_last(), c) + if s.last() == c {
            1nat
        } else {
            0nat
        }
    }
}

/// Number of occurrences of `c` across all words, duplicates within a
/// word counting once per occurrence.
pub open spec fn occ_all(ws: Seq<&str>, c: char) -> nat
    decreases ws.len(),
{
    if ws.len() == 0 {
        0
    } else {
        occ_all(ws.drop_last(), c) + occ_in(ws.last()@, c)
    }
}

/// The letters occurring anywhere in the word set.
pub open spec fn letters_of(ws: Seq<&str>) -> Set<char> {
    Set::new(|c: char| exists|k: int| 0 <= k < ws.len() && (#[trigger] ws[k])@.contains(c))
}

/// Value of the entry for `c`, or zero where there is none.
spec fn assoc_count(es: Seq<(char, usize)>, c: char) -> nat
    decreases es.len(),
{
    if es.len() == 0 {
        0
    } else if es.last().0 == c {
        es.last().1 as nat
    } else {
        assoc_count(es.drop_last(), c)
    }
}

/// Sum of all entry values.
spec fn sum_values(es: Seq<(char, usize)>) -> nat
    decreases es.len(),
{
    if es.len() == 0 {
        0
    } else {
        sum_values(es.drop_last()) + es.last().1 as nat
    }
}

/// Sum of the values of the entries whose key is not in `excl`.
spec fn rem_total(es: Seq<(char, usize)>, excl: Set<char>) -> nat
    decreases es.len(),
{
    if es.len() == 0 {
        0
    } else {
        rem_total(es.drop_last(), excl) + if !excl.contains(es.last().0) {
            es.last().1 as nat
        } else {
            0nat
        }
    }
}

/// A letter-frequency table: each letter seen, with how often it was
/// seen. The keys are distinct, every recorded count is positive, and
/// the counts sum to a machine-representable total.
pub struct CharFreq {
    entries: Vec<(char, usize)>,
}

impl CharFreq {
    /// Well-formedness: distinct keys, positive counts, bounded total.
    pub closed spec fn wf(&self) -> bool {
        &&& self.entries@.map_values(|e: (char, usize)| e.0).no_duplicates()
        &&& forall|j: int| 0 <= j < self.entries@.len() ==> (#[trigger] self.entries@[j]).1 >= 1
        &&& sum_values(self.entries@) <= usize::MAX
    }

    /// The recorded count of `c`, zero if `c` was never seen.
    pub closed spec fn count(&self, c: char) -> nat {
        assoc_count(self.entries@, c)
    }

    /// The set of letters with an entry.
    pub closed spec fn keys(&self) -> Set<char> {
        self.entries@.map_values(|e: (char, usize)| e.0).to_set()
    }

    /// The sum of all recorded counts.
    pub closed spec fn total(&self) -> nat {
        sum_values(self.entries@)
    }

    /// Number of distinct letters recorded.
    pub fn len(&self) -> (n: usize)
        requires
            self.wf(),
        ensures
            n == self.keys().len(),
    {
        proof {
            self.entries@.map_values(|e: (char, usize)| e.0).unique_seq_to_set();
        }
        self.entries.len()
    }

    /// The recorded count of `c`, zero if `c` was never seen.
    pub fn get(&self, c: char) -> (r: usize)
        requires
            self.wf(),
        ensures
            r == self.count(c),
    {
        let n = self.entries.len();
        let mut i: usize = 0;
        while i < n
            invariant
                self.wf(),
                n == self.entries@.len(),
                i <= n,
                forall|j: int| 0 <= j < i ==> (#[trigger] self.entries@[j]).0 != c,
            decreases n - i,
        {
            let (key, value) = self.entries[i];
            if key == c {
                proof {
                    lemma_assoc_at(self.entries@, i as int);
                }
                return value;
            }
            i += 1;
        }
        proof {
            lemma_assoc_absent(self.entries@, c);
        }
        0
    }

    /// The entries, in the order their letters were first seen.
    pub fn pairs(&self) -> (r: &Vec<(char, usize)>)
        requires
            self.wf(),
        ensures
            r@.len() == self.keys().len(),
            forall|j: int| 0 <= j < r@.len() ==> (#[trigger] r@[j]).1 == self.count(r@[j].0),
            forall|j: int, k: int|
                0 <= j < r@.len() && 0 <= k < r@.len() && j != k ==> (#[trigger] r@[j]).0
                    != (#[trigger] r@[k]).0,
    {
        proof {
            let ks = self.entries@.map_values(|e: (char, usize)| e.0);
            ks.unique_seq_to_set();
            assert forall|j: int| 0 <= j < self.entries@.len()
                implies (#[trigger] self.entries@[j]).1
                    == self.count(self.entries@[j].0) by {
                lemma_assoc_at(self.entries@, j);
            }
            assert forall|j: int, k: int|
                0 <= j < self.entries@.len() && 0 <= k < self.entries@.len() && j != k
                implies (#[trigger] self.entries@[j]).0 != (#[trigger] self.entries@[k]).0 by {
                assert(ks[j] == self.entries@[j].0);
                assert(ks[k] == self.entries@[k].0);
            }
        }
        &self.entries
    }

    /// Record one more occurrence of `c`.
    fn bump(&mut self, c: char)
        requires
            old(self).wf(),
            sum_values(old(self).entries@) < usize::MAX,
        ensures
            final(self).wf(),
            final(self).count(c) == old(self).count(c) + 1,
            forall|q: char| q != c ==> final(self).count(q) == old(self).count(q),
            final(self).total() == old(self).total() + 1,
            final(self).keys() == old(self).keys().insert(c),
    {
        let ghost es0 = self.entries@;
        let n = self.entries.len();
        let mut i: usize = 0;
        let mut found = false;
        while i < n && !found
            invariant
                self.entries@ == es0,
                n == es0.len(),
                i <= n,
                !found ==> forall|j: int| 0 <= j < i ==> (#[trigger] es0[j]).0 != c,
                found ==> i < n && es0[i as int].0 == c,
            decreases n - i + if found { 0int } else { 1int },
        {
            if self.entries[i].0 == c {
                found = true;
            } else {
                i += 1;
            }
        }
        if found {
            let v = self.entries[i].1;
            proof {
                lemma_value_le_sum(es0, i as int);
            }
            self.entries[i] = (c, v + 1);
            proof {
                let es1 = self.entries@;
                assert(es1 =~= es0.update(i as int, (c, (v + 1) as usize)));
                assert(es1.map_values(|e: (char, usize)| e.0) =~= es0.map_values(
                    |e: (char, usize)| e.0,
                ));
                lemma_assoc_update(es0, i as int, (v + 1) as usize);
                lemma_sum_update(es0, i as int, (v + 1) as usize);
                lemma_assoc_at(es0, i as int);
                assert(self.keys() =~= old(self).keys().insert(c)) by {
                    assert(es0.map_values(|e: (char, usize)| e.0)[i as int] == c);
                }
            }
        } else {
            proof {
                lemma_assoc_absent(es0, c);
            }
            self.entries.push((c, 1));
            proof {
                let es1 = self.entries@;
                assert(es1.drop_last() =~= es0);
                let ks0 = es0.map_values(|e: (char, usize)| e.0);
                let ks1 = es1.map_values(|e: (char, usize)| e.0);
                assert(ks1.drop_last() =~= ks0);
                assert(ks1.last() == c);
                assert forall|j: int, k: int|
                    0 <= j < ks1.len() && 0 <= k < ks1.len() && j != k
                    implies ks1[j] != ks1[k] by {
                    if j < ks0.len() && k < ks0.len() {
                        assert(ks0[j] == ks1[j] && ks0[k] == ks1[k]);
                    } else if j < ks0.len() {
                        assert(es0[j].0 != c);
                        assert(ks1[j] == es0[j].0);
                    } else if k < ks0.len() {
                        assert(es0[k].0 != c);
                        assert(ks1[k] == es0[k].0);
                    }
                }
                assert forall|q: char| q != c
                    implies final(self).count(q) == old(self).count(q) by {
                    assert(assoc_count(es1, q) == assoc_count(es1.drop_last(), q));
                }
                assert(self.keys() =~= old(self).keys().insert(c)) by {
                    assert forall|x: char| self.keys().contains(x)
                        implies old(self).keys().insert(c).contains(x) by {
                        let j = choose|j: int| 0 <= j < ks1.len() && ks1[j] == x;
                        if j < ks0.len() {
                            assert(ks0[j] == x);
                        }
                    }
                    assert forall|x: char| old(self).keys().insert(c).contains(x)
                        implies self.keys().contains(x) by {
                        if x == c {
                            assert(ks1[ks1.len() - 1] == c);
                        } else {
                            let j = choose|j: int| 0 <= j < ks0.len() && ks0[j] == x;
                            assert(ks1[j] == x);
                        }
                    }
                }
            }
        }
    }
}

/// In a table with distinct keys, the entry at index `i` gives the
/// count of its own key.
proof fn lemma_assoc_at(es: Seq<(char, usize)>, i: int)
    requires
        es.map_values(|e: (char, usize)| e.0).no_duplicates(),
        0 <= i < es.len(),
    ensures
        assoc_count(es, es[i].0) == es[i].1,
    decreases es.len(),
{
    let ks = es.map_values(|e: (char, usize)| e.0);
    if i == es.len() - 1 {
    } else {
        assert(ks[i] != ks[es.len() - 1]);
        assert(es.last().0 != es[i].0);
        assert(es.drop_last().map_values(|e: (char, usize)| e.0) =~= ks.drop_last());
        lemma_assoc_at(es.drop_last(), i);
    }
}

/// A key with no entry has count zero.
proof fn lemma_assoc_absent(es: Seq<(char, usize)>, c: char)
    requires
        forall|j: int| 0 <= j < es.len() ==> (#[trigger] es[j]).0 != c,
    ensures
        assoc_count(es, c) == 0,
    decreases es.len(),
{
    if es.len() > 0 {
        assert(forall|j: int| 0 <= j < es.len() - 1 ==> es.drop_last()[j] == es[j]);
        lemma_assoc_absent(es.drop_last(), c);
    }
}

/// Every entry value is at most the sum of all values.
proof fn lemma_value_le_sum(es: Seq<(char, usize)>, i: int)
    requires
        0 <= i < es.len(),
    ensures
        es[i].1 <= sum_values(es),
    decreases es.len(),
{
    if i < es.len() - 1 {
        lemma_value_le_sum(es.drop_last(), i);
    }
}

/// Updating the value at index `i` adjusts that key's count and leaves
/// every other count alone.
proof fn lemma_assoc_update(es: Seq<(char, usize)>, i: int, v: usize)
    requires
        es.map_values(|e: (char, usize)| e.0).no_duplicates(),
        0 <= i < es.len(),
    ensures
        assoc_count(es.update(i, (es[i].0, v)), es[i].0) == v,
        forall|q: char| q != es[i].0
            ==> assoc_count(es.update(i, (es[i].0, v)), q) == assoc_count(es, q),
    decreases es.len(),
{
    let es1 = es.update(i, (es[i].0, v));
    if i == es.len() - 1 {
        assert(es1.drop_last() =~= es.drop_last());
        assert(es1.last() == (es[i].0, v));
        assert forall|q: char| q != es[i].0
            implies assoc_count(es1, q) == assoc_count(es, q) by {
            assert(es1.last().0 == es[i].0);
            assert(assoc_count(es1, q) == assoc_count(es1.drop_last(), q));
            assert(assoc_count(es, q) == assoc_count(es.drop_last(), q));
        }
    } else {
        let ks = es.map_values(|e: (char, usize)| e.0);
        assert(ks[i] != ks[es.len() - 1]);
        assert(es.drop_last().map_values(|e: (char, usize)| e.0) =~= ks.drop_last());
        lemma_assoc_update(es.drop_last(), i, v);
        assert(es1.drop_last() =~= es.drop_last().update(i, (es[i].0, v)));
        assert(es1.last() == es.last());
        assert forall|q: char| q != es[i].0
            implies assoc_count(es1, q) == assoc_count(es, q) by {
            if es.last().0 == q {
            } else {
                assert(assoc_count(es1, q) == assoc_count(es1.drop_last(), q));
                assert(assoc_count(es, q) == assoc_count(es.drop_last(), q));
                assert(assoc_count(es1.drop_last(), q) == assoc_count(es.drop_last(), q));
            }
        }
    }
}

/// Updating the value at index `i` changes the sum by the difference.
proof fn lemma_sum_update(es: Seq<(char, usize)>, i: int, v: usize)
    requires
        0 <= i < es.len(),
    ensures
        sum_values(es.update(i, (es[i].0, v))) == sum_values(es) - es[i].1 + v,
    decreases es.len(),
{
    let es1 = es.update(i, (es[i].0, v));
    if i == es.len() - 1 {
        assert(es1.drop_last() =~= es.drop_last());
        assert(es1.last() == (es[i].0, v));
    } else {
        lemma_sum_update(es.drop_last(), i, v);
        assert(es1.drop_last() =~= es.drop_last().update(i, (es[i].0, v)));
        assert(es1.last() == es.last());
    }
}

/// Count the occurrences of every letter across the word set: each
/// letter of each word is worth one point to its own tally.
pub fn char_freq(words: &[&str]) -> (r: CharFreq)
    requires
        total_chars(words@) <= usize::MAX,
    ensures
        r.wf(),
        forall|c: char| #[trigger] r.count(c) == occ_all(words@, c),
        r.total() == total_chars(words@),
        r.keys() == letters_of(words@),
{
    let n = words.len();
    let mut r = CharFreq { entries: Vec::new() };
    let mut k: usize = 0;
    proof {
        assert(words@.take(0) =~= Seq::<&str>::empty());
        assert(forall|c: char| assoc_count(Seq::<(char, usize)>::empty(), c) == 0);
    }
    while k < n
        invariant
            n == words@.len(),
            k <= n,
            r.wf(),
            total_chars(words@) <= usize::MAX,
            r.total() == total_chars(words@.take(k as int)),
            forall|c: char| #[trigger] r.count(c) == occ_all(words@.take(k as int), c),
            r.keys() == letters_of(words@.take(k as int)),
        decreases n - k,
    {
        let w = words[k];
        let m = w.unicode_len();
        let mut i: usize = 0;
        proof {
            lemma_total_chars_take_succ(words@, k as int);
            lemma_total_chars_take_le(words@, k + 1);
            assert(w@.take(0) =~= Seq::<char>::empty());
        }
        while i < m
            invariant
                n == words@.len(),
                k < n,
                m == w@.len(),
                w == words@[k as int],
                i <= m,
                r.wf(),
                total_chars(words@) <= usize::MAX,
                total_chars(words@.take(k as int)) + w@.len() <= total_chars(words@),
                r.total() == total_chars(words@.take(k as int)) + i,
                forall|c: char| #[trigger] r.count(c) == occ_all(words@.take(k as int), c)
                    + occ_in(w@.take(i as int), c),
                forall|c: char| r.keys().contains(c) <==> letters_of(
                    words@.take(k as int),
                ).contains(c) || w@.take(i as int).contains(c),
            decreases m - i,
        {
            let c = w.get_char(i);
            proof {
                assert(w@.take(i + 1).drop_last() =~= w@.take(i as int));
                assert(w@.take(i + 1).last() == c);
                assert forall|q: char| #[trigger] occ_in(w@.take(i + 1), q) == occ_in(
                    w@.take(i as int),
                    q,
                ) + if q == c { 1nat } else { 0nat } by {}
            }
            r.bump(c);
            proof {
                assert forall|q: char|
                    r.keys().contains(q) <==> letters_of(words@.take(k as int)).contains(q)
                        || w@.take(i + 1).contains(q) by {
                    if q == c {
                        assert(w@.take(i + 1)[i as int] == c);
                    } else {
                        assert(w@.take(i + 1).contains(q) <==> w@.take(i as int).contains(
                            q,
                        )) by {
                            if w@.take(i + 1).contains(q) {
                                let j = choose|j: int|
                                    0 <= j < i + 1 && #[trigger] w@.take(i + 1)[j] == q;
                                assert(w@.take(i as int)[j] == q);
                            }
                            if w@.take(i as int).contains(q) {
                                let j = choose|j: int|
                                    0 <= j < i && #[trigger] w@.take(i as int)[j] == q;
                                assert(w@.take(i + 1)[j] == q);
                            }
                        }
                    }
                }
            }
            i += 1;
        }
        proof {
            assert(w@.take(m as int) =~= w@);
            lemma_total_chars_take_succ(words@, k as int);
            assert forall|c: char| #[trigger] r.count(c) == occ_all(words@.take(k + 1), c) by {
                assert(words@.take(k + 1).drop_last() =~= words@.take(k as int));
                assert(words@.take(k + 1).last() == w);
            }
            assert forall|c: char|
                r.keys().contains(c) <==> letters_of(words@.take(k + 1)).contains(c) by {
                if letters_of(words@.take(k + 1)).contains(c) {
                    let j = choose|j: int|
                        0 <= j < k + 1 && (#[trigger] words@.take(k + 1)[j])@.contains(c);
                    if j < k {
                        assert(words@.take(k as int)[j] == words@.take(k + 1)[j]);
                        assert(letters_of(words@.take(k as int)).contains(c));
                    }
                }
                if letters_of(words@.take(k as int)).contains(c) {
                    let j = choose|j: int|
                        0 <= j < k && (#[trigger] words@.take(k as int)[j])@.contains(c);
                    assert(words@.take(k + 1)[j] == words@.take(k as int)[j]);
                }
                if w@.contains(c) {
                    assert(words@.take(k + 1)[k as int] == w);
                }
            }
            assert(r.keys() =~= letters_of(words@.take(k + 1)));
        }
        k += 1;
    }
    proof {
        assert(words@.take(n as int) =~= words@);
    }
    r
}

/// The frequency-coverage worth of a word: the sum, over the word's
/// distinct letters that are not already covered, of each letter's
/// recorded count. Each distinct letter counts once however often it
/// repeats within the word.
pub open spec fn word_score_spec(w: Seq<char>, f: CharFreq, cov: Set<char>) -> nat
    decreases w.len(),
{
    if w.len() == 0 {
        0
    } else {
        word_score_spec(w.drop_last(), f, cov) + if !cov.contains(w.last())
            && !w.drop_last().contains(w.last()) {
            f.count(w.last())
        } else {
            0nat
        }
    }
}

/// The same worth, written against the word set itself rather than a
/// frequency table: each uncovered distinct letter is worth its number
/// of occurrences across `ws`.
pub open spec fn coverage_score(w: Seq<char>, ws: Seq<&str>, cov: Set<char>) -> nat
    decreases w.len(),
{
    if w.len() == 0 {
        0
    } else {
        coverage_score(w.drop_last(), ws, cov) + if !cov.contains(w.last())
            && !w.drop_last().contains(w.last()) {
            occ_all(ws, w.last())
        } else {
            0nat
        }
    }
}

/// A table whose counts agree with the word set gives every word the
/// same score as the word set itself.
pub(crate) proof fn lemma_score_from_counts(w: Seq<char>, f: CharFreq, ws: Seq<&str>, cov: Set<char>)
    requires
        forall|c: char| #[trigger] f.count(c) == occ_all(ws, c),
    ensures
        word_score_spec(w, f, cov) == coverage_score(w, ws, cov),
    decreases w.len(),
{
    if w.len() > 0 {
        lemma_score_from_counts(w.drop_last(), f, ws, cov);
    }
}

/// The count of an unexcluded key never exceeds the remaining total.
proof fn lemma_count_le_rem(es: Seq<(char, usize)>, excl: Set<char>, c: char)
    requires
        !excl.contains(c),
    ensures
        assoc_count(es, c) <= rem_total(es, excl),
    decreases es.len(),
{
    if es.len() > 0 {
        lemma_count_le_rem(es.drop_last(), excl, c);
    }
}

/// Excluding a key that has no entry changes nothing.
proof fn lemma_rem_insert_absent(es: Seq<(char, usize)>, excl: Set<char>, c: char)
    requires
        forall|j: int| 0 <= j < es.len() ==> (#[trigger] es[j]).0 != c,
    ensures
        rem_total(es, excl.insert(c)) == rem_total(es, excl),
    decreases es.len(),
{
    if es.len() > 0 {
        assert(forall|j: int| 0 <= j < es.len() - 1 ==> es.drop_last()[j] == es[j]);
        lemma_rem_insert_absent(es.drop_last(), excl, c);
    }
}

/// Excluding one more key removes exactly that key's count from the
/// remaining total.
proof fn lemma_rem_insert(es: Seq<(char, usize)>, excl: Set<char>, c: char)
    requires
        es.map_values(|e: (char, usize)| e.0).no_duplicates(),
        !excl.contains(c),
    ensures
        rem_total(es, excl.insert(c)) + assoc_count(es, c) == rem_total(es, excl),
    decreases es.len(),
{
    if es.len() > 0 {
        let ks = es.map_values(|e: (char, usize)| e.0);
        assert(es.drop_last().map_values(|e: (char, usize)| e.0) =~= ks.drop_last());
        if es.last().0 == c {
            assert forall|j: int| 0 <= j < es.drop_last().len()
                implies (#[trigger] es.drop_last()[j]).0 != c by {
                assert(ks[j] != ks[es.len() - 1]);
            }
            lemma_rem_insert_absent(es.drop_last(), excl, c);
            lemma_assoc_absent(es.drop_last(), c);
        } else {
            lemma_rem_insert(es.drop_last(), excl, c);
        }
    }
}

/// The remaining total never exceeds the full total.
proof fn lemma_rem_le_total(es: Seq<(char, usize)>, excl: Set<char>)
    ensures
        rem_total(es, excl) <= sum_values(es),
    decreases es.len(),
{
    if es.len() > 0 {
        lemma_rem_le_total(es.drop_last(), excl);
    }
}

/// A word containing an uncovered letter scores at least that letter's
/// count.
pub(crate) proof fn lemma_score_at_least(w: Seq<char>, f: CharFreq, cov: Set<char>, c: char)
    requires
        w.contains(c),
        !cov.contains(c),
    ensures
        word_score_spec(w, f, cov) >= f.count(c),
    decreases w.len(),
{
    if w.len() > 0 {
        if w.drop_last().contains(c) {
            lemma_score_at_least(w.drop_last(), f, cov, c);
        } else {
            let j = choose|j: int| 0 <= j < w.len() && w[j] == c;
            if j < w.len() - 1 {
                assert(w.drop_last()[j] == c);
                assert(w.drop_last().contains(c));
            }
            assert(w.last() == c);
        }
    }
}

/// A positive score names an uncovered letter of positive count.
pub(crate) proof fn lemma_score_pos(w: Seq<char>, f: CharFreq, cov: Set<char>)
    requires
        word_score_spec(w, f, cov) > 0,
    ensures
        exists|c: char|
            w.contains(c) && !cov.contains(c) && #[trigger] f.count(c) > 0,
    decreases w.len(),
{
    if w.len() > 0 {
        if !cov.contains(w.last()) && !w.drop_last().contains(w.last())
            && f.count(w.last()) > 0 {
            assert(w[w.len() - 1] == w.last());
            assert(w.contains(w.last()));
        } else {
            lemma_score_pos(w.drop_last(), f, cov);
            let c = choose|c: char|
                w.drop_last().contains(c) && !cov.contains(c) && #[trigger] f.count(c) > 0;
            let j = choose|j: int| 0 <= j < w.len() - 1 && w.drop_last()[j] == c;
            assert(w[j] == c);
            assert(w.contains(c));
        }
    }
}

/// Every recorded letter has a positive count, and every letter of
/// positive count is recorded.
proof fn lemma_key_iff_count_pos(f: CharFreq, c: char)
    requires
        f.wf(),
    ensures
        f.keys().contains(c) <==> f.count(c) >= 1,
{
    let ks = f.entries@.map_values(|e: (char, usize)| e.0);
    if f.keys().contains(c) {
        let j = choose|j: int| 0 <= j < ks.len() && ks[j] == c;
        lemma_assoc_at(f.entries@, j);
    }
    if f.count(c) >= 1 {
        if forall|j: int| 0 <= j < f.entries@.len() ==> (#[trigger] f.entries@[j]).0 != c {
            lemma_assoc_absent(f.entries@, c);
            assert(false);
        }
        let j = choose|j: int| 0 <= j < f.entries@.len() && (#[trigger] f.entries@[j]).0 == c;
        assert(ks[j] == c);
    }
}

/// The frequency-coverage worth of `word`: the sum of `freq`'s counts
/// over the word's distinct letters not already in `covered`.
pub fn word_score(word: &str, freq: &CharFreq, covered: &CharSet) -> (r: usize)
    requires
        freq.wf(),
        covered.wf(),
    ensures
        r == word_score_spec(word@, *freq, covered@),
{
    let n = word.unicode_len();
    let mut seen = CharSet::new();
    let mut s: usize = 0;
    let mut i: usize = 0;
    proof {
        assert(word@.take(0) =~= Seq::<char>::empty());
        assert(Seq::<char>::empty().to_set() =~= Set::<char>::empty());
        assert(covered@.union(Set::<char>::empty()) =~= covered@);
        lemma_rem_le_total(freq.entries@, covered@);
    }
    while i < n
        invariant
            freq.wf(),
            covered.wf(),
            seen.wf(),
            n == word@.len(),
            i <= n,
            seen@ == word@.take(i as int).to_set(),
            s == word_score_spec(word@.take(i as int), *freq, covered@),
            s + rem_total(freq.entries@, covered@.union(seen@)) <= freq.total(),
        decreases n - i,
    {
        let c = word.get_char(i);
        let ghost t0 = word@.take(i as int);
        let ghost t1 = word@.take(i + 1);
        proof {
            assert(t1.drop_last() =~= t0);
            assert(t1.last() == c);
            assert(t1.to_set() =~= t0.to_set().insert(c)) by {
                assert forall|x: char| t1.contains(x)
                    implies t0.contains(x) || x == c by {
                    let j = choose|j: int| 0 <= j < i + 1 && #[trigger] t1[j] == x;
                    if j < i {
                        assert(t0[j] == x);
                    }
                }
                assert forall|x: char| t0.contains(x) implies t1.contains(x) by {
                    let j = choose|j: int| 0 <= j < i && #[trigger] t0[j] == x;
                    assert(t1[j] == x);
                }
                assert(t1[i as int] == c);
            }
            assert(t0.contains(c) <==> t0.to_set().contains(c));
        }
        if !covered.contains(c) && !seen.contains(c) {
            let v = freq.get(c);
            proof {
                lemma_count_le_rem(freq.entries@, covered@.union(seen@), c);
                lemma_rem_le_total(freq.entries@, covered@.union(seen@));
                lemma_rem_insert(freq.entries@, covered@.union(seen@), c);
                assert(covered@.union(seen@).insert(c) =~= covered@.union(
                    t0.to_set().insert(c),
                ));
            }
            s = s + v;
        } else {
            proof {
                assert(covered@.union(seen@).contains(c));
                lemma_rem_insert_same(freq.entries@, covered@.union(seen@), c);
                assert(covered@.union(t0.to_set().insert(c)) =~= covered@.union(
                    seen@,
                ).insert(c));
            }
        }
        seen.insert(c);
        i += 1;
    }
    proof {
        assert(word@.take(n as int) =~= word@);
    }
    s
}

/// Excluding a key that is already excluded changes nothing.
proof fn lemma_rem_insert_same(es: Seq<(char, usize)>, excl: Set<char>, c: char)
    requires
        excl.contains(c),
    ensures
        rem_total(es, excl.insert(c)) == rem_total(es, excl),
{
    assert(excl.insert(c) =~= excl);
}

/// The index of a best-scoring word; among equal scores the last wins.
pub(crate) fn best_index(words: &[&str], freq: &CharFreq, covered: &CharSet) -> (bi: usize)
    requires
        words@.len() > 0,
        freq.wf(),
        covered.wf(),
    ensures
        bi < words@.len(),
        forall|j: int|
            0 <= j < words@.len() ==> word_score_spec((#[trigger] words@[j])@, *freq, covered@)
                <= word_score_spec(words@[bi as int]@, *freq, covered@),
        forall|j: int|
            bi < j < words@.len() ==> word_score_spec((#[trigger] words@[j])@, *freq, covered@)
                < word_score_spec(words@[bi as int]@, *freq, covered@),
{
    let n = words.len();
    let mut bi: usize = 0;
    let mut best = word_score(words[0], freq, covered);
    let mut j: usize = 1;
    while j < n
        invariant
            freq.wf(),
            covered.wf(),
            n == words@.len(),
            bi < j <= n || (bi == 0 && j <= n),
            bi < n,
            best == word_score_spec(words@[bi as int]@, *freq, covered@),
            forall|k: int|
                0 <= k < j ==> word_score_spec((#[trigger] words@[k])@, *freq, covered@) <= best,
            forall|k: int|
                bi < k < j ==> word_score_spec((#[trigger] words@[k])@, *freq, covered@) < best,
        decreases n - j,
    {
        let s = word_score(words[j], freq, covered);
        if s >= best {
            best = s;
            bi = j;
        }
        j += 1;
    }
    bi
}

/// The letters accounted for once the first `m` picks are made: the
/// initially covered set united with those picks' letters.
pub open spec fn covered_after(init: Set<char>, picks: Seq<&str>, m: int) -> Set<char> {
    init.union(letters_of(picks.take(m)))
}

/// Pick `m` of a greedy coverage pass is lawful: against the letters
/// covered before it, it scores at least as much as every word of the
/// list, and it is the last word of the list to reach that score.
pub open spec fn greedy_pick_ok(
    words: Seq<&str>,
    f: CharFreq,
    init: Set<char>,
    picks: Seq<&str>,
    m: int,
) -> bool {
    &&& forall|j: int|
        0 <= j < words.len() ==> word_score_spec(
            (#[trigger] words[j])@,
            f,
            covered_after(init, picks, m),
        ) <= word_score_spec(picks[m]@, f, covered_after(init, picks, m))
    &&& exists|bi: int|
        {
            &&& 0 <= bi < words.len()
            &&& picks[m]@ == (#[trigger] words[bi])@
            &&& forall|j: int|
                bi < j < words.len() ==> word_score_spec(
                    (#[trigger] words[j])@,
                    f,
                    covered_after(init, picks, m),
                ) < word_score_spec(picks[m]@, f, covered_after(init, picks, m))
        }
}

/// Greedily pick words until their letters cover the whole recorded
/// alphabet: each round takes a word of maximal score against the
/// letters covered so far (the last such word of the list), marks its
/// letters covered, and another round follows exactly while fewer
/// letters are covered than the table records. Starting from nothing
/// covered, the picks' letters together equal the full alphabet of the
/// word set the table was counted from.
pub fn coverage_guesses<'a>(
    words: &[&'a str],
    freq: &CharFreq,
    covered: &mut CharSet,
) -> (r: Vec<&'a str>)
    requires
        words@.len() > 0,
        freq.wf(),
        old(covered).wf(),
        freq.keys().subset_of(letters_of(words@)),
    ensures
        final(covered).wf(),
        r@.len() >= 1,
        forall|j: int|
            0 <= j < r@.len() ==> exists|k: int|
                0 <= k < words@.len() && (#[trigger] r@[j])@ == words@[k]@,
        forall|m: int|
            0 <= m < r@.len() ==> #[trigger] greedy_pick_ok(
                words@,
                *freq,
                old(covered)@,
                r@,
                m,
            ),
        forall|m: int|
            0 <= m < r@.len() - 1 ==> #[trigger] covered_after(old(covered)@, r@, m + 1).len()
                < freq.keys().len(),
        final(covered)@ == old(covered)@.union(letters_of(r@)),
        final(covered)@.len() >= freq.keys().len(),
        (old(covered)@ == Set::<char>::empty() && freq.keys() == letters_of(words@))
            ==> letters_of(r@) == freq.keys(),
{
    let mut r: Vec<&'a str> = Vec::new();
    proof {
        assert(letters_of(r@) =~= Set::<char>::empty());
        assert(covered@ =~= old(covered)@.union(letters_of(r@)));
        broadcast use vstd::seq_lib::seq_to_set_is_finite;

    }
    loop
        invariant
            words@.len() > 0,
            freq.wf(),
            covered.wf(),
            freq.keys().subset_of(letters_of(words@)),
            forall|j: int|
                0 <= j < r@.len() ==> exists|k: int|
                    0 <= k < words@.len() && (#[trigger] r@[j])@ == words@[k]@,
            forall|m: int|
                0 <= m < r@.len() ==> #[trigger] greedy_pick_ok(
                    words@,
                    *freq,
                    old(covered)@,
                    r@,
                    m,
                ),
            forall|m: int|
                0 <= m < r@.len() ==> #[trigger] covered_after(old(covered)@, r@, m + 1).len()
                    < freq.keys().len(),
            covered@ == old(covered)@.union(letters_of(r@)),
        decreases freq.keys().difference(covered@).len(),
    {
        let ghost init = old(covered)@;
        let ghost head = covered@;
        let ghost r_before = r@;
        let bi = best_index(words, freq, covered);
        let w = words[bi];
        covered.add_str_chars(w);
        r.push(w);
        proof {
            let r1 = r@;
            let r0 = r_before;
            assert(r1 == r_before.push(w));
            assert(r1.last() == w);
            assert forall|x: char| letters_of(r1).contains(x)
                implies letters_of(r0).contains(x) || w@.contains(x) by {
                let k = choose|k: int| 0 <= k < r1.len() && (#[trigger] r1[k])@.contains(x);
                if k < r0.len() {
                    assert(r0[k] == r1[k]);
                    assert(letters_of(r0).contains(x));
                }
            }
            assert forall|x: char| letters_of(r0).contains(x)
                implies letters_of(r1).contains(x) by {
                let k = choose|k: int| 0 <= k < r0.len() && (#[trigger] r0[k])@.contains(x);
                assert(r1[k] == r0[k]);
            }
            assert forall|x: char| w@.contains(x) implies letters_of(r1).contains(x) by {
                assert(r1[r1.len() - 1] == w);
            }
            assert(letters_of(r1) =~= letters_of(r0).union(w@.to_set()));
            assert(covered@ == head.union(w@.to_set()));
            assert(head == old(covered)@.union(letters_of(r0)));
            assert(covered@ =~= old(covered)@.union(letters_of(r1)));

            let m0 = r_before.len() as int;
            // Earlier picks keep their lawfulness and their stopping
            // bound: the push leaves their prefixes unchanged.
            assert forall|m: int| 0 <= m < m0
                implies #[trigger] greedy_pick_ok(words@, *freq, init, r1, m) by {
                assert(greedy_pick_ok(words@, *freq, init, r_before, m));
                assert(r1.take(m) =~= r_before.take(m));
                assert(r1[m] == r_before[m]);
                let c = covered_after(init, r_before, m);
                assert(covered_after(init, r1, m) == c);
                let wbi = choose|wbi: int|
                    {
                        &&& 0 <= wbi < words@.len()
                        &&& r_before[m]@ == (#[trigger] words@[wbi])@
                        &&& forall|j: int|
                            wbi < j < words@.len() ==> word_score_spec(
                                (#[trigger] words@[j])@,
                                *freq,
                                c,
                            ) < word_score_spec(r_before[m]@, *freq, c)
                    };
                assert(r1[m]@ == (words@[wbi])@);
            }
            assert forall|m: int| 0 <= m < m0
                implies #[trigger] covered_after(init, r1, m + 1).len() < freq.keys().len() by {
                assert(covered_after(init, r_before, m + 1).len() < freq.keys().len());
                assert(r1.take(m + 1) =~= r_before.take(m + 1));
                assert(covered_after(init, r1, m + 1) == covered_after(init, r_before, m + 1));
            }
            // The new pick is lawful: the scan just made scored it
            // maximal, and last among the tied, against the letters
            // covered at the round's start.
            assert(r1.take(m0) =~= r_before);
            assert(covered_after(init, r1, m0) == head);
            assert(r1[m0] == w);
            assert(greedy_pick_ok(words@, *freq, init, r1, m0)) by {
                assert(w@ == (words@[bi as int])@);
            }
        }
        let cl = covered.len();
        let fl = freq.len();
        if cl >= fl {
            proof {
                if old(covered)@ == Set::<char>::empty() && freq.keys() == letters_of(
                    words@,
                ) {
                    let lr = letters_of(r@);
                    assert(covered@ =~= lr);
                    covered.lemma_finite();
                    assert(lr.subset_of(freq.keys())) by {
                        assert forall|c: char| lr.contains(c)
                            implies letters_of(words@).contains(c) by {
                            let j = choose|j: int|
                                0 <= j < r@.len() && (#[trigger] r@[j])@.contains(c);
                            assert(exists|k: int|
                                0 <= k < words@.len() && (#[trigger] r@[j])@ == words@[k]@);
                            let k = choose|k: int|
                                0 <= k < words@.len() && r@[j]@ == words@[k]@;
                            assert((words@[k])@.contains(c));
                        }
                    }
                    vstd::set_lib::lemma_len_subset(lr, freq.keys());
                    vstd::set_lib::lemma_subset_equality(lr, freq.keys());
                }
            }
            return r;
        }
        proof {
            // The round just finished left letters uncovered, which is
            // what lets another round follow.
            assert forall|m: int| 0 <= m < r@.len()
                implies #[trigger] covered_after(init, r@, m + 1).len() < freq.keys().len() by {
                if m + 1 <= r_before.len() {
                    assert(covered_after(init, r@, m + 1).len() < freq.keys().len());
                } else {
                    assert(r@.take(m + 1) =~= r@);
                    assert(covered_after(init, r@, m + 1) == covered@);
                }
            }
        }
        proof {
            // Some recorded letter is still uncovered, the chosen word
            // scored at least one point, so a new recorded letter was
            // covered this round: the uncovered remainder shrank.
            broadcast use vstd::seq_lib::seq_to_set_is_finite;

            covered.lemma_finite();
            let keys = freq.keys();
            assert(keys.finite());
            assert(covered@.len() < keys.len());
            assert(!keys.subset_of(covered@)) by {
                if keys.subset_of(covered@) {
                    vstd::set_lib::lemma_len_subset(keys, covered@);
                }
            }
            let c0 = choose|c0: char| keys.contains(c0) && !covered@.contains(c0);
            assert(letters_of(words@).contains(c0));
            let k0 = choose|k0: int|
                0 <= k0 < words@.len() && (#[trigger] words@[k0])@.contains(c0);
            assert(!head.contains(c0));
            lemma_key_iff_count_pos(*freq, c0);
            lemma_score_at_least(words@[k0]@, *freq, head, c0);
            assert(word_score_spec(words@[bi as int]@, *freq, head) >= 1);
            lemma_score_pos(words@[bi as int]@, *freq, head);
            let c1 = choose|c1: char|
                words@[bi as int]@.contains(c1) && !head.contains(c1) && #[trigger] freq.count(
                    c1,
                ) > 0;
            lemma_key_iff_count_pos(*freq, c1);
            assert(keys.contains(c1));
            assert(covered@.contains(c1));
            let d1 = keys.difference(covered@);
            let d0 = keys.difference(head);
            assert(d0.finite()) by {
                vstd::set_lib::lemma_len_subset(d0, keys);
            }
            assert(d1.subset_of(d0.remove(c1))) by {
                assert forall|x: char| d1.contains(x) implies d0.remove(c1).contains(x) by {
                    assert(!covered@.contains(x));
                    assert(!head.contains(x));
                }
            }
            vstd::set_lib::lemma_len_subset(d1, d0.remove(c1));
            assert(d0.contains(c1));
            assert(d0.remove(c1).len() == d0.len() - 1);
        }
    }
}

/// The words paired with their scores, in word-list order.
pub open spec fn scored_pairs(ws: Seq<&str>, f: CharFreq, cov: Set<char>) -> Seq<(&str, usize)> {
    Seq::new(ws.len(), |i: int| (ws[i], word_score_spec(ws[i]@, f, cov) as usize))
}

/// The pairs of `ps` that carry score `s`, in their order in `ps`.
pub open spec fn with_score(ps: Seq<(&str, usize)>, s: usize) -> Seq<(&str, usize)> {
    ps.filter(|p: (&str, usize)| p.1 == s)
}

/// Filtering a sequence none of whose elements pass yields nothing.
proof fn lemma_filter_none<A>(s: Seq<A>, pred: spec_fn(A) -> bool)
    requires
        forall|i: int| 0 <= i < s.len() ==> !pred(#[trigger] s[i]),
    ensures
        s.filter(pred) == Seq::<A>::empty(),
    decreases s.len(),
{
    reveal(Seq::filter);
    if s.len() > 0 {
        assert(forall|i: int| 0 <= i < s.len() - 1 ==> s.drop_last()[i] == s[i]);
        lemma_filter_none(s.drop_last(), pred);
    }
}

/// Filtering a singleton keeps or drops its one element.
proof fn lemma_filter_one<A>(x: A, pred: spec_fn(A) -> bool)
    ensures
        seq![x].filter(pred) == if pred(x) {
            seq![x]
        } else {
            Seq::<A>::empty()
        },
{
    reveal(Seq::filter);
    assert(seq![x].len() == 1);
    assert(seq![x].drop_last() =~= Seq::<A>::empty());
    assert(seq![x].last() == x);
    assert(Seq::<A>::empty().filter(pred) =~= Seq::<A>::empty());
    if pred(x) {
        assert(seq![x].filter(pred) =~= Seq::<A>::empty().push(x));
        assert(Seq::<A>::empty().push(x) =~= seq![x]);
    } else {
        assert(seq![x].filter(pred) =~= Seq::<A>::empty());
    }
}

/// Every word of the list paired with its frequency-coverage score,
/// sorted by descending score; among equal scores the earlier word
/// keeps its place.
#[verifier::rlimit(50)]
pub fn freq_scored_guesses<'a>(
    words: &[&'a str],
    freq: &CharFreq,
    covered: &CharSet,
) -> (r: Vec<(&'a str, usize)>)
    requires
        freq.wf(),
        covered.wf(),
    ensures
        r@.len() == words@.len(),
        forall|j: int|
            0 <= j < r@.len() ==> (#[trigger] r@[j]).1 == word_score_spec(
                r@[j].0@,
                *freq,
                covered@,
            ),
        forall|i: int, j: int| 0 <= i <= j < r@.len() ==> (#[trigger] r@[i]).1
            >= (#[trigger] r@[j]).1,
        r@.to_multiset() == scored_pairs(words@, *freq, covered@).to_multiset(),
        forall|s: usize|
            #[trigger] with_score(r@, s) == with_score(
                scored_pairs(words@, *freq, covered@),
                s,
            ),
{
    broadcast use vstd::seq_lib::group_to_multiset_ensures;

    let n = words.len();
    let mut pending: Vec<(&'a str, usize)> = Vec::new();
    let mut i: usize = 0;
    while i < n
        invariant
            freq.wf(),
            covered.wf(),
            n == words@.len(),
            i <= n,
            pending@.len() == i,
            forall|j: int|
                0 <= j < i ==> (#[trigger] pending@[j]).0 == words@[j] && pending@[j].1
                    == word_score_spec(words@[j]@, *freq, covered@),
        decreases n - i,
    {
        let s = word_score(words[i], freq, covered);
        pending.push((words[i], s));
        i += 1;
    }
    proof {
        assert(pending@ =~= scored_pairs(words@, *freq, covered@));
    }
    let ghost all = pending@;

    let mut out: Vec<(&'a str, usize)> = Vec::new();
    proof {
        assert(out@.to_multiset().add(pending@.to_multiset()) =~= all.to_multiset());
        assert forall|s: usize|
            #[trigger] with_score(out@, s) + with_score(pending@, s) == with_score(all, s) by {
            reveal(Seq::filter);
            assert(with_score(out@, s) =~= Seq::<(&str, usize)>::empty());
            assert(with_score(out@, s) + with_score(pending@, s) =~= with_score(all, s));
        }
    }
    while pending.len() > 0
        invariant
            freq.wf(),
            covered.wf(),
            out@.to_multiset().add(pending@.to_multiset()) == all.to_multiset(),
            out@.len() + pending@.len() == all.len(),
            forall|s: usize|
                #[trigger] with_score(out@, s) + with_score(pending@, s) == with_score(all, s),
            forall|j: int|
                0 <= j < out@.len() ==> (#[trigger] out@[j]).1 == word_score_spec(
                    out@[j].0@,
                    *freq,
                    covered@,
                ),
            forall|j: int|
                0 <= j < pending@.len() ==> (#[trigger] pending@[j]).1 == word_score_spec(
                    pending@[j].0@,
                    *freq,
                    covered@,
                ),
            forall|i2: int, j: int| 0 <= i2 <= j < out@.len() ==> (#[trigger] out@[i2]).1
                >= (#[trigger] out@[j]).1,
            forall|i2: int, j: int|
                0 <= i2 < out@.len() && 0 <= j < pending@.len() ==> (#[trigger] out@[i2]).1
                    >= (#[trigger] pending@[j]).1,
        decreases pending@.len(),
    {
        let m = pending.len();
        let mut mi: usize = 0;
        let mut j: usize = 1;
        while j < m
            invariant
                m == pending@.len(),
                mi < j <= m || (mi == 0 && j <= m),
                mi < m,
                forall|k: int| 0 <= k < j ==> (#[trigger] pending@[k]).1
                    <= pending@[mi as int].1,
                forall|k: int| 0 <= k < mi ==> (#[trigger] pending@[k]).1
                    < pending@[mi as int].1,
            decreases m - j,
        {
            if pending[j].1 > pending[mi].1 {
                mi = j;
            }
            j += 1;
        }
        let ghost p0 = pending@;
        let ghost o0 = out@;
        let e = pending.remove(mi);
        out.push(e);
        proof {
            p0.to_multiset_ensures();
            o0.to_multiset_ensures();
            assert(pending@ == p0.remove(mi as int));
            assert(p0.remove(mi as int).to_multiset() =~= p0.to_multiset().remove(
                p0[mi as int],
            ));
            assert(out@ == o0.push(e));
            assert(o0.push(e).to_multiset() =~= o0.to_multiset().insert(e));
            assert(p0[mi as int] == e);
            assert(p0.contains(e));
            assert(p0.to_multiset().count(e) > 0);
            assert(out@.to_multiset().add(pending@.to_multiset()) =~= all.to_multiset());

            // Per score, the order of the pairs is untouched: the pair
            // that moved was the first of its score class in `pending`,
            // and it joins the end of `out`, whose pairs all score at
            // least as much.
            let before = p0.take(mi as int);
            let after = p0.skip(mi + 1);
            assert(p0 =~= (before + seq![e]) + after);
            assert(pending@ =~= before + after);
            assert forall|s: usize|
                #[trigger] with_score(out@, s) + with_score(pending@, s) == with_score(
                    all,
                    s,
                ) by {
                let pd = |p: (&str, usize)| p.1 == s;
                assert(with_score(o0, s) + with_score(p0, s) == with_score(all, s));
                Seq::filter_distributes_over_add(before + seq![e], after, pd);
                Seq::filter_distributes_over_add(before, seq![e], pd);
                Seq::filter_distributes_over_add(before, after, pd);
                Seq::filter_distributes_over_add(o0, seq![e], pd);
                assert(out@ =~= o0 + seq![e]);
                lemma_filter_one(e, pd);
                if e.1 == s {
                    assert forall|k2: int| 0 <= k2 < before.len()
                        implies !pd(#[trigger] before[k2]) by {
                        assert(before[k2] == p0[k2]);
                        assert(p0[k2].1 < p0[mi as int].1);
                    }
                    lemma_filter_none(before, pd);
                    assert((o0.filter(pd) + seq![e]) + (before.filter(pd) + after.filter(pd))
                        =~= o0.filter(pd) + (((before.filter(pd)) + seq![e]) + after.filter(
                        pd,
                    )));
                } else {
                    assert((o0.filter(pd) + Seq::<(&str, usize)>::empty()) + (before.filter(pd)
                        + after.filter(pd)) =~= o0.filter(pd) + (((before.filter(pd))
                        + Seq::<(&str, usize)>::empty()) + after.filter(pd)));
                }
            }
        }
    }
    proof {
        assert(pending@.to_multiset().len() == 0);
        assert(out@.to_multiset() =~= all.to_multiset());
        assert forall|s: usize|
            #[trigger] with_score(out@, s) == with_score(
                scored_pairs(words@, *freq, covered@),
                s,
            ) by {
            reveal(Seq::filter);
            assert(with_score(out@, s) + with_score(pending@, s) == with_score(all, s));
            assert(pending@ =~= Seq::<(&str, usize)>::empty());
            assert(with_score(pending@, s) =~= Seq::<(&str, usize)>::empty());
            assert(with_score(out@, s) + with_score(pending@, s) =~= with_score(out@, s));
        }
    }
    out
}

/// The characters of a prefix never outnumber those of the whole list.
proof fn lemma_total_chars_take_le(ws: Seq<&str>, k: int)
    requires
        0 <= k <= ws.len(),
    ensures
        total_chars(ws.take(k)) <= total_chars(ws),
    decreases ws.len() - k,
{
    if k < ws.len() {
        lemma_total_chars_take_succ(ws, k);
        lemma_total_chars_take_le(ws, k + 1);
    } else {
        assert(ws.take(k) =~= ws);
    }
}

/// Extending a prefix by one word adds that word's characters.
proof fn lemma_total_chars_take_succ(ws: Seq<&str>, k: int)
    requires
        0 <= k < ws.len(),
    ensures
        total_chars(ws.take(k + 1)) == total_chars(ws.take(k)) + ws[k]@.len(),
{
    assert(ws.take(k + 1).drop_last() =~= ws.take(k));
    assert(ws.take(k + 1).last() == ws[k]);
}

} // verus!
