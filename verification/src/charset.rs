//! A set of characters, kept as a duplicate-free vector in insertion order.

use vstd::prelude::*;
use crate::text::str_contains_char;

verus! {

/// A finite set of characters. The view is the mathematical `Set<char>`
/// of its elements; `wf()` says the backing vector holds no duplicates,
/// which every constructor establishes and every method preserves.
pub struct CharSet {
    elems: Vec<char>,
}

impl View for CharSet {
    type V = Set<char>;

    closed spec fn view(&self) -> Set<char> {
        self.elems@.to_set()
    }
}

impl CharSet {
    /// The backing vector holds each character at most once.
    pub closed spec fn wf(&self) -> bool {
        self.elems@.no_duplicates()
    }

    /// The empty character set.
    pub fn new() -> (s: Self)
        ensures
            s.wf(),
            s@ == Set::<char>::empty(),
    {
        let s = CharSet { elems: Vec::new() };
        proof {
            assert(s@ =~= Set::<char>::empty());
        }
        s
    }

    /// Whether `c` is in the set.
    pub fn contains(&self, c: char) -> (r: bool)
        ensures
            r == self@.contains(c),
    {
        let n = self.elems.len();
        let mut i: usize = 0;
        while i < n
            invariant
                n == self.elems@.len(),
                i <= n,
                forall|j: int| 0 <= j < i ==> self.elems@[j] != c,
            decreases n - i,
        {
            if self.elems[i] == c {
                proof {
                    assert(self.elems@.contains(c));
                }
                return true;
            }
            i += 1;
        }
        proof {
            assert(!self.elems@.contains(c));
        }
        false
    }

    /// Add `c` to the set.
    pub fn insert(&mut self, c: char)
        requires
            old(self).wf(),
        ensures
            final(self).wf(),
            final(self)@ == old(self)@.insert(c),
    {
        if !self.contains(c) {
            proof {
                assert(!self.elems@.contains(c));
            }
            self.elems.push(c);
            proof {
                let pre = old(self).elems@;
                assert forall|i: int, j: int|
                    0 <= i < self.elems@.len() && 0 <= j < self.elems@.len() && i != j
                    implies self.elems@[i] != self.elems@[j] by {
                    if i < pre.len() && j < pre.len() {
                        assert(pre[i] != pre[j]);
                    } else if i < pre.len() {
                        assert(pre.contains(pre[i]));
                    } else if j < pre.len() {
                        assert(pre.contains(pre[j]));
                    }
                }
                assert forall|x: char| self.elems@.to_set().contains(x)
                    implies old(self)@.insert(c).contains(x) by {
                    let k = choose|k: int| 0 <= k < self.elems@.len() && self.elems@[k] == x;
                    if k < pre.len() {
                        assert(pre.contains(x));
                    }
                }
                assert forall|x: char| old(self)@.insert(c).contains(x)
                    implies self.elems@.to_set().contains(x) by {
                    if x == c {
                        assert(self.elems@[pre.len() as int] == c);
                    } else {
                        let k = choose|k: int| 0 <= k < pre.len() && pre[k] == x;
                        assert(self.elems@[k] == x);
                    }
                }
                assert(self@ =~= old(self)@.insert(c));
            }
        } else {
            proof {
                assert(self@ =~= old(self)@.insert(c));
            }
        }
    }

    /// Number of characters in the set.
    pub fn len(&self) -> (n: usize)
        requires
            self.wf(),
        ensures
            n == self@.len(),
    {
        proof {
            self.elems@.unique_seq_to_set();
        }
        self.elems.len()
    }

    /// An identical, independently owned copy of the set.
    pub fn duplicate(&self) -> (r: Self)
        requires
            self.wf(),
        ensures
            r.wf(),
            r@ == self@,
    {
        let elems = self.elems.clone();
        proof {
            assert(elems@ =~= self.elems@);
        }
        CharSet { elems }
    }

    /// Add every element of `other` to the set.
    pub fn extend_from(&mut self, other: &CharSet)
        requires
            old(self).wf(),
        ensures
            final(self).wf(),
            final(self)@ == old(self)@.union(other@),
    {
        let n = other.elems.len();
        let mut i: usize = 0;
        while i < n
            invariant
                n == other.elems@.len(),
                i <= n,
                self.wf(),
                self@ == old(self)@.union(other.elems@.take(i as int).to_set()),
            decreases n - i,
        {
            let c = other.elems[i];
            self.insert(c);
            proof {
                let t1 = other.elems@.take(i + 1);
                let t0 = other.elems@.take(i as int);
                assert forall|x: char| t1.contains(x)
                    implies t0.contains(x) || x == c by {
                    let k = choose|k: int| 0 <= k < t1.len() && t1[k] == x;
                    if k < i {
                        assert(t0[k] == x);
                    }
                }
                assert forall|x: char| t0.contains(x) implies t1.contains(x) by {
                    let k = choose|k: int| 0 <= k < t0.len() && t0[k] == x;
                    assert(t1[k] == x);
                }
                assert(t1[i as int] == c);
                assert(self@ =~= old(self)@.union(t1.to_set()));
            }
            i += 1;
        }
        proof {
            assert(other.elems@.take(n as int) =~= other.elems@);
            assert(self@ =~= old(self)@.union(other@));
        }
    }

    /// Add every character of the word `w` to the set.
    pub fn add_str_chars(&mut self, w: &str)
        requires
            old(self).wf(),
        ensures
            final(self).wf(),
            final(self)@ == old(self)@.union(w@.to_set()),
    {
        let n = w.unicode_len();
        let mut i: usize = 0;
        while i < n
            invariant
                n == w@.len(),
                i <= n,
                self.wf(),
                self@ == old(self)@.union(w@.take(i as int).to_set()),
            decreases n - i,
        {
            let c = w.get_char(i);
            self.insert(c);
            proof {
                let t1 = w@.take(i + 1);
                let t0 = w@.take(i as int);
                assert forall|x: char| t1.contains(x)
                    implies t0.contains(x) || x == c by {
                    let k = choose|k: int| 0 <= k < t1.len() && t1[k] == x;
                    if k < i {
                        assert(t0[k] == x);
                    }
                }
                assert forall|x: char| t0.contains(x) implies t1.contains(x) by {
                    let k = choose|k: int| 0 <= k < t0.len() && t0[k] == x;
                    assert(t1[k] == x);
                }
                assert(t1[i as int] == c);
                assert(self@ =~= old(self)@.union(t1.to_set()));
            }
            i += 1;
        }
        proof {
            assert(w@.take(n as int) =~= w@);
            assert(self@ =~= old(self)@.union(w@.to_set()));
        }
    }

    /// Whether every element of the set occurs in the word `w`.
    pub fn subset_of_chars(&self, w: &str) -> (r: bool)
        ensures
            r == self@.subset_of(w@.to_set()),
    {
        let n = self.elems.len();
        let mut i: usize = 0;
        while i < n
            invariant
                n == self.elems@.len(),
                i <= n,
                forall|j: int| 0 <= j < i ==> w@.contains(#[trigger] self.elems@[j]),
            decreases n - i,
        {
            if !str_contains_char(w, self.elems[i]) {
                proof {
                    assert(self@.contains(self.elems@[i as int]));
                    assert(!w@.to_set().contains(self.elems@[i as int]));
                }
                return false;
            }
            i += 1;
        }
        proof {
            assert forall|x: char| self@.contains(x) implies w@.to_set().contains(x) by {
                let k = choose|k: int| 0 <= k < self.elems@.len() && self.elems@[k] == x;
                assert(w@.contains(self.elems@[k]));
            }
        }
        true
    }

    /// The view of a character set is always a finite set.
    pub proof fn lemma_finite(&self)
        ensures
            self@.finite(),
    {
        broadcast use vstd::seq_lib::seq_to_set_is_finite;

        assert(self.elems@.to_set().finite());
    }

    /// The elements in their insertion order.
    pub fn as_vec(&self) -> (r: &Vec<char>)
        ensures
            r@.to_set() == self@,
            forall|i: int| 0 <= i < r@.len() ==> self@.contains(#[trigger] r@[i]),
    {
        proof {
            assert forall|i: int| 0 <= i < self.elems@.len()
                implies self@.contains(#[trigger] self.elems@[i]) by {
                assert(self.elems@.contains(self.elems@[i]));
            }
        }
        &self.elems
    }
}

} // verus!
