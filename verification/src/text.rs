//! Small verified helpers over `&str` values, plus the one character
//! classification the word filter needs from the standard library.

use vstd::prelude::*;

verus! {

/// Total number of characters across a sequence of words.
pub open spec fn total_chars(ws: Seq<&str>) -> nat
    decreases ws.len(),
{
    if ws.len() == 0 {
        0
    } else {
        total_chars(ws.drop_last()) + ws.last()@.len()
    }
}

/// Whether character `c` occurs anywhere in `s`.
pub fn str_contains_char(s: &str, c: char) -> (r: bool)
    ensures
        r == s@.contains(c),
{
    let n = s.unicode_len();
    let mut i: usize = 0;
    while i < n
        invariant
            n == s@.len(),
            i <= n,
            forall|j: int| 0 <= j < i ==> s@[j] != c,
        decreases n - i,
    {
        if s.get_char(i) == c {
            proof {
                assert(s@[i as int] == c);
            }
            return true;
        }
        i += 1;
    }
    false
}

/// Character-by-character equality of two strings.
pub fn str_eq(a: &str, b: &str) -> (r: bool)
    ensures
        r == (a@ == b@),
{
    let n = a.unicode_len();
    if n != b.unicode_len() {
        return false;
    }
    let mut i: usize = 0;
    while i < n
        invariant
            n == a@.len(),
            n == b@.len(),
            i <= n,
            forall|j: int| 0 <= j < i ==> a@[j] == b@[j],
        decreases n - i,
    {
        if a.get_char(i) != b.get_char(i) {
            return false;
        }
        i += 1;
    }
    proof {
        assert(a@ =~= b@);
    }
    true
}

/// Whether the Unicode standard classifies `c` as a lowercase letter.
/// The full character table is beyond stating here, so the result is
/// only given a name; it depends on the character alone.
pub uninterp spec fn char_is_lowercase(c: char) -> bool;

/// Relies on char::is_lowercase: the Unicode `Lowercase` property of the
/// character, a pure function of its argument.
pub assume_specification[ char::is_lowercase ](c: char) -> (r: bool)
    ensures
        r == char_is_lowercase(c),
;

} // verus!
