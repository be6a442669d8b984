//! Byte-sequence helpers shared by the classifier, the line splitter and
//! the record parser: first occurrence of a byte, and suffix tests.

use vstd::prelude::*;

verus! {

/// Index of the first occurrence of `b` in `s`, if there is one.
pub open spec fn find_byte(s: Seq<u8>, b: u8) -> Option<int>
    decreases s.len(),
{
    if s.len() == 0 {
        None
    } else if s[0] == b {
        Some(0)
    } else {
        match find_byte(s.drop_first(), b) {
            Some(i) => Some(i + 1),
            None => None,
        }
    }
}

/// What `find_byte` returns is the first occurrence: an in-range index of
/// `b` with no occurrence before it, or `None` when `b` does not occur.
pub proof fn lemma_find_byte(s: Seq<u8>, b: u8)
    ensures
        match find_byte(s, b) {
            Some(i) => 0 <= i < s.len() && s[i] == b && (forall|k: int| 0 <= k < i ==> s[k] != b),
            None => forall|k: int| 0 <= k < s.len() ==> s[k] != b,
        },
    decreases s.len(),
{
    if s.len() == 0 {
    } else if s[0] == b {
    } else {
        lemma_find_byte(s.drop_first(), b);
        assert(forall|k: int| 0 <= k < s.drop_first().len() ==> s.drop_first()[k] == s[k + 1]);
        match find_byte(s.drop_first(), b) {
            Some(i) => {
                assert(find_byte(s, b) == Some(i + 1));
                assert(s[i + 1] == s.drop_first()[i]);
                assert(forall|k: int| 1 <= k < i + 1 ==> s[k] == s.drop_first()[k - 1]);
            },
            None => {
                assert(find_byte(s, b) is None);
                assert(forall|k: int| 1 <= k < s.len() ==> s[k] == s.drop_first()[k - 1]);
            },
        }
    }
}

/// `pat` is a suffix of `s`.
pub open spec fn is_suffix_of(pat: Seq<u8>, s: Seq<u8>) -> bool {
    pat.len() <= s.len() && s.skip(s.len() - pat.len()) == pat
}

/// Suffix test on byte strings.
pub fn ends_with(s: &[u8], pat: &[u8]) -> (r: bool)
    ensures
        r == is_suffix_of(pat@, s@),
{
    if pat.len() > s.len() {
        return false;
    }
    let off: usize = s.len() - pat.len();
    let mut si: usize = off;
    let mut j: usize = 0;
    while j < pat.len()
        invariant
            pat@.len() <= s@.len(),
            off == s@.len() - pat@.len(),
            j <= pat@.len(),
            si == off + j,
            forall|k: int| 0 <= k < j ==> s@[off + k] == pat@[k],
        decreases pat@.len() - j,
    {
        if s[si] != pat[j] {
            proof {
                assert(s@.skip(off as int)[j as int] != pat@[j as int]);
            }
            return false;
        }
        si += 1;
        j += 1;
    }
    proof {
        assert(s@.skip(off as int) =~= pat@);
    }
    true
}

} // verus!
