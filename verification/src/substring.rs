//! Substring containment over sequences, and a byte-level search that decides it.

use crate::utf8::{lemma_encode_injective, lemma_substring_of_encoding};
use vstd::prelude::*;

verus! {

/// `needle` stands in `haystack` at offset `at`, element for element.
pub open spec fn occurs_at<T>(haystack: Seq<T>, needle: Seq<T>, at: int) -> bool {
    &&& 0 <= at
    &&& at + needle.len() <= haystack.len()
    &&& haystack.subrange(at, at + needle.len()) == needle
}

/// `needle` stands somewhere in `haystack` as a contiguous run.
pub open spec fn has_substring<T>(haystack: Seq<T>, needle: Seq<T>) -> bool {
    exists|at: int| occurs_at(haystack, needle, at)
}

/// Compares `needle` with the bytes of `haystack` that start at `at`.
fn matches_at(haystack: &[u8], needle: &[u8], at: usize) -> (found: bool)
    requires
        at + needle@.len() <= haystack@.len() <= usize::MAX,
    ensures
        found == occurs_at(haystack@, needle@, at as int),
{
    let mut j: usize = 0;
    while j < needle.len()
        invariant
            j <= needle@.len(),
            at + needle@.len() <= haystack@.len() <= usize::MAX,
            forall|k: int| 0 <= k < j ==> haystack@[at + k] == needle@[k],
        decreases needle@.len() - j,
    {
        if haystack[at + j] != needle[j] {
            return false;
        }
        j += 1;
    }
    assert(haystack@.subrange(at as int, at + needle@.len()) =~= needle@);
    true
}

/// Naive substring search over bytes.
pub fn contains_slice(haystack: &[u8], needle: &[u8]) -> (found: bool)
    ensures
        found == has_substring(haystack@, needle@),
{
    if needle.len() == 0 {
        assert(occurs_at(haystack@, needle@, 0)) by {
            assert(haystack@.subrange(0, 0) =~= needle@);
        }
        return true;
    }
    if needle.len() > haystack.len() {
        return false;
    }
    let last: usize = haystack.len() - needle.len();
    let mut at: usize = 0;
    while at <= last
        invariant
            0 < needle@.len() <= haystack@.len() <= usize::MAX,
            last == haystack@.len() - needle@.len(),
            at <= last + 1,
            forall|k: int| 0 <= k < at ==> !occurs_at(haystack@, needle@, k),
        decreases last + 1 - at,
    {
        if matches_at(haystack, needle, at) {
            return true;
        }
        at += 1;
    }
    false
}

/// Does `haystack` hold `needle` as a contiguous run of characters? An empty
/// `needle` stands in every text.
pub fn contains(haystack: &str, needle: &str) -> (found: bool)
    ensures
        found == has_substring(haystack@, needle@),
{
    proof {
        lemma_substring_of_encoding(haystack@, needle@);
    }
    contains_slice(haystack.as_bytes(), needle.as_bytes())
}

/// Are `a` and `b` the same text, character for character?
pub fn same_text(a: &str, b: &str) -> (same: bool)
    ensures
        same == (a@ == b@),
{
    let left = a.as_bytes();
    let right = b.as_bytes();
    if left.len() != right.len() {
        return false;
    }
    let same = matches_at(left, right, 0);
    proof {
        assert(left@.subrange(0, right@.len() as int) =~= left@);
        if same {
            lemma_encode_injective(a@, b@);
        }
    }
    same
}

} // verus!
