//! Comparisons of byte strings, as paths and patterns are held.

use vstd::prelude::*;

verus! {

/// Whether `text` begins with `prefix`.
pub open spec fn has_prefix(text: Seq<u8>, prefix: Seq<u8>) -> bool {
    prefix.len() <= text.len() && text.take(prefix.len() as int) == prefix
}

/// Whether `text` ends with `suffix`.
pub open spec fn has_suffix(text: Seq<u8>, suffix: Seq<u8>) -> bool {
    suffix.len() <= text.len() && text.skip(text.len() - suffix.len()) == suffix
}

/// Whether `text`, read from `at`, continues with all of `part`.
pub fn continues_with(text: &[u8], at: usize, part: &[u8]) -> (same: bool)
    requires
        at <= text.len(),
    ensures
        same == (part.len() <= text.len() - at && text@.subrange(
            at as int,
            at + part.len(),
        ) == part@),
{
    if part.len() > text.len() - at {
        return false;
    }
    let mut i: usize = 0;
    while i < part.len()
        invariant
            i <= part.len(),
            at + part.len() <= text.len(),
            forall|j: int| 0 <= j < i ==> text@[at + j] == part@[j],
        decreases part.len() - i,
    {
        if text[at + i] != part[i] {
            proof {
                assert(text@.subrange(at as int, at + part.len())[i as int] == text@[at + i]);
            }
            return false;
        }
        i += 1;
    }
    proof {
        assert(text@.subrange(at as int, at + part.len()) =~= part@);
    }
    true
}

/// Whether two byte strings are the same.
pub fn bytes_eq(a: &[u8], b: &[u8]) -> (same: bool)
    ensures
        same == (a@ == b@),
{
    if a.len() != b.len() {
        return false;
    }
    let same: bool = continues_with(a, 0, b);
    proof {
        assert(a@.subrange(0, a.len() as int) =~= a@);
    }
    same
}

/// Whether `text` begins with `prefix`.
pub fn starts_with(text: &[u8], prefix: &[u8]) -> (yes: bool)
    ensures
        yes == has_prefix(text@, prefix@),
{
    let yes: bool = continues_with(text, 0, prefix);
    proof {
        if prefix.len() <= text.len() {
            assert(text@.take(prefix.len() as int) =~= text@.subrange(0, 0 + prefix.len()));
        }
    }
    yes
}

/// Whether `text` ends with `suffix`.
pub fn ends_with(text: &[u8], suffix: &[u8]) -> (yes: bool)
    ensures
        yes == has_suffix(text@, suffix@),
{
    if suffix.len() > text.len() {
        return false;
    }
    let at: usize = text.len() - suffix.len();
    let yes: bool = continues_with(text, at, suffix);
    proof {
        assert(text@.skip(at as int) =~= text@.subrange(at as int, at + suffix.len()));
    }
    yes
}

} // verus!
