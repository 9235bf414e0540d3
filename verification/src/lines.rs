//! The line counter: a file's line total is the number of line-terminator
//! bytes in its content. A final fragment without a terminator adds nothing.

use vstd::prelude::*;

verus! {

/// The line terminator byte.
pub const NEWLINE: u8 = 0x0A;

/// The number of line terminators among `bytes`.
pub open spec fn newline_count(bytes: Seq<u8>) -> nat
    decreases bytes.len(),
{
    if bytes.len() == 0 {
        0
    } else {
        newline_count(bytes.drop_last()) + if bytes.last() == NEWLINE {
            1nat
        } else {
            0nat
        }
    }
}

/// Counting is additive over concatenation: a content may be counted chunk
/// by chunk, wherever the chunk boundaries fall.
pub proof fn lemma_newline_count_concat(a: Seq<u8>, b: Seq<u8>)
    ensures
        newline_count(a + b) == newline_count(a) + newline_count(b),
    decreases b.len(),
{
    if b.len() == 0 {
        assert(a + b =~= a);
    } else {
        assert((a + b).drop_last() =~= a + b.drop_last());
        lemma_newline_count_concat(a, b.drop_last());
    }
}

/// Counts the line terminators in `bytes`.
pub fn count_newlines(bytes: &[u8]) -> (n: usize)
    ensures
        n == newline_count(bytes@),
{
    let mut n: usize = 0;
    let mut i: usize = 0;
    while i < bytes.len()
        invariant
            i <= bytes.len(),
            n <= i,
            n == newline_count(bytes@.take(i as int)),
        decreases bytes.len() - i,
    {
        proof {
            assert(bytes@.take(i + 1).drop_last() =~= bytes@.take(i as int));
        }
        if bytes[i] == NEWLINE {
            n += 1;
        }
        i += 1;
    }
    proof {
        assert(bytes@.take(i as int) =~= bytes@);
    }
    n
}

/// Adds the terminators of one more chunk to a running count, for content
/// that is streamed rather than held whole. `None` when the total no longer
/// fits the machine word.
pub fn count_newlines_streamed(so_far: usize, chunk: &[u8]) -> (total: Option<usize>)
    ensures
        total == if so_far + newline_count(chunk@) <= usize::MAX {
            Some((so_far + newline_count(chunk@)) as usize)
        } else {
            None
        },
{
    let n: usize = count_newlines(chunk);
    so_far.checked_add(n)
}

} // verus!
