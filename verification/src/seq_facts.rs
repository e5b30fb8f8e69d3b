//! Small general lemmas about sequence concatenation, used throughout the
//! wire-codec proofs.

use vstd::prelude::*;

verus! {

/// Skipping exactly the left part of a concatenation leaves the right part.
pub proof fn lemma_skip_whole_append<A>(a: Seq<A>, b: Seq<A>)
    ensures
        (a + b).skip(a.len() as int) == b,
{
    assert((a + b).skip(a.len() as int) =~= b);
}

/// Two successive skips collapse into one.
pub proof fn lemma_skip_skip<A>(s: Seq<A>, i: int, j: int)
    requires
        0 <= i,
        0 <= j,
        i + j <= s.len(),
    ensures
        s.skip(i).skip(j) == s.skip(i + j),
{
    assert(s.skip(i).skip(j) =~= s.skip(i + j));
}

} // verus!
