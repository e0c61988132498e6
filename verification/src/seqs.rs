//! Small facts about sequences that are walked by an index.
use vstd::prelude::*;

verus! {

/// `s` from index `i` on.
pub open spec fn tail<T>(s: Seq<T>, i: usize) -> Seq<T> {
    s.skip(i as int)
}

/// The tail from `i` begins with the item at `i`, and the tail from `i + 1`
/// follows it.
pub proof fn lemma_tail_step<T>(s: Seq<T>, i: usize)
    requires
        i < s.len(),
        i < usize::MAX,
    ensures
        tail(s, i).len() > 0,
        tail(s, i)[0] == s[i as int],
        tail(s, i).drop_first() == tail(s, (i + 1) as usize),
{
    assert(tail(s, i).drop_first() =~= tail(s, (i + 1) as usize));
}

/// The tail from 0 is the whole, and the tail from the end is empty.
pub proof fn lemma_tail_ends<T>(s: Seq<T>, i: usize)
    ensures
        tail(s, 0) == s,
        i == s.len() ==> tail(s, i).len() == 0,
        i <= s.len() ==> tail(s, i).len() == s.len() - i,
{
    assert(tail(s, 0) =~= s);
}

} // verus!
