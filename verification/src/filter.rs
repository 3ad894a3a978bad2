//! Facts about `Seq::filter`.

use vstd::prelude::*;

verus! {

/// Filtering keeps everything when every element passes.
pub proof fn lemma_filter_all<A>(s: Seq<A>, p: spec_fn(A) -> bool)
    requires
        forall|i: int| 0 <= i < s.len() ==> p(s[i]),
    ensures
        s.filter(p) == s,
    decreases s.len(),
{
    reveal_with_fuel(Seq::<_>::filter, 1);
    if s.len() > 0 {
        lemma_filter_all(s.drop_last(), p);
        assert(s.drop_last().push(s.last()) =~= s);
    } else {
        assert(s.filter(p) =~= s);
    }
}

/// Filtering removes exactly position `i` when it is the only one failing.
pub proof fn lemma_filter_remove_only<A>(s: Seq<A>, p: spec_fn(A) -> bool, i: int)
    requires
        0 <= i < s.len(),
        !p(s[i]),
        forall|j: int| 0 <= j < s.len() && j != i ==> p(s[j]),
    ensures
        s.filter(p) == s.remove(i),
    decreases s.len(),
{
    reveal_with_fuel(Seq::<_>::filter, 1);
    if i == s.len() - 1 {
        lemma_filter_all(s.drop_last(), p);
        assert(s.remove(i) =~= s.drop_last());
    } else {
        lemma_filter_remove_only(s.drop_last(), p, i);
        assert(s.remove(i) =~= s.drop_last().remove(i).push(s.last()));
    }
}

} // verus!
