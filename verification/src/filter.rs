//! A fact about filtered sequences.

use vstd::prelude::*;

verus! {

/// Filtering a sequence with one more entry at its end keeps that entry
/// exactly if the predicate holds of it, behind what the filter kept before.
pub proof fn lemma_filter_push<A>(s: Seq<A>, entry: A, keep: spec_fn(A) -> bool)
    ensures
        s.push(entry).filter(keep) == if keep(entry) {
            s.filter(keep).push(entry)
        } else {
            s.filter(keep)
        },
{
    reveal(Seq::filter);
    assert(s.push(entry).drop_last() =~= s);
}

} // verus!
