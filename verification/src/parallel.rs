//! Work handed out to threads item by item.
use rayon::prelude::IntoParallelRefIterator;
use rayon::prelude::ParallelIterator;
use vstd::prelude::*;

verus! {

/// Maps every item, on the threads of the global pool: `par_iter` of rayon on a slice, its `map`
/// and `collect` into a vector.
///
/// Claimed of them: the function is called on the items of the slice and on nothing else, and the
/// results stand in the order of the items, one for each.
#[verifier::external_body]
pub(crate) fn par_map<T: Sync, U: Send, F: Fn(&T) -> U + Sync + Send>(items: &[T], f: F) -> (out:
    Vec<U>)
    requires
        forall|i: int| 0 <= i < items@.len() ==> call_requires(f, (&#[trigger] items@[i],)),
    ensures
        out@.len() == items@.len(),
        forall|i: int|
            0 <= i < out@.len() ==> call_ensures(f, (&items@[i],), #[trigger] out@[i]),
{
    items.par_iter().map(|item| f(item)).collect()
}

} // verus!
