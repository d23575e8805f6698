//! Data parallelism over the items of a list.
use rayon::iter::{IntoParallelRefIterator, ParallelIterator};
use vstd::prelude::*;

verus! {

/// Applies `f` to every item of `items` on `rayon`'s thread pool, through
/// `par_iter`, `map` and `collect`.
///
/// Trusted of `rayon`: the list that comes back has one result per item, in
/// the order of the items, and each result is what one call of `f` on that
/// item returned.
#[verifier::external_body]
pub(crate) fn par_map<T: Sync, R: Send, F: Fn(&T) -> R + Sync + Send>(items: &Vec<T>, f: F) -> (r:
    Vec<R>)
    requires
        forall|i: int| 0 <= i < items@.len() ==> call_requires(f, (&#[trigger] items@[i],)),
    ensures
        r@.len() == items@.len(),
        forall|i: int| 0 <= i < r@.len() ==> call_ensures(f, (&items@[i],), #[trigger] r@[i]),
{
    items.par_iter().map(f).collect()
}

} // verus!
