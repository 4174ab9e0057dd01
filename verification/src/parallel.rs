//! Work over the threads of a pool.
use rayon::iter::{IndexedParallelIterator, IntoParallelIterator, ParallelIterator};
use vstd::prelude::*;

verus! {

/// The results of `f` on `0`, `1`, and so on below `n`, in this order.
///
/// Calls `rayon`'s `into_par_iter` on the range, then `map` and `collect`. The range is an indexed
/// iterator: `map` calls `f` once on each index, on whatever thread, and `collect` puts each result
/// at its index. It runs on the threads of the pool that the caller stands in.
#[verifier::external_body]
pub(crate) fn map_indices<T: Send, F: Fn(usize) -> T + Sync + Send>(n: usize, f: F) -> (r: Vec<T>)
    requires
        forall|i: usize| i < n ==> #[trigger] f.requires((i,)),
    ensures
        r@.len() == n,
        forall|i: int| 0 <= i < n ==> f.ensures((i as usize,), #[trigger] r@[i]),
{
    (0..n).into_par_iter().map(f).collect()
}

/// The results of `f` on each item with its place, in the order of the items.
///
/// Calls `rayon`'s `into_par_iter` on the vector, then `enumerate`, `map` and `collect`. The
/// iterator is indexed: `f` is called once on each item, on whatever thread, and `collect` puts
/// each result at the place of its item. It runs on the threads of the pool that the caller stands
/// in.
#[verifier::external_body]
pub(crate) fn map_items<T: Send, F: Fn(usize, T) -> T + Sync + Send>(items: Vec<T>, f: F) -> (r: Vec<T>)
    requires
        forall|i: int| 0 <= i < items@.len() ==> f.requires((i as usize, #[trigger] items@[i])),
    ensures
        r@.len() == items@.len(),
        forall|i: int|
            0 <= i < items@.len() ==> f.ensures((i as usize, items@[i]), #[trigger] r@[i]),
{
    items.into_par_iter().enumerate().map(|(i, item)| f(i, item)).collect()
}

} // verus!
