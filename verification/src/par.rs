//! Work spread over threads.

use rayon::iter::{IntoParallelIterator, ParallelIterator};
use vstd::prelude::*;

verus! {

/// `rayon`: maps the range `0..n` through `f` on the thread pool and collects
/// the results. The contract claims of `into_par_iter`, `map` and `collect`
/// that `f` is called on every index below `n`, and that result `i` is what a
/// call of `f` on `i` returned.
#[verifier::external_body]
pub(crate) fn par_map<T: Send, F: Fn(usize) -> T + Sync + Send>(n: usize, f: F) -> (out: Vec<T>)
    requires
        forall|i: usize| i < n ==> #[trigger] call_requires(f, (i,)),
    ensures
        out.len() == n,
        forall|i: usize| i < n ==> call_ensures(f, (i,), #[trigger] out[i as int]),
{
    (0..n).into_par_iter().map(f).collect()
}

} // verus!
