//! The one source of chance that the library draws on.

use vstd::prelude::*;
use rand::Rng;

verus! {

/// A number below `bound`, drawn by `rand::Rng::gen_range(0, bound)` from the
/// generator that `rand::thread_rng()` keeps for the calling thread. The
/// contract claims the range only, which is what `gen_range` documents: a
/// value from `low` inclusive to `high` exclusive; it fails where `low` is not
/// below `high`, which `bound > 0` rules out. (The generator is seeded from
/// the system when a thread first draws from it, and that too fails where
/// the system gives no randomness.)
#[verifier::external_body]
pub(crate) fn random_below(bound: usize) -> (n: usize)
    requires
        bound > 0,
    ensures
        n < bound,
{
    rand::thread_rng().gen_range(0, bound)
}

} // verus!
