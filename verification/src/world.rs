//! How many threads the world runs systems on.
use vstd::prelude::*;

verus! {

/// The number of threads to use for inner and outer parallelism.
#[derive(Clone, Copy, Debug, PartialEq, Eq, Structural)]
pub enum Parallelism {
    /// As many as the thread pool that runs the world has.
    Automatic,
    /// The given number, at least one.
    Explicit(u32),
}

/// `rayon::current_num_threads`: the number of threads of the current
/// thread pool. Nothing is claimed of it: it depends on the machine and on
/// how the pool was built.
#[verifier::external_body]
fn pool_threads() -> usize {
    rayon::current_num_threads()
}

/// The number of threads to use, given the number `pool` that the current
/// thread pool has: that one, cut to 32 bits, when automatic, or else the
/// explicit number, one at the least.
pub fn threads_for(parallelism: Parallelism, pool: usize) -> (n: u32)
    ensures
        n == match parallelism {
            Parallelism::Automatic => pool as u32,
            Parallelism::Explicit(k) => if k > 1 { k } else { 1 },
        },
{
    match parallelism {
        Parallelism::Automatic => {
            #[verifier::truncate]
            let n = pool as u32;
            n
        },
        Parallelism::Explicit(k) => {
            if k > 1 {
                k
            } else {
                1
            }
        },
    }
}

/// The number of threads to use for the given parallelism.
pub fn thread_count(parallelism: Parallelism) -> (n: u32)
    ensures
        parallelism matches Parallelism::Explicit(k) ==> n == if k > 1 { k } else { 1 },
{
    let pool = pool_threads();
    threads_for(parallelism, pool)
}

} // verus!
