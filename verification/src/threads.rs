//! How many workers the benchmark harness runs the solver on: one, or a
//! chosen number in parallel on independent grids.

use vstd::prelude::*;

verus! {

/// Single-threaded, or multi-threaded with a worker count above one.
#[derive(Copy, Clone, PartialEq, Eq, Debug)]
pub enum ThreadMode {
    SingleThreaded,
    MultiThreaded(usize),
}

impl ThreadMode {
    /// A count of one or zero is single-threaded; anything above is
    /// multi-threaded with that many workers.
    pub fn new(n: usize) -> (r: Self)
        ensures
            n > 1 ==> r == ThreadMode::MultiThreaded(n),
            n <= 1 ==> r == ThreadMode::SingleThreaded,
    {
        if n > 1 {
            ThreadMode::MultiThreaded(n)
        } else {
            ThreadMode::SingleThreaded
        }
    }

    /// The number of workers the mode stands for.
    pub fn count(&self) -> (r: usize)
        ensures
            *self is SingleThreaded ==> r == 1,
            self matches ThreadMode::MultiThreaded(n) ==> r == n,
    {
        match self {
            ThreadMode::SingleThreaded => 1,
            ThreadMode::MultiThreaded(n) => *n,
        }
    }
}

} // verus!
