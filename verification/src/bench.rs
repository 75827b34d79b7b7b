//! Measuring how long repeated work takes.
use vstd::prelude::*;

use crate::external::{instant_now, nanos_since};

verus! {

/// A measured throughput result.
#[derive(Debug, Clone, Copy, PartialEq, Eq, Structural)]
pub struct Throughput {
    /// Number of processed items.
    pub items: u64,
    /// Elapsed time in nanoseconds.
    pub elapsed_ns: u128,
}

impl Throughput {
    /// Creates a throughput measurement.
    pub fn new(items: u64, elapsed_ns: u128) -> (t: Self)
        ensures
            t == (Throughput { items, elapsed_ns }),
    {
        Throughput { items, elapsed_ns }
    }
}

/// The result of running a piece of work a number of times.
#[derive(Debug, Clone, Copy)]
pub struct BenchResult {
    /// Name of the benchmark.
    pub name: &'static str,
    /// Number of iterations run.
    pub iterations: u64,
    /// Total wall time in nanoseconds.
    pub total_ns: u128,
}

/// Runs `f` `iterations` times and measures the total wall time.
pub fn bench<F: FnMut()>(name: &'static str, iterations: u64, f: F) -> (r: BenchResult)
    requires
        forall|g: F| call_requires(g, ()),
    ensures
        r.name == name,
        r.iterations == iterations,
{
    let mut f = f;
    let start = instant_now();
    let mut i: u64 = 0;
    while i < iterations
        invariant
            i <= iterations,
            forall|g: F| call_requires(g, ()),
        decreases iterations - i,
    {
        f();
        i = i + 1;
    }
    BenchResult { name, iterations, total_ns: nanos_since(&start) }
}

} // verus!
