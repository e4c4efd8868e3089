//! A barrier for tests with several threads.
use std::sync::Arc;
use vstd::prelude::*;

verus! {

/// Declares `std::sync::Barrier`.
#[verifier::external_type_specification]
#[verifier::external_body]
pub struct ExBarrier(std::sync::Barrier);

/// Makes a barrier with `std::sync::Barrier::new`.
///
/// Trusted: nothing is claimed of the barrier.
#[verifier::external_body]
fn make_barrier(n: usize) -> (barrier: std::sync::Barrier) {
    std::sync::Barrier::new(n)
}

/// Waits with `std::sync::Barrier::wait`.
///
/// Trusted: nothing is claimed. The call returns once as many threads wait as the barrier
/// was made for; Verus has no notion of that.
#[verifier::external_body]
fn wait_at(barrier: &std::sync::Barrier) {
    barrier.wait();
}

/// Lets a number of threads wait for each other.
#[derive(Clone)]
pub struct TestBarrier {
    inner: Arc<std::sync::Barrier>,
    thread_count: usize,
}

impl TestBarrier {
    /// How many threads wait for each other.
    pub closed spec fn threads(&self) -> usize {
        self.thread_count
    }

    /// A barrier for `n` threads.
    pub fn new(n: usize) -> (barrier: Self)
        ensures
            barrier.threads() == n,
    {
        TestBarrier { inner: Arc::new(make_barrier(n)), thread_count: n }
    }

    /// Waits until all threads have arrived.
    pub fn wait(&self) {
        wait_at(&self.inner);
    }

    /// How many threads the barrier is for.
    pub fn thread_count(&self) -> (n: usize)
        ensures
            n == self.threads(),
    {
        self.thread_count
    }
}

} // verus!
