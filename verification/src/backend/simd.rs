//! `SimdBackend`: a CPU backend whose non-diagonal single-qubit gates run on vector lanes.
//!
//! Everything else — diagonal gates, multi-qubit gates, threading — is delegated to
//! [`CpuBackend`] with the same threading choice.
use crate::backend::cpu::CpuBackend;
use vstd::prelude::*;

verus! {

/// SIMD CPU backend; `parallel` asks the caller's thread pool to split disjoint blocks.
#[derive(Clone, Copy, Debug)]
pub struct SimdBackend {
    parallel: bool,
}

impl SimdBackend {
    /// Whether this backend splits work across threads.
    pub closed spec fn is_parallel(&self) -> bool {
        self.parallel
    }

    /// Single-threaded.
    pub fn serial() -> (b: Self)
        ensures
            !b.is_parallel(),
    {
        Self { parallel: false }
    }

    /// Multithreaded above the size threshold; serial below it.
    pub fn parallel() -> (b: Self)
        ensures
            b.is_parallel(),
    {
        Self { parallel: true }
    }

    /// Whether this backend splits work across threads.
    pub fn threaded(&self) -> (p: bool)
        ensures
            p == self.is_parallel(),
    {
        self.parallel
    }

    /// The scalar backend delegated to for diagonal and multi-qubit gates: same threading.
    pub fn inner(&self) -> (c: CpuBackend)
        ensures
            c.is_parallel() == self.is_parallel(),
    {
        if self.parallel {
            CpuBackend::parallel()
        } else {
            CpuBackend::serial()
        }
    }
}

impl Default for SimdBackend {
    fn default() -> (b: Self)
        ensures
            b.is_parallel(),
    {
        Self::parallel()
    }
}

} // verus!
