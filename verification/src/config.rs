use vstd::prelude::*;

verus! {

/// Enumeration of supported concurrency modes
#[derive(Debug, Clone, Copy, PartialEq, Eq, Structural)]
pub enum ConcurrencyMode {
    /// Sequential execution mode - components are executed in order within a single thread
    Sequential,
    /// Parallel execution mode - components of one stage can be executed concurrently
    Rayon,
}

impl Default for ConcurrencyMode {
    fn default() -> (r: Self)
        ensures
            r == ConcurrencyMode::Sequential,
    {
        ConcurrencyMode::Sequential
    }
}

/// Configuration for simulation execution
#[derive(Debug, Clone, Copy, PartialEq, Eq, Structural)]
pub struct SimulationConfig {
    /// The concurrency mode to use for execution
    pub concurrency_mode: ConcurrencyMode,
    /// The size of the thread pool for parallel execution; only relevant in
    /// the parallel mode
    pub thread_pool_size: Option<usize>,
}

impl SimulationConfig {
    /// Create a new simulation configuration: sequential, with no thread pool
    pub fn new() -> (r: Self)
        ensures
            r.concurrency_mode == ConcurrencyMode::Sequential,
            r.thread_pool_size is None,
    {
        SimulationConfig { concurrency_mode: ConcurrencyMode::default(), thread_pool_size: None }
    }

    /// Set the concurrency mode for the simulation
    pub fn with_concurrency(self, mode: ConcurrencyMode) -> (r: Self)
        ensures
            r.concurrency_mode == mode,
            r.thread_pool_size == self.thread_pool_size,
    {
        let mut c = self;
        c.concurrency_mode = mode;
        c
    }

    /// Set the thread pool size for parallel execution
    pub fn with_thread_pool_size(self, size: usize) -> (r: Self)
        ensures
            r.concurrency_mode == self.concurrency_mode,
            r.thread_pool_size == Some(size),
    {
        let mut c = self;
        c.thread_pool_size = Some(size);
        c
    }
}

impl Default for SimulationConfig {
    fn default() -> (r: Self)
        ensures
            r.concurrency_mode == ConcurrencyMode::Sequential,
            r.thread_pool_size is None,
    {
        Self::new()
    }
}

} // verus!
