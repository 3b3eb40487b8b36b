//! Bookkeeping types of the shuffle service.

use vstd::prelude::*;

verus! {

/// Statistics of a shuffle operation.
#[derive(Debug, Clone, Copy)]
pub struct ShuffleStatistics {
    pub data_count: usize,
    pub feature_count: usize,
    pub processing_time_ms: u64,
    pub memory_usage_bytes: usize,
    pub shuffle_rounds: usize,
}

impl ShuffleStatistics {
    pub fn set_processing_time(&mut self, time_ms: u64)
        ensures
            *final(self) == (ShuffleStatistics { processing_time_ms: time_ms, ..*old(self) }),
    {
        self.processing_time_ms = time_ms;
    }

    pub fn set_shuffle_rounds(&mut self, rounds: usize)
        ensures
            *final(self) == (ShuffleStatistics { shuffle_rounds: rounds, ..*old(self) }),
    {
        self.shuffle_rounds = rounds;
    }
}

/// Configuration of batch processing.
#[derive(Debug, Clone, Copy)]
pub struct BatchConfig {
    pub max_batch_size: usize,
    pub parallel_processing: bool,
    pub timeout_ms: Option<u64>,
}

impl Default for BatchConfig {
    /// Batches of 1000, processed in parallel, with a 30 s timeout.
    fn default() -> (r: BatchConfig)
        ensures
            r.max_batch_size == 1000,
            r.parallel_processing,
            r.timeout_ms == Some(30000u64),
    {
        BatchConfig { max_batch_size: 1000, parallel_processing: true, timeout_ms: Some(30000) }
    }
}

} // verus!
