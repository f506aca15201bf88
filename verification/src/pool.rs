//! The options a test opens a database with.

use vstd::prelude::*;

verus! {

/// How large a buffer pool to open, the K of its replacer, the size at
/// which the log rolls to a new segment, and the device to keep the data
/// file on.
pub struct PoolOptions<D> {
    pub pool_size: usize,
    pub replacer_k: usize,
    pub segment_size: Option<u64>,
    pub data_device: Option<D>,
}

impl<D> PoolOptions<D> {
    /// Options for a pool of `pool_size` frames, with K = 2, the default
    /// segment size and a data file on disk.
    pub fn new(pool_size: usize) -> (o: Self)
        ensures
            o.pool_size == pool_size,
            o.replacer_k == 2,
            o.segment_size is None,
            o.data_device is None,
    {
        PoolOptions { pool_size, replacer_k: 2, segment_size: None, data_device: None }
    }

    pub fn replacer_k(self, k: usize) -> (o: Self)
        ensures
            o == (PoolOptions { replacer_k: k, ..self }),
    {
        PoolOptions { replacer_k: k, ..self }
    }

    pub fn segment_size(self, size: u64) -> (o: Self)
        ensures
            o == (PoolOptions { segment_size: Some(size), ..self }),
    {
        PoolOptions { segment_size: Some(size), ..self }
    }

    pub fn data_device(self, device: D) -> (o: Self)
        ensures
            o == (PoolOptions { data_device: Some(device), ..self }),
    {
        PoolOptions { data_device: Some(device), ..self }
    }
}

} // verus!
