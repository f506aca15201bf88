//! Devices and segment stores that wrap others for tests: counting reads,
//! and injecting faults into every segment a log opens.

use std::sync::atomic::{AtomicUsize, Ordering};
use std::sync::Arc;

use vstd::prelude::*;

use crate::block_device::{BlockDevice, DeviceError, DurabilityModel, FaultyDevice};
use crate::error::StorageError;
use crate::log_manager::SegmentStore;

verus! {

/// Adds `n` to a shared counter.
fn add_to(counter: &Arc<AtomicUsize>, n: usize) {
    counter.fetch_add(n, Ordering::Relaxed);
}

/// A device that counts the reads made through it and the bytes they
/// asked for; everything else goes straight to the device it wraps.
pub struct CountingDevice<D> {
    inner: D,
    calls: Arc<AtomicUsize>,
    bytes: Arc<AtomicUsize>,
}

impl<D: BlockDevice> CountingDevice<D> {
    pub closed spec fn inner_device(&self) -> D {
        self.inner
    }

    pub fn new(inner: D, calls: Arc<AtomicUsize>, bytes: Arc<AtomicUsize>) -> (d: Self)
        ensures
            d.inner_device() == inner,
    {
        CountingDevice { inner, calls, bytes }
    }
}

impl<D: BlockDevice> BlockDevice for CountingDevice<D> {
    closed spec fn contents(&self) -> Seq<u8> {
        self.inner.contents()
    }

    closed spec fn inv(&self) -> bool {
        self.inner.inv()
    }

    fn read_at(&self, offset: u64, len: usize) -> (r: Result<Vec<u8>, DeviceError>) {
        add_to(&self.calls, 1);
        add_to(&self.bytes, len);
        self.inner.read_at(offset, len)
    }

    fn write_at(&mut self, offset: u64, buf: &[u8]) -> (r: Result<(), DeviceError>) {
        self.inner.write_at(offset, buf)
    }

    fn set_len(&mut self, len: u64) -> (r: Result<(), DeviceError>) {
        self.inner.set_len(len)
    }

    fn sync_all(&mut self) -> (r: Result<(), DeviceError>) {
        self.inner.sync_all()
    }

    fn size(&self) -> (r: Result<u64, DeviceError>) {
        self.inner.size()
    }
}

/// A segment store that counts the segments it opens and wraps each in a
/// counting device.
pub struct CountingSegmentStore<S> {
    inner: S,
    calls: Arc<AtomicUsize>,
    bytes: Arc<AtomicUsize>,
    opens: Arc<AtomicUsize>,
}

impl<S: SegmentStore> CountingSegmentStore<S> {
    pub closed spec fn inner_store(&self) -> S {
        self.inner
    }

    pub fn new(inner: S, calls: Arc<AtomicUsize>, bytes: Arc<AtomicUsize>, opens: Arc<AtomicUsize>) -> (s: Self)
        ensures
            s.inner_store() == inner,
    {
        CountingSegmentStore { inner, calls, bytes, opens }
    }
}

impl<S: SegmentStore> SegmentStore for CountingSegmentStore<S> {
    type Device = CountingDevice<S::Device>;

    fn existing_segments(&self) -> (r: Result<Vec<u64>, StorageError>) {
        self.inner.existing_segments()
    }

    fn open(&self, id: u64) -> (r: Result<CountingDevice<S::Device>, StorageError>) {
        add_to(&self.opens, 1);
        match self.inner.open(id) {
            Ok(device) => Ok(CountingDevice::new(device, self.calls.clone(), self.bytes.clone())),
            Err(e) => Err(e),
        }
    }

    fn remove(&self, id: u64) -> (r: Result<(), StorageError>) {
        self.inner.remove(id)
    }
}

/// A segment store whose every segment is a fault-injecting device
/// sharing one write counter.
pub struct FaultySegmentStore<S> {
    inner: S,
    counter: Arc<std::sync::atomic::AtomicU64>,
    fail_at: u64,
    model: DurabilityModel,
}

impl<S: SegmentStore> FaultySegmentStore<S> {
    pub closed spec fn inner_store(&self) -> S {
        self.inner
    }

    pub closed spec fn fail_at_spec(&self) -> u64 {
        self.fail_at
    }

    pub closed spec fn model_spec(&self) -> DurabilityModel {
        self.model
    }

    pub fn new(inner: S, counter: Arc<std::sync::atomic::AtomicU64>, fail_at: u64, model: DurabilityModel) -> (s: Self)
        ensures
            s.inner_store() == inner,
            s.fail_at_spec() == fail_at,
            s.model_spec() == model,
    {
        FaultySegmentStore { inner, counter, fail_at, model }
    }
}

impl<S: SegmentStore> SegmentStore for FaultySegmentStore<S> {
    type Device = FaultyDevice<S::Device>;

    fn existing_segments(&self) -> (r: Result<Vec<u64>, StorageError>) {
        self.inner.existing_segments()
    }

    fn open(&self, id: u64) -> (r: Result<FaultyDevice<S::Device>, StorageError>)
        ensures
            r matches Ok(d) ==> {
                &&& d.fail_at_spec() == self.fail_at_spec()
                &&& d.model_spec() == self.model_spec()
                &&& d.pending_ops().len() == 0
                &&& d.tear_sectors_spec() is None
                &&& d.contents() == d.inner_device().contents()
            },
    {
        match self.inner.open(id) {
            Ok(device) => Ok(FaultyDevice::with_model(device, self.counter.clone(), self.fail_at, self.model)),
            Err(e) => Err(e),
        }
    }

    fn remove(&self, id: u64) -> (r: Result<(), StorageError>) {
        self.inner.remove(id)
    }
}

} // verus!
