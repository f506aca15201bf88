//! Byte-addressed block devices, and a fault-injecting wrapper used to
//! test crash safety.

use std::sync::atomic::{AtomicU64, Ordering};
use std::sync::Arc;

use rand::rngs::StdRng;
use vstd::prelude::*;

use crate::codec::splice;

verus! {

/// Why a device operation failed.
#[derive(Debug, Clone)]
pub enum DeviceError {
    /// A read asked for bytes past the device's end.
    UnexpectedEof,
    /// The fault injector refused write number `count`, past its armed `limit`.
    InjectedFault { count: u64, limit: u64 },
    /// An operating-system error, carried as its message.
    Other { message: String },
}

/// `n` zero bytes.
pub open spec fn zeros(n: nat) -> Seq<u8> {
    Seq::new(n, |i: int| 0u8)
}

/// The device content after growing or shrinking it to `len` bytes.
pub open spec fn resized(s: Seq<u8>, len: nat) -> Seq<u8> {
    if len <= s.len() {
        s.take(len as int)
    } else {
        s + zeros((len - s.len()) as nat)
    }
}

/// The device content after writing `buf` at `offset`: a write past the end
/// grows the device, zero-filling any gap.
pub open spec fn written(s: Seq<u8>, offset: nat, buf: Seq<u8>) -> Seq<u8> {
    let end = offset + buf.len();
    let base = if end > s.len() {
        resized(s, end)
    } else {
        s
    };
    splice(base, offset as int, buf)
}

/// A byte-addressed storage device, such as a file.
///
/// `contents` is what a read sees now; an implementation may keep part of
/// it volatile until `sync_all`.
pub trait BlockDevice {
    spec fn contents(&self) -> Seq<u8>;

    /// The implementation's own consistency condition.
    spec fn inv(&self) -> bool;

    /// Reads `len` bytes starting at `offset`.
    fn read_at(&self, offset: u64, len: usize) -> (r: Result<Vec<u8>, DeviceError>)
        requires
            self.inv(),
        ensures
            r is Ok ==> {
                &&& offset + len <= self.contents().len()
                &&& r->Ok_0@ == self.contents().subrange(offset as int, offset + len)
            },
    ;

    /// Writes `buf` at `offset`, growing the device if needed.
    fn write_at(&mut self, offset: u64, buf: &[u8]) -> (r: Result<(), DeviceError>)
        requires
            old(self).inv(),
        ensures
            final(self).inv(),
            r is Ok ==> final(self).contents() == written(old(self).contents(), offset as nat, buf@),
    ;

    /// Grows (zero-filling) or shrinks the device to `len` bytes.
    fn set_len(&mut self, len: u64) -> (r: Result<(), DeviceError>)
        requires
            old(self).inv(),
        ensures
            final(self).inv(),
            r is Ok ==> final(self).contents() == resized(old(self).contents(), len as nat),
    ;

    /// Makes everything written so far durable; what a read sees is unchanged.
    fn sync_all(&mut self) -> (r: Result<(), DeviceError>)
        requires
            old(self).inv(),
        ensures
            final(self).inv(),
            r is Ok ==> final(self).contents() == old(self).contents(),
    ;

    /// The device's length in bytes.
    fn size(&self) -> (r: Result<u64, DeviceError>)
        requires
            self.inv(),
        ensures
            r is Ok ==> r->Ok_0 == self.contents().len(),
    ;
}

/// Grows `v` with zeros or truncates it to `len` bytes.
fn resize_vec(v: &mut Vec<u8>, len: usize)
    ensures
        final(v)@ == resized(old(v)@, len as nat),
{
    let old_len = v.len();
    v.resize(len, 0u8);
    proof {
        if len > old_len {
            assert forall|i: int| old_len <= i < len implies #[trigger] v@[i] == 0u8 by {
                assert(cloned::<u8>(0u8, v@[i]));
            }
            assert(v@ =~= old(v)@ + zeros((len - old_len) as nat));
        } else {
            assert(v@ =~= old(v)@.take(len as int));
        }
    }
}

/// Writes `buf` at `offset` into `v`, growing it first when needed.
fn write_vec(v: &mut Vec<u8>, offset: usize, buf: &[u8])
    requires
        offset + buf@.len() <= usize::MAX,
    ensures
        final(v)@ == written(old(v)@, offset as nat, buf@),
{
    let end = offset + buf.len();
    if end > v.len() {
        resize_vec(v, end);
    }
    crate::codec::write_into(v, offset, buf);
}

/// A device held entirely in memory; every write is immediately durable.
pub struct MemDevice {
    data: Vec<u8>,
}

impl MemDevice {
    /// An empty device.
    pub fn new() -> (d: MemDevice)
        ensures
            d.inv(),
            d.contents() == Seq::<u8>::empty(),
    {
        MemDevice { data: Vec::new() }
    }

    /// A device holding a copy of `bytes`.
    pub fn from_bytes(bytes: &[u8]) -> (d: MemDevice)
        ensures
            d.inv(),
            d.contents() == bytes@,
    {
        let mut data = Vec::new();
        crate::codec::push_bytes(&mut data, bytes);
        MemDevice { data }
    }

    /// Every byte the device holds.
    pub fn bytes(&self) -> (b: &Vec<u8>)
        ensures
            b@ == self.contents(),
    {
        &self.data
    }
}

impl BlockDevice for MemDevice {
    closed spec fn contents(&self) -> Seq<u8> {
        self.data@
    }

    closed spec fn inv(&self) -> bool {
        true
    }

    fn read_at(&self, offset: u64, len: usize) -> (r: Result<Vec<u8>, DeviceError>)
        ensures
            r is Ok <==> offset + len <= self.contents().len(),
            r is Err ==> r->Err_0 is UnexpectedEof,
    {
        if offset > self.data.len() as u64 || len > self.data.len() - offset as usize {
            return Err(DeviceError::UnexpectedEof);
        }
        let start = offset as usize;
        let out = vstd::slice::slice_to_vec(vstd::slice::slice_subrange(self.data.as_slice(), start, start + len));
        Ok(out)
    }

    fn write_at(&mut self, offset: u64, buf: &[u8]) -> (r: Result<(), DeviceError>)
        ensures
            r is Ok <==> offset + buf@.len() <= usize::MAX,
            r is Err ==> final(self).contents() == old(self).contents(),
    {
        if offset > (usize::MAX - buf.len()) as u64 {
            return Err(DeviceError::Other { message: String::new() });
        }
        write_vec(&mut self.data, offset as usize, buf);
        Ok(())
    }

    fn set_len(&mut self, len: u64) -> (r: Result<(), DeviceError>)
        ensures
            r is Ok <==> len <= usize::MAX,
            r is Err ==> final(self).contents() == old(self).contents(),
    {
        if len > usize::MAX as u64 {
            return Err(DeviceError::Other { message: String::new() });
        }
        resize_vec(&mut self.data, len as usize);
        Ok(())
    }

    fn sync_all(&mut self) -> (r: Result<(), DeviceError>)
        ensures
            r is Ok,
            final(self).contents() == old(self).contents(),
    {
        Ok(())
    }

    fn size(&self) -> (r: Result<u64, DeviceError>)
        ensures
            r == Ok::<u64, DeviceError>(self.contents().len() as u64),
    {
        Ok(self.data.len() as u64)
    }
}


/// Byte-level access to a file that the library writes through to but
/// does not model: what the file holds is the file's own business.
pub trait RawFile {
    /// Writes `buf` at `offset`.
    fn write_at(&mut self, offset: u64, buf: &[u8]) -> Result<(), DeviceError>;

    /// Grows (zero-filling) or shrinks the file to `len` bytes.
    fn set_len(&mut self, len: u64) -> Result<(), DeviceError>;

    /// Makes everything written so far durable.
    fn sync_all(&mut self) -> Result<(), DeviceError>;
}

/// A device kept in memory and written through to a file: reads come
/// from the copy in memory, and every write, resize and sync goes to the
/// file first, the copy following only once the file took it.
pub struct WriteThrough<F: RawFile> {
    file: F,
    copy: MemDevice,
}

impl<F: RawFile> WriteThrough<F> {
    /// The device over `file`, whose bytes are `bytes`.
    pub fn new(file: F, bytes: &[u8]) -> (d: Self)
        ensures
            d.inv(),
            d.contents() == bytes@,
    {
        WriteThrough { file, copy: MemDevice::from_bytes(bytes) }
    }
}

impl<F: RawFile> BlockDevice for WriteThrough<F> {
    closed spec fn contents(&self) -> Seq<u8> {
        self.copy.contents()
    }

    closed spec fn inv(&self) -> bool {
        self.copy.inv()
    }

    fn read_at(&self, offset: u64, len: usize) -> (r: Result<Vec<u8>, DeviceError>)
        ensures
            r is Ok <==> offset + len <= self.contents().len(),
    {
        self.copy.read_at(offset, len)
    }

    fn write_at(&mut self, offset: u64, buf: &[u8]) -> (r: Result<(), DeviceError>)
        ensures
            r is Err ==> final(self).contents() == old(self).contents(),
    {
        match self.file.write_at(offset, buf) {
            Ok(()) => {},
            Err(e) => return Err(e),
        }
        self.copy.write_at(offset, buf)
    }

    fn set_len(&mut self, len: u64) -> (r: Result<(), DeviceError>)
        ensures
            r is Err ==> final(self).contents() == old(self).contents(),
    {
        match self.file.set_len(len) {
            Ok(()) => {},
            Err(e) => return Err(e),
        }
        self.copy.set_len(len)
    }

    fn sync_all(&mut self) -> (r: Result<(), DeviceError>)
        ensures
            final(self).contents() == old(self).contents(),
    {
        self.file.sync_all()
    }

    fn size(&self) -> (r: Result<u64, DeviceError>)
        ensures
            r == Ok::<u64, DeviceError>(self.contents().len() as u64),
    {
        self.copy.size()
    }
}

/// How a [`FaultyDevice`] behaves around the write it refuses.
#[derive(Debug, Clone, Copy, PartialEq, Eq, Structural)]
pub struct DurabilityModel {
    /// The refused write still lands partially: a subset of its 512-byte
    /// sectors reaches the device.
    pub tear_on_fault: bool,
    /// Writes and resizes stay volatile until `sync_all`.
    pub durable_only_on_sync: bool,
}

impl DurabilityModel {
    pub fn write_is_durable() -> (m: DurabilityModel)
        ensures
            m == (DurabilityModel { tear_on_fault: false, durable_only_on_sync: false }),
    {
        DurabilityModel { tear_on_fault: false, durable_only_on_sync: false }
    }

    pub fn requires_sync() -> (m: DurabilityModel)
        ensures
            m == (DurabilityModel { tear_on_fault: false, durable_only_on_sync: true }),
    {
        DurabilityModel { tear_on_fault: false, durable_only_on_sync: true }
    }

    pub fn torn_write() -> (m: DurabilityModel)
        ensures
            m == (DurabilityModel { tear_on_fault: true, durable_only_on_sync: false }),
    {
        DurabilityModel { tear_on_fault: true, durable_only_on_sync: false }
    }

    pub fn torn_write_requires_sync() -> (m: DurabilityModel)
        ensures
            m == (DurabilityModel { tear_on_fault: true, durable_only_on_sync: true }),
    {
        DurabilityModel { tear_on_fault: true, durable_only_on_sync: true }
    }
}

/// A write or resize that has not reached the inner device yet.
pub enum PendingOp {
    Write { offset: u64, bytes: Vec<u8> },
    SetLen(u64),
}

pub open spec fn apply_op(s: Seq<u8>, op: PendingOp) -> Seq<u8> {
    match op {
        PendingOp::Write { offset, bytes } => written(s, offset as nat, bytes@),
        PendingOp::SetLen(len) => resized(s, len as nat),
    }
}

/// The content after replaying `ops`, oldest first, over `s`.
pub open spec fn apply_pending(s: Seq<u8>, ops: Seq<PendingOp>) -> Seq<u8>
    decreases ops.len(),
{
    if ops.len() == 0 {
        s
    } else {
        apply_op(apply_pending(s, ops.drop_last()), ops.last())
    }
}

/// Replaying `a` then `b` is replaying `a + b`.
pub proof fn lemma_apply_pending_concat(s: Seq<u8>, a: Seq<PendingOp>, b: Seq<PendingOp>)
    ensures
        apply_pending(apply_pending(s, a), b) == apply_pending(s, a + b),
    decreases b.len(),
{
    if b.len() == 0 {
        assert(a + b =~= a);
    } else {
        lemma_apply_pending_concat(s, a, b.drop_last());
        assert((a + b).drop_last() =~= a + b.drop_last());
        assert((a + b).last() == b.last());
    }
}

pub const SECTOR_SIZE: usize = 512;

#[verifier::external_type_specification]
#[verifier::external_body]
pub struct ExStdRng(StdRng);

/// `rand`'s `SeedableRng::seed_from_u64` for `StdRng`: a generator whose
/// stream is fixed by `seed`. Nothing about the stream is stated.
#[verifier::external_body]
fn seeded_rng(seed: u64) -> StdRng {
    <StdRng as rand::SeedableRng>::seed_from_u64(seed)
}

/// `rand`'s `Rng::random_ratio(1, 2)`: the next fair coin flip of `rng`.
/// Nothing about its value is stated.
#[verifier::external_body]
fn coin_flip(rng: &mut StdRng) -> bool {
    rand::Rng::random_ratio(rng, 1, 2)
}

pub open spec fn strictly_increasing(s: Seq<usize>) -> bool {
    forall|i: int, j: int| 0 <= i < j < s.len() ==> s[i] < s[j]
}

/// A random proper, non-empty subset of `0..sector_count`, drawn from a
/// generator seeded with `seed`; empty when there is at most one sector.
pub fn random_sector_subset(sector_count: usize, seed: u64) -> (subset: Vec<usize>)
    ensures
        sector_count <= 1 ==> subset@.len() == 0,
        sector_count > 1 ==> 0 < subset@.len() < sector_count,
        strictly_increasing(subset@),
        forall|i: int| 0 <= i < subset@.len() ==> subset@[i] < sector_count,
{
    if sector_count <= 1 {
        return Vec::new();
    }
    let mut rng = seeded_rng(seed);
    let mut attempt: u64 = 0;
    while attempt < u64::MAX
        invariant
            sector_count > 1,
        decreases u64::MAX - attempt,
    {
        let mut subset: Vec<usize> = Vec::new();
        let mut i: usize = 0;
        while i < sector_count
            invariant
                i <= sector_count,
                subset@.len() <= i,
                strictly_increasing(subset@),
                forall|k: int| 0 <= k < subset@.len() ==> subset@[k] < i,
            decreases sector_count - i,
        {
            if coin_flip(&mut rng) {
                subset.push(i);
            }
            i = i + 1;
        }
        if subset.len() > 0 && subset.len() < sector_count {
            return subset;
        }
        attempt = attempt + 1;
    }
    let mut fallback = Vec::new();
    fallback.push(0);
    fallback
}

/// The entries of `s` below `n`, in order.
pub open spec fn sectors_below(s: Seq<usize>, n: usize) -> Seq<usize>
    decreases s.len(),
{
    if s.len() == 0 {
        Seq::empty()
    } else if s.last() < n {
        sectors_below(s.drop_last(), n).push(s.last())
    } else {
        sectors_below(s.drop_last(), n)
    }
}

/// A device that counts every write and resize against a shared counter
/// and refuses the ones past `fail_at`, as a crash at that point would.
pub struct FaultyDevice<D: BlockDevice> {
    inner: D,
    counter: Arc<AtomicU64>,
    fail_at: u64,
    model: DurabilityModel,
    pending: Vec<PendingOp>,
    tear_sectors: Option<Vec<usize>>,
}

/// Bumps the shared write counter, returning its value before the bump.
fn bump(counter: &Arc<AtomicU64>) -> u64 {
    counter.fetch_add(1, Ordering::AcqRel)
}

impl<D: BlockDevice> FaultyDevice<D> {
    pub closed spec fn inner_device(&self) -> D {
        self.inner
    }

    pub closed spec fn fail_at_spec(&self) -> u64 {
        self.fail_at
    }

    pub closed spec fn model_spec(&self) -> DurabilityModel {
        self.model
    }

    pub closed spec fn pending_ops(&self) -> Seq<PendingOp> {
        self.pending@
    }

    pub closed spec fn tear_sectors_spec(&self) -> Option<Seq<usize>> {
        match self.tear_sectors {
            Some(v) => Some(v@),
            None => None,
        }
    }

    /// What survives a crash: the inner device, without the writes still
    /// waiting for a sync.
    pub fn into_inner(self) -> (d: D)
        requires
            self.inv(),
        ensures
            d == self.inner_device(),
            d.inv(),
    {
        self.inner
    }

    /// A device whose writes are durable as soon as they succeed.
    pub fn new(inner: D, counter: Arc<AtomicU64>, fail_at: u64) -> (d: FaultyDevice<D>)
        requires
            inner.inv(),
        ensures
            d.inv(),
            d.contents() == inner.contents(),
            d.inner_device() == inner,
            d.fail_at_spec() == fail_at,
            d.model_spec() == (DurabilityModel { tear_on_fault: false, durable_only_on_sync: false }),
            d.tear_sectors_spec() is None,
    {
        Self::with_model(inner, counter, fail_at, DurabilityModel::write_is_durable())
    }

    pub fn with_model(inner: D, counter: Arc<AtomicU64>, fail_at: u64, model: DurabilityModel) -> (d:
        FaultyDevice<D>)
        requires
            inner.inv(),
        ensures
            d.inv(),
            d.contents() == inner.contents(),
            d.inner_device() == inner,
            d.fail_at_spec() == fail_at,
            d.model_spec() == model,
            d.pending_ops().len() == 0,
            d.tear_sectors_spec() is None,
    {
        FaultyDevice { inner, counter, fail_at, model, pending: Vec::new(), tear_sectors: None }
    }

    /// A tearing device whose refused write lands exactly on `sectors`
    /// (those within the write), instead of on a random subset.
    pub fn with_torn_sectors(
        inner: D,
        counter: Arc<AtomicU64>,
        fail_at: u64,
        model: DurabilityModel,
        sectors: Vec<usize>,
    ) -> (d: FaultyDevice<D>)
        requires
            inner.inv(),
        ensures
            d.inv(),
            d.contents() == inner.contents(),
            d.inner_device() == inner,
            d.fail_at_spec() == fail_at,
            d.model_spec() == model,
            d.tear_sectors_spec() == Some(sectors@),
    {
        let mut device = Self::with_model(inner, counter, fail_at, model);
        device.tear_sectors = Some(sectors);
        device
    }

    /// Counts one write against the shared counter; past `fail_at` it is
    /// refused.
    fn tick(&self) -> (r: Result<(), DeviceError>)
        ensures
            r is Err ==> (r->Err_0 matches DeviceError::InjectedFault { count, limit } && limit
                == self.fail_at && count > self.fail_at),
    {
        let before = bump(&self.counter);
        if before >= self.fail_at {
            let count = if before == u64::MAX {
                u64::MAX
            } else {
                before + 1
            };
            if count > self.fail_at {
                return Err(DeviceError::InjectedFault { count, limit: self.fail_at });
            }
        }
        Ok(())
    }

    /// Everything a read sees: the inner device with the pending operations
    /// replayed over it.
    fn materialized(&self) -> (r: Result<Vec<u8>, DeviceError>)
        requires
            self.inv(),
        ensures
            r is Ok ==> r->Ok_0@ == self.contents(),
    {
        let len = self.inner.size()?;
        if len > usize::MAX as u64 {
            return Err(DeviceError::Other { message: String::new() });
        }
        let mut buf = self.inner.read_at(0, len as usize)?;
        proof {
            assert(buf@ =~= self.inner.contents());
        }
        let mut i: usize = 0;
        while i < self.pending.len()
            invariant
                i <= self.pending@.len(),
                buf@ == apply_pending(self.inner.contents(), self.pending@.take(i as int)),
            decreases self.pending@.len() - i,
        {
            proof {
                assert(self.pending@.take(i as int + 1).drop_last() =~= self.pending@.take(i as int));
            }
            match &self.pending[i] {
                PendingOp::Write { offset, bytes } => {
                    if *offset > (usize::MAX - bytes.len()) as u64 {
                        return Err(DeviceError::Other { message: String::new() });
                    }
                    write_vec(&mut buf, *offset as usize, bytes.as_slice());
                },
                PendingOp::SetLen(new_len) => {
                    if *new_len > usize::MAX as u64 {
                        return Err(DeviceError::Other { message: String::new() });
                    }
                    resize_vec(&mut buf, *new_len as usize);
                },
            }
            i = i + 1;
        }
        proof {
            assert(self.pending@.take(i as int) =~= self.pending@);
        }
        Ok(buf)
    }

    /// The sectors of a refused write that land anyway.
    fn landed_sectors(&self, sector_count: usize) -> (landed: Vec<usize>)
        ensures
            forall|i: int| 0 <= i < landed@.len() ==> landed@[i] < sector_count,
            match self.tear_sectors_spec() {
                Some(explicit) => landed@ == sectors_below(explicit, sector_count),
                None => {
                    &&& sector_count <= 1 ==> landed@.len() == 0
                    &&& sector_count > 1 ==> 0 < landed@.len() < sector_count
                    &&& strictly_increasing(landed@)
                },
            },
    {
        match &self.tear_sectors {
            Some(explicit) => {
                let mut out: Vec<usize> = Vec::new();
                let mut i: usize = 0;
                while i < explicit.len()
                    invariant
                        i <= explicit@.len(),
                        forall|k: int| 0 <= k < out@.len() ==> out@[k] < sector_count,
                        out@ == sectors_below(explicit@.take(i as int), sector_count),
                    decreases explicit@.len() - i,
                {
                    proof {
                        assert(explicit@.take(i as int + 1).drop_last() =~= explicit@.take(i as int));
                    }
                    if explicit[i] < sector_count {
                        out.push(explicit[i]);
                    }
                    i = i + 1;
                }
                proof {
                    assert(explicit@.take(i as int) =~= explicit@);
                }
                out
            },
            None => random_sector_subset(sector_count, self.fail_at),
        }
    }

    /// Lets part of a refused write reach the inner device: each landed
    /// sector that lies within the device's current durable length.
    fn tear(&mut self, offset: u64, buf: &[u8])
        requires
            old(self).inv(),
        ensures
            final(self).inv(),
            final(self).pending@ == old(self).pending@,
            final(self).model == old(self).model,
            final(self).fail_at == old(self).fail_at,
            final(self).tear_sectors == old(self).tear_sectors,
    {
        let durable_len = match self.inner.size() {
            Ok(n) => n,
            Err(_) => return,
        };
        let sector_count = if buf.len() == 0 {
            1
        } else {
            (buf.len() - 1) / SECTOR_SIZE + 1
        };
        let landed = self.landed_sectors(sector_count);
        let mut i: usize = 0;
        while i < landed.len()
            invariant
                self.inner.inv(),
                self.pending@ == old(self).pending@,
                self.model == old(self).model,
                self.fail_at == old(self).fail_at,
                self.tear_sectors == old(self).tear_sectors,
                !self.model.durable_only_on_sync ==> self.pending@.len() == 0,
                i <= landed@.len(),
                sector_count == (if buf@.len() == 0 { 1 } else { (buf@.len() - 1) / 512 + 1 }),
                forall|k: int| 0 <= k < landed@.len() ==> landed@[k] < sector_count,
            decreases landed@.len() - i,
        {
            let index = landed[i];
            i = i + 1;
            assert(index * 512 <= buf.len()) by (nonlinear_arith)
                requires
                    index < sector_count,
                    sector_count == (if buf.len() == 0 { 1 } else { (buf.len() - 1) / 512 + 1 }),
            ;
            let start = index * SECTOR_SIZE;
            if start >= buf.len() {
                continue;
            }
            let end = if buf.len() - start > SECTOR_SIZE {
                start + SECTOR_SIZE
            } else {
                buf.len()
            };
            if offset > u64::MAX - end as u64 || offset + end as u64 > durable_len {
                continue;
            }
            let piece = vstd::slice::slice_subrange(buf, start, end);
            let _ = self.inner.write_at(offset + start as u64, piece);
        }
    }
}

impl<D: BlockDevice> BlockDevice for FaultyDevice<D> {
    closed spec fn contents(&self) -> Seq<u8> {
        apply_pending(self.inner.contents(), self.pending@)
    }

    closed spec fn inv(&self) -> bool {
        &&& self.inner.inv()
        &&& !self.model.durable_only_on_sync ==> self.pending@.len() == 0
    }

    fn read_at(&self, offset: u64, len: usize) -> (r: Result<Vec<u8>, DeviceError>) {
        if self.pending.len() == 0 {
            return self.inner.read_at(offset, len);
        }
        let materialized = self.materialized()?;
        if offset > materialized.len() as u64 || len > materialized.len() - offset as usize {
            return Err(DeviceError::UnexpectedEof);
        }
        let start = offset as usize;
        Ok(vstd::slice::slice_to_vec(vstd::slice::slice_subrange(materialized.as_slice(), start, start + len)))
    }

    fn write_at(&mut self, offset: u64, buf: &[u8]) -> (r: Result<(), DeviceError>)
        ensures
            final(self).model_spec() == old(self).model_spec(),
            final(self).fail_at_spec() == old(self).fail_at_spec(),
            final(self).tear_sectors_spec() == old(self).tear_sectors_spec(),
            old(self).model_spec().durable_only_on_sync && r is Ok ==> {
                &&& final(self).inner_device() == old(self).inner_device()
                &&& final(self).pending_ops().len() == old(self).pending_ops().len() + 1
                &&& final(self).pending_ops().drop_last() == old(self).pending_ops()
                &&& final(self).pending_ops().last() matches PendingOp::Write { offset: o, bytes }
                &&& o == offset
                &&& bytes@ == buf@
            },
            old(self).model_spec().durable_only_on_sync && r is Err ==> {
                &&& final(self).pending_ops() == old(self).pending_ops()
                &&& !old(self).model_spec().tear_on_fault ==> final(self).inner_device() == old(self).inner_device()
                &&& r->Err_0 matches DeviceError::InjectedFault { count, limit }
                &&& limit == old(self).fail_at_spec() && count > limit
            },
            !old(self).model_spec().durable_only_on_sync && r is Ok ==> final(self).inner_device().contents() == written(
                old(self).inner_device().contents(),
                offset as nat,
                buf@,
            ) && final(self).pending_ops().len() == 0,
    {
        if let Err(err) = self.tick() {
            if self.model.tear_on_fault {
                self.tear(offset, buf);
            }
            return Err(err);
        }
        if self.model.durable_only_on_sync {
            let bytes = vstd::slice::slice_to_vec(buf);
            self.pending.push(PendingOp::Write { offset, bytes });
            proof {
                assert(self.pending@.drop_last() =~= old(self).pending@);
            }
            Ok(())
        } else {
            self.inner.write_at(offset, buf)
        }
    }

    fn set_len(&mut self, len: u64) -> (r: Result<(), DeviceError>)
        ensures
            final(self).model_spec() == old(self).model_spec(),
            final(self).fail_at_spec() == old(self).fail_at_spec(),
            final(self).tear_sectors_spec() == old(self).tear_sectors_spec(),
            old(self).model_spec().durable_only_on_sync && r is Ok ==> {
                &&& final(self).inner_device() == old(self).inner_device()
                &&& final(self).pending_ops() == old(self).pending_ops().push(PendingOp::SetLen(len))
            },
            old(self).model_spec().durable_only_on_sync && r is Err ==> final(self).inner_device()
                == old(self).inner_device() && final(self).pending_ops() == old(self).pending_ops(),
    {
        self.tick()?;
        if self.model.durable_only_on_sync {
            self.pending.push(PendingOp::SetLen(len));
            proof {
                assert(self.pending@.drop_last() =~= old(self).pending@);
            }
            Ok(())
        } else {
            self.inner.set_len(len)
        }
    }

    fn sync_all(&mut self) -> (r: Result<(), DeviceError>)
        ensures
            final(self).pending_ops().len() == 0,
            final(self).model_spec() == old(self).model_spec(),
            final(self).fail_at_spec() == old(self).fail_at_spec(),
            final(self).tear_sectors_spec() == old(self).tear_sectors_spec(),
    {
        let mut ops: Vec<PendingOp> = Vec::new();
        std::mem::swap(&mut ops, &mut self.pending);
        let ghost base = self.inner.contents();
        let mut i: usize = 0;
        while i < ops.len()
            invariant
                self.inner.inv(),
                self.pending@.len() == 0,
                self.model == old(self).model,
                self.fail_at == old(self).fail_at,
                self.tear_sectors == old(self).tear_sectors,
                i <= ops@.len(),
                ops@ == old(self).pending@,
                base == old(self).inner.contents(),
                self.inner.contents() == apply_pending(base, ops@.take(i as int)),
            decreases ops@.len() - i,
        {
            proof {
                assert(ops@.take(i as int + 1).drop_last() =~= ops@.take(i as int));
            }
            match &ops[i] {
                PendingOp::Write { offset, bytes } => {
                    self.inner.write_at(*offset, bytes.as_slice())?;
                },
                PendingOp::SetLen(len) => {
                    self.inner.set_len(*len)?;
                },
            }
            i = i + 1;
        }
        proof {
            assert(ops@.take(i as int) =~= ops@);
        }
        self.inner.sync_all()
    }

    fn size(&self) -> (r: Result<u64, DeviceError>) {
        if self.pending.len() == 0 {
            return self.inner.size();
        }
        let materialized = self.materialized()?;
        Ok(materialized.len() as u64)
    }
}

} // verus!
