//! The buffer pool: a fixed set of frames caching pages of the database
//! file, with LRU-K eviction, write-ahead logging of every page write, and
//! flushes that go through the double-write buffer.
//!
//! Callers pin a page by fetching it, read and write it through its frame,
//! and unpin it when done; only unpinned frames are evicted.

use vstd::prelude::*;

use crate::block_device::{written, BlockDevice};
use crate::codec::{le_u32_at, le_u64_at, read_u32, read_u64};
use crate::disk::{page_offset, DiskManager, CATALOG_FIRST_PAGE_START, INDEX_CATALOG_FIRST_PAGE_START, LAST_CHECKPOINT_LSN_START};
use crate::dwb::DoubleWriteBuffer;
use crate::error::StorageError;
use crate::ids::{FrameId, Lsn, PageId, TxnId};
use crate::keyed::KeyedVec;
use crate::log_manager::SegmentStore;
use crate::log_manager::LogManager;
use crate::page::{all_zero, spec_checksum_ok, spec_stamped, Page, PAGE_LSN_START, PAGE_SIZE};
use vstd::bytes::*;
use crate::codec::push_bytes;
use crate::recovery::{append_checked, appendable, stamped_write};
use crate::wal::{KindView, LogRecordKind, LoggedRecord};
use crate::log_manager::{after_append, after_flush, opt_lsn, spec_read_at, LogView};
use vstd::slice::*;
use crate::replacer::{FrameView, LruKReplacer};

verus! {

/// A page write the pool sent to the database file: the page, its LSN,
/// how far the log was durable when the write went out, and how far the
/// log had been appended to then.
#[derive(Clone, Copy, Debug)]
pub struct WriteObservation {
    pub page_id: PageId,
    pub page_lsn: Lsn,
    pub durable_lsn: Lsn,
    pub appended_lsn: Lsn,
}

/// The write went out behind the log: the log was durable past the page's
/// LSN, or nothing appended to it was still unflushed.
pub open spec fn wal_ordered(o: WriteObservation) -> bool {
    o.page_lsn.0 < o.durable_lsn.0 || o.durable_lsn.0 == o.appended_lsn.0
}

/// A frame: the page it holds, if any, how many users have it pinned, and
/// the LSN of the first write since it was last clean (0 when clean).
pub struct Frame {
    pub page: Page,
    pub page_id: Option<PageId>,
    pub pin_count: u32,
    pub dirty_since_lsn: u64,
}

/// Every frame is free, holds a page, or (only `owned`) is being filled:
/// the page table and the frames agree, free frames are listed once, and
/// the replacer may evict exactly the unpinned frames that hold a page.
pub open spec fn accounting(
    frames: Seq<Frame>,
    table: Map<u64, u32>,
    free: Seq<u32>,
    evictable: Map<u32, FrameView>,
    owned: Option<u32>,
) -> bool {
    &&& frames.len() < u32::MAX
    &&& forall|p: u64|
        #![trigger table[p]]
        table.dom().contains(p) ==> table[p] < frames.len() && frames[table[p] as int].page_id
            == Some(PageId(p as u32)) && p <= u32::MAX
    &&& forall|i: int|
        #![trigger frames[i]]
        0 <= i < frames.len() ==> match frames[i].page_id {
            Some(pid) => table.dom().contains(pid.0 as u64) && table[pid.0 as u64] == i
                && frames[i].page.spec_id() == pid && owned != Some(i as u32),
            None => frames[i].pin_count == 0 && (owned == Some(i as u32) || free.contains(i as u32)),
        }
    &&& forall|k: int| #![trigger free[k]] 0 <= k < free.len() ==> free[k] < frames.len() && frames[free[k] as int].page_id is None && owned != Some(free[k])
    &&& forall|a: int, b: int| 0 <= a < b < free.len() ==> free[a] != free[b]
    &&& forall|g: u32| #![trigger evictable.dom().contains(g)] evictable.dom().contains(g) ==> g < frames.len()
    &&& forall|i: int|
        #![trigger frames[i]]
        0 <= i < frames.len() ==> ((evictable.dom().contains(i as u32) && evictable[i as u32].1) <==> (
        frames[i].page_id is Some && frames[i].pin_count == 0))
    &&& owned matches Some(o) ==> o < frames.len() && frames[o as int].page_id is None
}

/// The log only got more durable: the same LSNs appended, the durable
/// LSN no lower, and all of it durable if all of it was.
pub open spec fn log_advanced(a: LogView, b: LogView) -> bool {
    &&& b.next_lsn == a.next_lsn
    &&& a.durable_lsn <= b.durable_lsn <= b.next_lsn
    &&& a.durable_lsn == a.next_lsn ==> b.durable_lsn == b.next_lsn
}

/// Each cached page that is dirty, with the LSN it is dirty since, in
/// frame order.
pub open spec fn dirty_entries(frames: Seq<Frame>) -> Seq<(PageId, Lsn)>
    decreases frames.len(),
{
    if frames.len() == 0 {
        Seq::empty()
    } else {
        let rest = dirty_entries(frames.drop_last());
        let f = frames.last();
        match f.page_id {
            Some(p) => if f.dirty_since_lsn != 0 {
                rest.push((p, Lsn(f.dirty_since_lsn)))
            } else {
                rest
            },
            None => rest,
        }
    }
}

/// What taking frame `f` to fill did to the database file: a dirty page
/// the frame held was written out, its checksum stamped, at its place;
/// otherwise the file is as it was.
pub open spec fn eviction_write<D: BlockDevice, W: BlockDevice, S: SegmentStore>(
    before: BufferPool<D, W, S>,
    after: BufferPool<D, W, S>,
    f: u32,
) -> bool {
    let o = before.frames()[f as int];
    if o.page_id is Some && o.dirty_since_lsn != 0 {
        after.spec_disk().contents() == written(
            before.spec_disk().contents(),
            page_offset(o.page.spec_id().0, before.spec_disk().spec_page_size()) as nat,
            spec_stamped(o.page.bytes()),
        )
    } else {
        after.spec_disk().contents() == before.spec_disk().contents()
    }
}

/// The file `c` of `ps`-byte pages once the pages held by the frames the
/// first `n` entries of `batch` name have been written to it, in order,
/// each with its checksum stamped.
pub open spec fn flushed_through(c: Seq<u8>, ps: usize, frames: Seq<Frame>, batch: Seq<(FrameId, PageId)>, n: int) -> Seq<u8>
    decreases n,
{
    if n <= 0 {
        c
    } else {
        let page = frames[batch[n - 1].0.0 as int].page;
        written(
            flushed_through(c, ps, frames, batch, n - 1),
            page_offset(page.spec_id().0, ps) as nat,
            spec_stamped(page.bytes()),
        )
    }
}

/// A buffer pool over a database file, its double-write buffer and its
/// write-ahead log.
pub struct BufferPool<D: BlockDevice, W: BlockDevice, S: SegmentStore> {
    disk: DiskManager<D>,
    dwb: DoubleWriteBuffer<W>,
    log: LogManager<S>,
    frames: Vec<Frame>,
    page_table: KeyedVec<u32>,
    free_list: Vec<u32>,
    replacer: LruKReplacer,
    poisoned: bool,
    observations: Vec<WriteObservation>,
}

impl<D: BlockDevice, W: BlockDevice, S: SegmentStore> BufferPool<D, W, S> {
    pub closed spec fn frames(&self) -> Seq<Frame> {
        self.frames@
    }

    /// An eviction failed to write its page out: from then on the pool
    /// neither fills a frame nor flushes.
    pub closed spec fn poisoned(&self) -> bool {
        self.poisoned
    }

    pub closed spec fn table(&self) -> Map<u64, u32> {
        self.page_table.view()
    }

    pub closed spec fn spec_disk(&self) -> DiskManager<D> {
        self.disk
    }

    pub closed spec fn spec_dwb(&self) -> DoubleWriteBuffer<W> {
        self.dwb
    }

    pub closed spec fn spec_log(&self) -> LogManager<S> {
        self.log
    }

    pub closed spec fn inv(&self) -> bool {
        &&& self.disk.inv()
        &&& self.dwb.inv()
        &&& self.log.inv()
        &&& self.page_table.inv()
        &&& self.replacer.inv()
        &&& accounting(self.frames@, self.page_table.view(), self.free_list@, self.replacer.entries(), None)
        &&& forall|i: int| 0 <= i < self.observations@.len() ==> wal_ordered(#[trigger] self.observations@[i])
    }

    /// The page writes the pool has sent to the database file, oldest first.
    pub closed spec fn spec_observations(&self) -> Seq<WriteObservation> {
        self.observations@
    }

    /// Whether `page_id` is cached in a frame that can be pinned once more:
    /// neither its pin count nor the replacer's access clock is at its
    /// limit.
    pub open spec fn pinnable(&self, page_id: PageId) -> bool {
        match self.frame_of_spec(page_id) {
            Some(f) => self.frames()[f as int].pin_count < u32::MAX && self.access_clock() < u64::MAX,
            None => false,
        }
    }

    /// The replacer's logical time: each pin of a page counts one access.
    pub closed spec fn access_clock(&self) -> u64 {
        self.replacer.spec_clock()
    }

    /// Whether a logged write of `after` at `at` of the header page would
    /// go through now: the header page can be pinned where it is cached,
    /// and the log has room for the update record.
    pub open spec fn header_update_ok(&self, at: int, after: Seq<u8>) -> bool {
        &&& self.pinnable(PageId(0))
        &&& appendable(
            self.spec_log().view(),
            KindView::Update {
                page_id: 0,
                offset: at as u16,
                before: self.frames()[self.frame_of_spec(PageId(0)).unwrap() as int].page.bytes().subrange(at, at + after.len()),
                after,
            },
        )
    }

    /// Whether `page_id` is cached, and in which frame.
    pub open spec fn frame_of_spec(&self, page_id: PageId) -> Option<u32> {
        if self.table().dom().contains(page_id.0 as u64) {
            Some(self.table()[page_id.0 as u64])
        } else {
            None
        }
    }

    /// A pool of `pool_size` free frames.
    pub fn new(
        disk: DiskManager<D>,
        dwb: DoubleWriteBuffer<W>,
        log: LogManager<S>,
        pool_size: usize,
        replacer: LruKReplacer,
    ) -> (pool: Self)
        requires
            disk.inv(),
            dwb.inv(),
            log.inv(),
            replacer.inv(),
            replacer.entries() == Map::<u32, FrameView>::empty(),
            pool_size < u32::MAX,
        ensures
            pool.inv(),
            pool.frames().len() == pool_size,
            forall|i: int| 0 <= i < pool_size ==> (#[trigger] pool.frames()[i]).page_id is None,
            pool.table() == Map::<u64, u32>::empty(),
            pool.spec_disk() == disk,
            pool.spec_dwb() == dwb,
            pool.spec_log() == log,
            !pool.poisoned(),
    {
        let mut frames: Vec<Frame> = Vec::new();
        let mut free_list: Vec<u32> = Vec::new();
        let mut i: usize = 0;
        while i < pool_size
            invariant
                i <= pool_size,
                pool_size < u32::MAX,
                frames@.len() == i,
                free_list@.len() == i,
                forall|k: int| 0 <= k < i ==> (#[trigger] frames@[k]).page_id is None && frames@[k].pin_count == 0,
                forall|k: int| 0 <= k < i ==> #[trigger] free_list@[k] == k,
            decreases pool_size - i,
        {
            frames.push(Frame { page: Page::new(PageId(0)), page_id: None, pin_count: 0, dirty_since_lsn: 0 });
            free_list.push(i as u32);
            i = i + 1;
        }
        let pool = BufferPool { disk, dwb, log, frames, page_table: KeyedVec::new(), free_list, replacer, poisoned: false, observations: Vec::new() };
        proof {
            assert forall|k: int| #![trigger pool.frames@[k]] 0 <= k < pool.frames@.len() implies pool.free_list@.contains(k as u32) by {
                assert(pool.free_list@[k] == k as u32);
            }
        }
        pool
    }

    /// The log is durable past `lsn`, or everything it holds is durable.
    pub open spec fn wal_covers(&self, lsn: u64) -> bool {
        lsn < self.spec_log().view().durable_lsn || self.spec_log().view().durable_lsn
            == self.spec_log().view().next_lsn
    }

    /// Writes the pages of `batch` out: makes the log durable up to the
    /// newest of their LSNs, writes them to the double-write buffer, then
    /// to the file, syncs the file and clears the double-write buffer; on
    /// success they are clean.
    fn flush_pages(&mut self, batch: &[(FrameId, PageId)]) -> (r: Result<(), StorageError>)
        requires
            old(self).disk.inv(),
            old(self).dwb.inv(),
            old(self).log.inv(),
            batch@.len() <= old(self).dwb.spec_capacity(),
            forall|k: int| 0 <= k < batch@.len() ==> (#[trigger] batch@[k]).0.0 < old(self).frames@.len(),
        ensures
            final(self).disk.inv(),
            final(self).dwb.inv(),
            final(self).log.inv(),
            final(self).disk.spec_page_size() == old(self).disk.spec_page_size(),
            final(self).disk.next_page_id() == old(self).disk.next_page_id(),
            final(self).dwb.spec_capacity() == old(self).dwb.spec_capacity(),
            final(self).page_table == old(self).page_table,
            final(self).free_list == old(self).free_list,
            final(self).replacer == old(self).replacer,
            final(self).poisoned == old(self).poisoned,
            old(self).poisoned && batch@.len() > 0 ==> (r matches Err(StorageError::FlushPoisoned)) && *final(self)
                == *old(self),
            batch@.len() == 0 ==> r is Ok && *final(self) == *old(self),
            final(self).frames@.len() == old(self).frames@.len(),
            forall|i: int|
                0 <= i < old(self).frames@.len() ==> {
                    let o = old(self).frames@[i];
                    let n = #[trigger] final(self).frames@[i];
                    &&& n.page == o.page
                    &&& n.page_id == o.page_id
                    &&& n.pin_count == o.pin_count
                    &&& (n.dirty_since_lsn == o.dirty_since_lsn || (r is Ok && n.dirty_since_lsn == 0))
                },
            log_advanced(old(self).log.view(), final(self).log.view()),
            r is Ok ==> forall|k: int|
                0 <= k < batch@.len() ==> final(self).frames@[(#[trigger] batch@[k]).0.0 as int].dirty_since_lsn == 0
                    && final(self).wal_covers(final(self).frames@[batch@[k].0.0 as int].page.page_lsn_spec()),
            r is Ok ==> final(self).disk.contents() == flushed_through(
                old(self).disk.contents(),
                old(self).disk.spec_page_size(),
                old(self).frames@,
                batch@,
                batch@.len() as int,
            ),
            r is Ok && batch@.len() > 0 ==> final(self).dwb.recorded_batch() is None,
            old(self).observations@.len() <= final(self).observations@.len(),
            forall|i: int|
                0 <= i < old(self).observations@.len() ==> #[trigger] final(self).observations@[i]
                    == old(self).observations@[i],
            forall|i: int|
                old(self).observations@.len() <= i < final(self).observations@.len() ==> wal_ordered(
                    #[trigger] final(self).observations@[i],
                ),
            final(self).disk.contents() != old(self).disk.contents() ==> final(self).observations@.len()
                == old(self).observations@.len() + batch@.len() && forall|k: int|
                0 <= k < batch@.len() ==> {
                    let o = #[trigger] final(self).observations@[old(self).observations@.len() + k];
                    let page = old(self).frames@[batch@[k].0.0 as int].page;
                    &&& o.page_id == page.spec_id()
                    &&& o.page_lsn.0 == page.page_lsn_spec()
                },
            final(self).disk.contents() != old(self).disk.contents() ==> forall|k: int|
                0 <= k < batch@.len() ==> final(self).wal_covers(
                    old(self).frames@[(#[trigger] batch@[k]).0.0 as int].page.page_lsn_spec(),
                ),
            r is Ok && batch@.len() == 1 ==> final(self).disk.contents() == written(
                old(self).disk.contents(),
                page_offset(old(self).frames@[batch@[0].0.0 as int].page.spec_id().0, old(self).disk.spec_page_size()) as nat,
                spec_stamped(old(self).frames@[batch@[0].0.0 as int].page.bytes()),
            ),
    {
        proof {
            self.log.lemma_counters();
        }
        if batch.len() == 0 {
            return Ok(());
        }
        if self.poisoned {
            return Err(StorageError::FlushPoisoned);
        }
        let mut snapshot: Vec<Page> = Vec::new();
        let mut max_lsn: u64 = 0;
        let mut k: usize = 0;
        while k < batch.len()
            invariant
                self.poisoned == old(self).poisoned,
                !old(self).poisoned,
                k <= batch@.len(),
                snapshot@.len() == k,
                *self == *old(self),
                forall|j: int| 0 <= j < batch@.len() ==> (#[trigger] batch@[j]).0.0 < self.frames@.len(),
                forall|j: int| 0 <= j < k ==> (#[trigger] snapshot@[j]).bytes() == self.frames@[batch@[j].0.0 as int].page.bytes()
                    && snapshot@[j].spec_id() == self.frames@[batch@[j].0.0 as int].page.spec_id(),
                forall|j: int| 0 <= j < k ==> self.frames@[(#[trigger] batch@[j]).0.0 as int].page.page_lsn_spec() <= max_lsn,
            decreases batch@.len() - k,
        {
            let page = &self.frames[batch[k].0.0 as usize].page;
            let copy = Page::from_bytes(page.id(), page.data());
            let lsn = page.page_lsn();
            if lsn.0 > max_lsn {
                max_lsn = lsn.0;
            }
            snapshot.push(copy);
            k = k + 1;
        }
        match self.log.flush(Lsn(max_lsn)) {
            Ok(()) => {},
            Err(e) => {
                proof {
                    self.log.lemma_counters();
                }
                return Err(e);
            },
        }
        let ghost log1 = self.log;
        proof {
            self.log.lemma_counters();
            assert(log_advanced(old(self).log.view(), log1.view()));
        }
        let ghost frames0 = self.frames@;
        proof {
            assert forall|j: int| 0 <= j < batch@.len() implies log1.view().durable_lsn > self.frames@[(#[trigger] batch@[j]).0.0 as int].page.page_lsn_spec()
                || log1.view().durable_lsn == log1.view().next_lsn by {
            }
        }
        let durable = self.log.durable_lsn();
        let appended = self.log.next_lsn();
        let ghost obs0 = self.observations@;
        let ghost pre = *self;
        let mut k: usize = 0;
        while k < snapshot.len()
            invariant
                k <= snapshot@.len(),
                snapshot@.len() == batch@.len(),
                self.disk == pre.disk,
                self.dwb == pre.dwb,
                self.log == pre.log,
                self.frames == pre.frames,
                self.page_table == pre.page_table,
                self.free_list == pre.free_list,
                self.replacer == pre.replacer,
                self.poisoned == pre.poisoned,
                obs0 == pre.observations@,
                durable.0 == log1.view().durable_lsn,
                appended.0 == log1.view().next_lsn,
                forall|j: int| 0 <= j < batch@.len() ==> (#[trigger] snapshot@[j]).bytes() == frames0[batch@[j].0.0 as int].page.bytes()
                    && snapshot@[j].spec_id() == frames0[batch@[j].0.0 as int].page.spec_id(),
                forall|j: int| 0 <= j < batch@.len() ==> log1.view().durable_lsn > frames0[(#[trigger] batch@[j]).0.0 as int].page.page_lsn_spec()
                    || log1.view().durable_lsn == log1.view().next_lsn,
                self.observations@.len() == obs0.len() + k,
                self.observations@.subrange(0, obs0.len() as int) == obs0,
                forall|j: int| 0 <= j < k ==> {
                    let o = #[trigger] self.observations@[obs0.len() + j];
                    &&& o.page_id == frames0[batch@[j].0.0 as int].page.spec_id()
                    &&& o.page_lsn.0 == frames0[batch@[j].0.0 as int].page.page_lsn_spec()
                    &&& o.durable_lsn == durable
                    &&& o.appended_lsn == appended
                },
            decreases snapshot@.len() - k,
        {
            let lsn = snapshot[k].page_lsn();
            let id = snapshot[k].id();
            let ghost before = self.observations@;
            self.observations.push(WriteObservation { page_id: id, page_lsn: lsn, durable_lsn: durable, appended_lsn: appended });
            proof {
                assert(self.observations@.subrange(0, obs0.len() as int) =~= before.subrange(0, obs0.len() as int));
                assert(self.observations@[obs0.len() + k] == self.observations@[before.len() as int]);
            }
            k = k + 1;
        }
        let ghost obs1 = self.observations@;
        proof {
            assert forall|i: int| obs0.len() <= i < obs1.len() implies wal_ordered(#[trigger] obs1[i]) by {
                let j = i - obs0.len();
                assert(obs1[obs0.len() + j] == obs1[i]);
            }
        }
        match self.dwb.write_batch(snapshot.as_slice()) {
            Ok(()) => {},
            Err(e) => return Err(e),
        }
        let mut k: usize = 0;
        while k < snapshot.len()
            invariant
                self.poisoned == old(self).poisoned,
                !old(self).poisoned,
                k <= snapshot@.len(),
                self.disk.inv(),
                self.disk.spec_page_size() == old(self).disk.spec_page_size(),
                self.disk.next_page_id() == old(self).disk.next_page_id(),
                self.dwb.inv(),
                self.dwb.spec_capacity() == old(self).dwb.spec_capacity(),
                self.log == log1,
                log1.inv(),
                log_advanced(old(self).log.view(), log1.view()),
                self.frames@ == frames0,
                frames0 == old(self).frames@,
                self.page_table == old(self).page_table,
                self.free_list == old(self).free_list,
                self.replacer == old(self).replacer,
                snapshot@.len() == batch@.len(),
                forall|j: int| 0 <= j < batch@.len() ==> (#[trigger] snapshot@[j]).bytes() == frames0[batch@[j].0.0 as int].page.bytes()
                    && snapshot@[j].spec_id() == frames0[batch@[j].0.0 as int].page.spec_id(),
                self.disk.contents() == flushed_through(
                    old(self).disk.contents(),
                    old(self).disk.spec_page_size(),
                    frames0,
                    batch@,
                    k as int,
                ),
                self.observations@ == obs1,
                obs1.len() == obs0.len() + batch@.len(),
                obs1.subrange(0, obs0.len() as int) == obs0,
                obs0 == old(self).observations@,
                forall|i: int| obs0.len() <= i < obs1.len() ==> wal_ordered(#[trigger] obs1[i]),
                forall|j: int| 0 <= j < batch@.len() ==> {
                    let o = #[trigger] obs1[obs0.len() + j];
                    &&& o.page_id == frames0[batch@[j].0.0 as int].page.spec_id()
                    &&& o.page_lsn.0 == frames0[batch@[j].0.0 as int].page.page_lsn_spec()
                },
                forall|j: int| 0 <= j < batch@.len() ==> log1.view().durable_lsn > frames0[(#[trigger] batch@[j]).0.0 as int].page.page_lsn_spec()
                    || log1.view().durable_lsn == log1.view().next_lsn,
            decreases snapshot@.len() - k,
        {
            let page = &snapshot[k];
            match self.disk.write_page(page.id(), page) {
                Ok(()) => {},
                Err(e) => return Err(e),
            }
            k = k + 1;
        }
        proof {
            if batch@.len() == 1 {
                assert(flushed_through(old(self).disk.contents(), old(self).disk.spec_page_size(), frames0, batch@, 0)
                    == old(self).disk.contents());
            }
        }
        match self.disk.sync() {
            Ok(()) => {},
            Err(e) => return Err(e),
        }
        match self.dwb.clear_batch() {
            Ok(()) => {},
            Err(e) => return Err(e),
        }
        let ghost frames1 = self.frames@;
        let ghost disk1 = self.disk;
        let mut k: usize = 0;
        while k < batch.len()
            invariant
                self.poisoned == old(self).poisoned,
                !old(self).poisoned,
                k <= batch@.len(),
                self.disk == disk1,
                self.log == log1,
                log1.inv(),
                log_advanced(old(self).log.view(), log1.view()),
                self.disk.inv(),
                self.disk.spec_page_size() == old(self).disk.spec_page_size(),
                self.disk.next_page_id() == old(self).disk.next_page_id(),
                self.dwb.inv(),
                self.dwb.spec_capacity() == old(self).dwb.spec_capacity(),
                self.page_table == old(self).page_table,
                self.free_list == old(self).free_list,
                self.replacer == old(self).replacer,
                frames1 == old(self).frames@,
                self.dwb.recorded_batch() is None,
                self.observations@ == obs1,
                obs1.len() == obs0.len() + batch@.len(),
                obs1.subrange(0, obs0.len() as int) == obs0,
                obs0 == old(self).observations@,
                forall|i: int| obs0.len() <= i < obs1.len() ==> wal_ordered(#[trigger] obs1[i]),
                forall|j: int| 0 <= j < batch@.len() ==> {
                    let o = #[trigger] obs1[obs0.len() + j];
                    &&& o.page_id == frames0[batch@[j].0.0 as int].page.spec_id()
                    &&& o.page_lsn.0 == frames0[batch@[j].0.0 as int].page.page_lsn_spec()
                },
                forall|j: int| 0 <= j < batch@.len() ==> log1.view().durable_lsn > frames1[(#[trigger] batch@[j]).0.0 as int].page.page_lsn_spec()
                    || log1.view().durable_lsn == log1.view().next_lsn,
                self.frames@.len() == frames1.len(),
                forall|j: int| 0 <= j < batch@.len() ==> (#[trigger] batch@[j]).0.0 < self.frames@.len(),
                forall|i: int|
                    0 <= i < frames1.len() ==> {
                        let o = frames1[i];
                        let n = #[trigger] self.frames@[i];
                        &&& n.page == o.page
                        &&& n.page_id == o.page_id
                        &&& n.pin_count == o.pin_count
                        &&& (n.dirty_since_lsn == o.dirty_since_lsn || n.dirty_since_lsn == 0)
                    },
                forall|j: int| 0 <= j < k ==> self.frames@[(#[trigger] batch@[j]).0.0 as int].dirty_since_lsn == 0,
            decreases batch@.len() - k,
        {
            let idx = batch[k].0.0 as usize;
            let ghost before = self.frames@;
            let mut fr = self.frames.remove(idx);
            fr.dirty_since_lsn = 0;
            self.frames.insert(idx, fr);
            proof {
                assert(self.frames@ =~= before.update(idx as int, fr));
            }
            k = k + 1;
        }
        Ok(())
    }

    /// The page writes the pool has sent to the database file, oldest
    /// first. Each went out behind the log: the log was durable past the
    /// page's LSN, or held nothing unflushed.
    pub fn write_observations(&self) -> (r: Vec<WriteObservation>)
        requires
            self.inv(),
        ensures
            r@ == self.spec_observations(),
            forall|i: int| 0 <= i < r@.len() ==> wal_ordered(#[trigger] r@[i]),
    {
        let mut out: Vec<WriteObservation> = Vec::new();
        let mut i: usize = 0;
        while i < self.observations.len()
            invariant
                i <= self.observations@.len(),
                out@ == self.observations@.subrange(0, i as int),
            decreases self.observations@.len() - i,
        {
            out.push(self.observations[i]);
            i = i + 1;
            assert(out@ =~= self.observations@.subrange(0, i as int));
        }
        assert(out@ =~= self.observations@);
        out
    }

    /// The frame caching `page_id`, if it is cached.
    pub fn frame_of(&self, page_id: PageId) -> (r: Option<FrameId>)
        requires
            self.inv(),
        ensures
            r == (match self.frame_of_spec(page_id) {
                Some(f) => Some(FrameId(f)),
                None => None::<FrameId>,
            }),
    {
        match self.page_table.get(page_id.0 as u64) {
            Some(f) => Some(FrameId(*f)),
            None => None,
        }
    }

    /// The page held in `frame`.
    pub fn page(&self, frame: FrameId) -> (p: &Page)
        requires
            self.inv(),
            frame.0 < self.frames().len(),
        ensures
            *p == self.frames()[frame.0 as int].page,
    {
        &self.frames[frame.0 as usize].page
    }

    /// Releases one pin on `frame`; once none is left it may be evicted.
    /// A frame with no pin is left as it is.
    pub fn unpin(&mut self, frame: FrameId)
        requires
            old(self).inv(),
            frame.0 < old(self).frames().len(),
        ensures
            final(self).poisoned() == old(self).poisoned(),
            final(self).inv(),
            final(self).table() == old(self).table(),
            final(self).spec_disk() == old(self).spec_disk(),
            final(self).spec_dwb() == old(self).spec_dwb(),
            final(self).spec_log() == old(self).spec_log(),
            final(self).access_clock() == old(self).access_clock(),
            final(self).frames().len() == old(self).frames().len(),
            forall|i: int| 0 <= i < old(self).frames().len() && i != frame.0 ==> #[trigger] final(self).frames()[i] == old(self).frames()[i],
            ({
                let o = old(self).frames()[frame.0 as int];
                let n = final(self).frames()[frame.0 as int];
                &&& n.page == o.page
                &&& n.page_id == o.page_id
                &&& n.dirty_since_lsn == o.dirty_since_lsn
                &&& n.pin_count == (if o.pin_count > 0 { o.pin_count - 1 } else { 0 })
            }),
    {
        let idx = frame.0 as usize;
        let current = self.frames[idx].pin_count;
        if current == 0 {
            return;
        }
        let ghost frames0 = self.frames@;
        let ghost ev0 = self.replacer.entries();
        let mut fr = self.frames.remove(idx);
        fr.pin_count = current - 1;
        self.frames.insert(idx, fr);
        proof {
            assert(self.frames@ =~= frames0.update(idx as int, fr));
        }
        if current == 1 {
            self.replacer.set_evictable(frame, true);
        }
        proof {
            let frames1 = self.frames@;
            let ev1 = self.replacer.entries();
            assert forall|i: int| #![trigger frames1[i]] 0 <= i < frames1.len() implies ((ev1.dom().contains(i as u32) && ev1[i as u32].1) <==> (
                frames1[i].page_id is Some && frames1[i].pin_count == 0)) by {
                if i != idx {
                    assert(frames1[i] == frames0[i]);
                    assert(frames0[i].page_id is Some && frames0[i].pin_count == 0 <==> (ev0.dom().contains(i as u32) && ev0[i as u32].1));
                }
            }
        }
    }
    /// Everything the pool keeps consistent, with `owned` the frame being
    /// filled, if any.
    spec fn inv_owned(&self, owned: Option<u32>) -> bool {
        &&& self.disk.inv()
        &&& self.dwb.inv()
        &&& self.log.inv()
        &&& self.page_table.inv()
        &&& self.replacer.inv()
        &&& accounting(self.frames@, self.page_table.view(), self.free_list@, self.replacer.entries(), owned)
        &&& forall|i: int| 0 <= i < self.observations@.len() ==> wal_ordered(#[trigger] self.observations@[i])
    }

    /// Pins the resident `frame` once more and records an access to it.
    fn pin_resident(&mut self, frame: u32) -> (r: Result<(), StorageError>)
        requires
            old(self).inv(),
            frame < old(self).frames@.len(),
            old(self).frames@[frame as int].page_id is Some,
        ensures
            final(self).poisoned == old(self).poisoned,
            final(self).inv(),
            final(self).disk == old(self).disk,
            final(self).dwb == old(self).dwb,
            final(self).log == old(self).log,
            final(self).page_table == old(self).page_table,
            final(self).frames@.len() == old(self).frames@.len(),
            forall|i: int| 0 <= i < old(self).frames@.len() && i != frame ==> #[trigger] final(self).frames@[i] == old(self).frames@[i],
            ({
                let o = old(self).frames@[frame as int];
                let n = final(self).frames@[frame as int];
                &&& n.page == o.page
                &&& n.page_id == o.page_id
                &&& n.dirty_since_lsn == o.dirty_since_lsn
                &&& r is Ok ==> n.pin_count == o.pin_count + 1
                &&& r is Err ==> n == o
            }),
            r is Err ==> (r matches Err(StorageError::BufferPoolExhausted)),
            r is Ok <==> (old(self).frames@[frame as int].pin_count < u32::MAX && old(self).replacer.spec_clock() < u64::MAX),
            r is Ok ==> final(self).replacer.spec_clock() == old(self).replacer.spec_clock() + 1,
            r is Err ==> *final(self) == *old(self),
    {
        let idx = frame as usize;
        if self.frames[idx].pin_count == u32::MAX || self.replacer.clock() == u64::MAX {
            return Err(StorageError::BufferPoolExhausted);
        }
        let ghost frames0 = self.frames@;
        let mut fr = self.frames.remove(idx);
        fr.pin_count = fr.pin_count + 1;
        self.frames.insert(idx, fr);
        proof {
            assert(self.frames@ =~= frames0.update(idx as int, fr));
        }
        self.replacer.record_access(FrameId(frame));
        self.replacer.set_evictable(FrameId(frame), false);
        proof {
            let frames1 = self.frames@;
            let ev1 = self.replacer.entries();
            let ev0 = old(self).replacer.entries();
            assert forall|i: int| #![trigger frames1[i]] 0 <= i < frames1.len() implies ((ev1.dom().contains(i as u32) && ev1[i as u32].1) <==> (
                frames1[i].page_id is Some && frames1[i].pin_count == 0)) by {
                if i != idx {
                    assert(frames1[i] == frames0[i]);
                    assert(frames0[i].page_id is Some && frames0[i].pin_count == 0 <==> (ev0.dom().contains(i as u32) && ev0[i as u32].1));
                }
            }
            assert forall|g: u32| #![trigger ev1.dom().contains(g)] ev1.dom().contains(g) implies g < frames1.len() by {
                if g != frame {
                    assert(ev0.dom().contains(g));
                }
            }
        }
        Ok(())
    }

    /// Takes a frame to fill: a free one, else the replacer's victim,
    /// written out first when dirty. With every frame pinned there is none.
    fn acquire_free_frame(&mut self) -> (r: Result<u32, StorageError>)
        requires
            old(self).inv(),
        ensures
            r matches Ok(f) ==> final(self).inv_owned(Some(f)),
            r is Err ==> final(self).inv(),
            final(self).disk.spec_page_size() == old(self).disk.spec_page_size(),
            final(self).disk.next_page_id() == old(self).disk.next_page_id(),
            final(self).dwb.spec_capacity() == old(self).dwb.spec_capacity(),
            final(self).frames@.len() == old(self).frames@.len(),
            forall|i: int|
                0 <= i < old(self).frames@.len() && old(self).frames@[i].page_id is Some ==> {
                    let o = old(self).frames@[i];
                    let n = #[trigger] final(self).frames@[i];
                    &&& n.page == o.page
                    &&& n.pin_count == o.pin_count
                    &&& (n.page_id == o.page_id || (r == Ok::<u32, StorageError>(i as u32) && o.pin_count == 0 && n.page_id is None))
                },
            forall|p: u64| #[trigger] final(self).page_table.view().dom().contains(p) ==> old(self).page_table.view().dom().contains(p)
                && final(self).page_table.view()[p] == old(self).page_table.view()[p],
            r matches Ok(f) ==> f < old(self).frames@.len() && eviction_write(*old(self), *final(self), f),
            old(self).poisoned ==> (r matches Err(StorageError::FlushPoisoned)) && *final(self) == *old(self),
            old(self).poisoned ==> final(self).poisoned,
            r is Err && !(r matches Err(StorageError::BufferPoolExhausted)) ==> final(self).poisoned,
            !old(self).poisoned && old(self).free_list@.len() > 0 ==> r == Ok::<u32, StorageError>(old(self).free_list@.last())
                && final(self).free_list@ == old(self).free_list@.drop_last(),
            !old(self).poisoned && old(self).free_list@.len() == 0 && (forall|g: u32| #![trigger old(self).replacer.entries()[g]]
                old(self).replacer.entries().dom().contains(g) ==> !old(self).replacer.entries()[g].1)
                ==> (r matches Err(StorageError::BufferPoolExhausted)),
            !old(self).poisoned && old(self).free_list@.len() == 0 && (forall|g: u32| #![trigger old(self).replacer.entries()[g]]
                old(self).replacer.entries().dom().contains(g) && old(self).replacer.entries()[g].1
                ==> old(self).frames@[g as int].dirty_since_lsn == 0)
                ==> (r is Ok <==> exists|g: u32| #![trigger old(self).replacer.entries()[g]]
                    old(self).replacer.entries().dom().contains(g) && old(self).replacer.entries()[g].1),
    {
        let ghost pool0 = *self;
        if self.poisoned {
            return Err(StorageError::FlushPoisoned);
        }
        if self.free_list.len() > 0 {
            let f = self.free_list.pop().unwrap();
            proof {
                let free0 = pool0.free_list@;
                assert(free0 =~= self.free_list@.push(f));
                assert forall|i: int| #![trigger self.frames@[i]] 0 <= i < self.frames@.len() && self.frames@[i].page_id is None && i != f implies self.free_list@.contains(i as u32) by {
                    assert(free0.contains(i as u32));
                    let k = choose|k: int| 0 <= k < free0.len() && free0[k] == i as u32;
                    assert(k < self.free_list@.len());
                    assert(self.free_list@[k] == i as u32);
                }
                assert forall|k: int| #![trigger self.free_list@[k]] 0 <= k < self.free_list@.len() implies self.free_list@[k] != f by {
                    assert(free0[k] != free0[free0.len() - 1]);
                }
            }
            return Ok(f);
        }
        let victim = match self.replacer.evict() {
            Some(v) => v,
            None => {
                return Err(StorageError::BufferPoolExhausted);
            },
        };
        let idx = victim.0 as usize;
        let victim_page = match self.frames[idx].page_id {
            Some(p) => p,
            None => {
                proof {
                    assert(pool0.replacer.entries().dom().contains(victim.0));
                    assert(false);
                }
                return Err(StorageError::BufferPoolExhausted);
            },
        };
        if self.frames[idx].dirty_since_lsn != 0 {
            let batch = [(victim, victim_page)];
            proof {
                self.dwb.lemma_capacity_bounds();
            }
            match self.flush_pages(batch.as_slice()) {
                Ok(()) => {},
                Err(e) => {
                    if self.replacer.clock() < u64::MAX {
                        self.replacer.record_access(victim);
                    }
                    self.replacer.set_evictable(victim, true);
                    self.poisoned = true;
                    return Err(e);
                },
            }
        }
        let ghost table0 = self.page_table.view();
        self.page_table.remove(victim_page.0 as u64);
        let ghost frames0 = self.frames@;
        let mut fr = self.frames.remove(idx);
        fr.page_id = None;
        self.frames.insert(idx, fr);
        proof {
            assert(self.frames@ =~= frames0.update(idx as int, fr));
        }
        Ok(victim.0)
    }
    /// Hands the frame being filled back to the free list.
    fn release_owned(&mut self, frame: u32)
        requires
            old(self).inv_owned(Some(frame)),
        ensures
            final(self).poisoned == old(self).poisoned,
            final(self).inv(),
            final(self).disk == old(self).disk,
            final(self).dwb == old(self).dwb,
            final(self).log == old(self).log,
            final(self).frames@ == old(self).frames@,
            final(self).page_table == old(self).page_table,
    {
        let ghost free0 = self.free_list@;
        self.free_list.push(frame);
        proof {
            assert forall|k: int| #![trigger self.free_list@[k]] 0 <= k < self.free_list@.len() implies self.free_list@[k] < self.frames@.len()
                && self.frames@[self.free_list@[k] as int].page_id is None by {
                if k < free0.len() {
                    assert(self.free_list@[k] == free0[k]);
                }
            }
            assert forall|a: int, b: int| 0 <= a < b < self.free_list@.len() implies self.free_list@[a] != self.free_list@[b] by {
                if b == free0.len() {
                    assert(self.free_list@[a] == free0[a]);
                }
            }
            assert forall|i: int| #![trigger self.frames@[i]] 0 <= i < self.frames@.len() && self.frames@[i].page_id is None implies self.free_list@.contains(i as u32) by {
                if i == frame {
                    assert(self.free_list@[free0.len() as int] == frame);
                } else {
                    let k = choose|k: int| 0 <= k < free0.len() && free0[k] == i as u32;
                    assert(self.free_list@[k] == i as u32);
                }
            }
        }
    }

    /// Puts `page` into the frame being filled, pinned once; when another
    /// frame already caches the page, that one is pinned instead and the
    /// frame goes back to the free list.
    fn try_install(&mut self, frame: u32, page_id: PageId, page: Page, dirty_since_lsn: u64) -> (r:
        Result<u32, StorageError>)
        requires
            old(self).inv_owned(Some(frame)),
            page.spec_id() == page_id,
        ensures
            final(self).poisoned == old(self).poisoned,
            final(self).inv(),
            final(self).disk == old(self).disk,
            final(self).dwb == old(self).dwb,
            final(self).log == old(self).log,
            final(self).frames@.len() == old(self).frames@.len(),
            old(self).page_table.view().dom().contains(page_id.0 as u64) ==> {
                let w = old(self).page_table.view()[page_id.0 as u64];
                &&& final(self).page_table == old(self).page_table
                &&& forall|i: int| 0 <= i < old(self).frames@.len() && i != w ==> #[trigger] final(self).frames@[i] == old(self).frames@[i]
                &&& r is Ok ==> r == Ok::<u32, StorageError>(w) && final(self).frames@[w as int].page == old(self).frames@[w as int].page
                    && final(self).frames@[w as int].page_id == old(self).frames@[w as int].page_id
                    && final(self).frames@[w as int].dirty_since_lsn == old(self).frames@[w as int].dirty_since_lsn
                    && final(self).frames@[w as int].pin_count == old(self).frames@[w as int].pin_count + 1
                &&& r is Err ==> final(self).frames@[w as int] == old(self).frames@[w as int]
            },
            !old(self).page_table.view().dom().contains(page_id.0 as u64) ==> {
                &&& forall|i: int| 0 <= i < old(self).frames@.len() && i != frame ==> #[trigger] final(self).frames@[i] == old(self).frames@[i]
                &&& r is Ok ==> r == Ok::<u32, StorageError>(frame) && final(self).page_table.view() == old(self).page_table.view().insert(page_id.0 as u64, frame)
                    && final(self).frames@[frame as int] == (Frame { page, page_id: Some(page_id), pin_count: 1, dirty_since_lsn })
                &&& r is Err ==> final(self).page_table == old(self).page_table
            },
            r is Err ==> (r matches Err(StorageError::BufferPoolExhausted)),
    {
        match self.page_table.get(page_id.0 as u64) {
            Some(w) => {
                let w = *w;
                self.release_owned(frame);
                return match self.pin_resident(w) {
                    Ok(()) => Ok(w),
                    Err(e) => Err(e),
                };
            },
            None => {},
        }
        if self.replacer.clock() == u64::MAX {
            self.release_owned(frame);
            return Err(StorageError::BufferPoolExhausted);
        }
        let idx = frame as usize;
        let ghost frames0 = self.frames@;
        let fr = Frame { page, page_id: Some(page_id), pin_count: 1, dirty_since_lsn };
        let _old = self.frames.remove(idx);
        self.frames.insert(idx, fr);
        proof {
            assert(self.frames@ =~= frames0.update(idx as int, fr));
        }
        self.page_table.insert(page_id.0 as u64, frame);
        self.replacer.record_access(FrameId(frame));
        self.replacer.set_evictable(FrameId(frame), false);
        proof {
            let frames1 = self.frames@;
            let ev1 = self.replacer.entries();
            let ev0 = old(self).replacer.entries();
            let t1 = self.page_table.view();
            let t0 = old(self).page_table.view();
            assert forall|i: int| #![trigger frames1[i]] 0 <= i < frames1.len() implies ((ev1.dom().contains(i as u32) && ev1[i as u32].1) <==> (
                frames1[i].page_id is Some && frames1[i].pin_count == 0)) by {
                if i != idx {
                    assert(frames1[i] == frames0[i]);
                    assert(frames0[i].page_id is Some && frames0[i].pin_count == 0 <==> (ev0.dom().contains(i as u32) && ev0[i as u32].1));
                }
            }
            assert forall|g: u32| #![trigger ev1.dom().contains(g)] ev1.dom().contains(g) implies g < frames1.len() by {
                if g != frame {
                    assert(ev0.dom().contains(g));
                }
            }
            assert forall|q: u64| #![trigger t1[q]] t1.dom().contains(q) implies t1[q] < frames1.len() && frames1[t1[q] as int].page_id
                == Some(PageId(q as u32)) && q <= u32::MAX by {
                if q != page_id.0 as u64 {
                    assert(t0.dom().contains(q));
                    assert(t0[q] != frame);
                }
            }
            assert forall|k: int| #![trigger self.free_list@[k]] 0 <= k < self.free_list@.len() implies self.free_list@[k] < frames1.len() && frames1[self.free_list@[k] as int].page_id is None && self.free_list@[k] != frame by {
            }
            assert forall|i: int| #![trigger frames1[i]] 0 <= i < frames1.len() implies match frames1[i].page_id {
                Some(pid) => t1.dom().contains(pid.0 as u64) && t1[pid.0 as u64] == i
                    && frames1[i].page.spec_id() == pid,
                None => frames1[i].pin_count == 0 && self.free_list@.contains(i as u32),
            } by {
                if i != idx {
                    assert(frames1[i] == frames0[i]);
                    match frames0[i].page_id {
                        Some(pid) => {
                            assert(pid.0 as u64 != page_id.0 as u64);
                        },
                        None => {},
                    }
                }
            }
        }
        Ok(frame)
    }

    /// Pins `page_id` in a frame, reading it from the file when it is not
    /// cached (which may evict another page, written out first when
    /// dirty), and gives the frame.
    pub fn fetch_page(&mut self, page_id: PageId) -> (r: Result<FrameId, StorageError>)
        requires
            old(self).inv(),
        ensures
            final(self).inv(),
            final(self).frames().len() == old(self).frames().len(),
            final(self).spec_disk().spec_page_size() == old(self).spec_disk().spec_page_size(),
            final(self).spec_disk().next_page_id() == old(self).spec_disk().next_page_id(),
            r matches Ok(f) ==> f.0 < final(self).frames().len() && final(self).frames()[f.0 as int].page_id
                == Some(page_id) && final(self).frame_of_spec(page_id) == Some(f.0),
            r is Ok && old(self).frame_of_spec(page_id) == Some(r->Ok_0.0) ==> ({
                let f = r->Ok_0;
                let o = old(self).frames()[f.0 as int];
                let n = final(self).frames()[f.0 as int];
                n.page == o.page && n.page_id == o.page_id && n.dirty_since_lsn == o.dirty_since_lsn && n.pin_count == o.pin_count + 1
            }),
            old(self).frame_of_spec(page_id) is Some ==> r is Ok || (r matches Err(StorageError::BufferPoolExhausted)),
            old(self).frame_of_spec(page_id) is Some ==> (r is Ok <==> old(self).pinnable(page_id)),
            old(self).poisoned() && old(self).frame_of_spec(page_id) is None ==> (r matches Err(
                StorageError::FlushPoisoned,
            )) && *final(self) == *old(self),
            old(self).poisoned() ==> final(self).poisoned(),
            old(self).frame_of_spec(page_id) is Some ==> final(self).spec_log() == old(self).spec_log()
                && final(self).spec_dwb() == old(self).spec_dwb() && final(self).table() == old(self).table(),
            old(self).frame_of_spec(page_id) is Some && r is Ok ==> final(self).access_clock() == old(self).access_clock() + 1
                && forall|i: int| 0 <= i < old(self).frames().len() && i != r->Ok_0.0 ==> #[trigger] final(self).frames()[i]
                == old(self).frames()[i],
            old(self).frame_of_spec(page_id) is Some && r is Err ==> *final(self) == *old(self),
            old(self).frame_of_spec(page_id) is Some && r is Ok ==> Some(r->Ok_0.0) == old(self).frame_of_spec(page_id)
                && final(self).spec_disk() == old(self).spec_disk(),
            r matches Ok(f) ==> (old(self).frame_of_spec(page_id) is None ==> eviction_write(*old(self), *final(self), f.0)),
            r is Ok && old(self).frame_of_spec(page_id) is None ==> ({
                let f = r->Ok_0;
                let n = final(self).frames()[f.0 as int];
                let ps = final(self).spec_disk().spec_page_size();
                let at = page_offset(page_id.0, ps);
                &&& n.pin_count == 1
                &&& n.dirty_since_lsn == 0
                &&& n.page.bytes() == final(self).spec_disk().contents().subrange(at, at + PAGE_SIZE)
                &&& spec_checksum_ok(n.page.bytes())
            }),
            forall|i: int|
                0 <= i < old(self).frames().len() && old(self).frames()[i].page_id is Some && old(self).frames()[i].page_id != Some(page_id) ==> {
                    let o = old(self).frames()[i];
                    let n = #[trigger] final(self).frames()[i];
                    ||| n.page == o.page && n.page_id == o.page_id && n.pin_count == o.pin_count
                    ||| o.pin_count == 0 && old(self).frame_of_spec(page_id) is None && (n.page_id is None
                        || r == Ok::<FrameId, StorageError>(FrameId(i as u32)))
                },
    {
        match self.page_table.get(page_id.0 as u64) {
            Some(f) => {
                let f = *f;
                return match self.pin_resident(f) {
                    Ok(()) => Ok(FrameId(f)),
                    Err(e) => Err(e),
                };
            },
            None => {},
        }
        let frame = match self.acquire_free_frame() {
            Ok(f) => f,
            Err(e) => return Err(e),
        };
        match self.disk.read_page(page_id) {
            Ok(page) => match self.try_install(frame, page_id, page, 0) {
                Ok(f) => Ok(FrameId(f)),
                Err(e) => Err(e),
            },
            Err(e) => {
                self.release_owned(frame);
                Err(e)
            },
        }
    }
    /// Allocates a page, logs the allocation for `txn_id`, and pins a
    /// zeroed frame for it.
    pub fn new_page(&mut self, txn_id: TxnId) -> (r: Result<(PageId, FrameId), StorageError>)
        requires
            old(self).inv(),
            old(self).spec_disk().next_page_id() < u32::MAX,
        ensures
            final(self).inv(),
            final(self).frames().len() == old(self).frames().len(),
            final(self).spec_disk().spec_page_size() == old(self).spec_disk().spec_page_size(),
            !old(self).poisoned() ==> final(self).spec_disk().next_page_id() == old(self).spec_disk().next_page_id() + 1,
            old(self).poisoned() ==> (r matches Err(StorageError::FlushPoisoned)) && *final(self) == *old(self),
            old(self).poisoned() ==> final(self).poisoned(),
            r matches Ok((p, f)) ==> p.0 == old(self).spec_disk().next_page_id() && f.0 < final(self).frames().len()
                && final(self).frames()[f.0 as int].page_id == Some(p) && final(self).frame_of_spec(p) == Some(f.0)
                && final(self).frames()[f.0 as int].pin_count >= 1,
            r is Ok && old(self).frame_of_spec(r->Ok_0.0) is None ==> ({
                let n = final(self).frames()[r->Ok_0.1.0 as int];
                &&& n.pin_count == 1
                &&& n.dirty_since_lsn == old(self).spec_log().view().next_lsn
                &&& all_zero(n.page.bytes())
            }),
    {
        if self.poisoned {
            return Err(StorageError::FlushPoisoned);
        }
        let page_id = match self.disk.allocate_page() {
            Ok(p) => p,
            Err(e) => return Err(e),
        };
        let lsn = match append_checked(&mut self.log, txn_id, LogRecordKind::AllocPage { page_id }) {
            Ok(l) => l,
            Err(e) => return Err(e),
        };
        let ghost table0 = self.page_table.view();
        let frame = match self.acquire_free_frame() {
            Ok(f) => f,
            Err(e) => return Err(e),
        };
        match self.try_install(frame, page_id, Page::new(page_id), lsn.0) {
            Ok(f) => Ok((page_id, FrameId(f))),
            Err(e) => Err(e),
        }
    }

    /// Writes `bytes` at `offset` of the page in `frame` on behalf of
    /// `txn_id`: logs the update with its before-image, applies it, stamps
    /// the record's LSN on the page, and marks the frame dirty since then
    /// if it was clean.
    pub fn write(&mut self, frame: FrameId, txn_id: TxnId, offset: usize, bytes: &[u8]) -> (r: Result<
        (),
        StorageError,
    >)
        requires
            old(self).inv(),
            frame.0 < old(self).frames().len(),
            old(self).frames()[frame.0 as int].page_id is Some,
            offset + bytes@.len() <= PAGE_SIZE,
        ensures
            final(self).poisoned() == old(self).poisoned(),
            final(self).inv(),
            final(self).table() == old(self).table(),
            final(self).spec_disk() == old(self).spec_disk(),
            final(self).spec_dwb() == old(self).spec_dwb(),
            final(self).frames().len() == old(self).frames().len(),
            forall|i: int| 0 <= i < old(self).frames().len() && i != frame.0 ==> #[trigger] final(self).frames()[i] == old(self).frames()[i],
            r is Err ==> final(self).frames() == old(self).frames() && final(self).spec_log().view() == old(self).spec_log().view(),
            r is Ok <==> appendable(
                old(self).spec_log().view(),
                KindView::Update {
                    page_id: old(self).frames()[frame.0 as int].page_id.unwrap().0,
                    offset: offset as u16,
                    before: old(self).frames()[frame.0 as int].page.bytes().subrange(offset as int, offset + bytes@.len()),
                    after: bytes@,
                },
            ),
            r is Ok ==> ({
                let o = old(self).frames()[frame.0 as int];
                let n = final(self).frames()[frame.0 as int];
                let lsn = old(self).spec_log().view().next_lsn;
                let pid = o.page_id.unwrap();
                &&& final(self).spec_log().view() == after_append(
                    old(self).spec_log().view(),
                    txn_id.0,
                    KindView::Update {
                        page_id: pid.0,
                        offset: offset as u16,
                        before: o.page.bytes().subrange(offset as int, offset + bytes@.len()),
                        after: bytes@,
                    },
                )
                &&& n.page.bytes() == stamped_write(o.page.bytes(), offset as int, bytes@, lsn)
                &&& n.page.spec_id() == o.page.spec_id()
                &&& n.page_id == o.page_id
                &&& n.pin_count == o.pin_count
                &&& n.dirty_since_lsn == (if o.dirty_since_lsn == 0 { lsn } else { o.dirty_since_lsn })
            }),
    {
        let idx = frame.0 as usize;
        let page_id = match self.frames[idx].page_id {
            Some(p) => p,
            None => return Ok(()),
        };
        let mut before: Vec<u8> = Vec::new();
        push_bytes(&mut before, slice_subrange(self.frames[idx].page.data().as_slice(), offset, offset + bytes.len()));
        let mut after: Vec<u8> = Vec::new();
        push_bytes(&mut after, bytes);
        let lsn = match append_checked(
            &mut self.log,
            txn_id,
            LogRecordKind::Update { page_id, offset: offset as u16, before, after },
        ) {
            Ok(l) => l,
            Err(e) => return Err(e),
        };
        let ghost frames0 = self.frames@;
        let mut fr = self.frames.remove(idx);
        fr.page.write_bytes(offset, bytes);
        fr.page.set_page_lsn(lsn);
        if fr.dirty_since_lsn == 0 {
            fr.dirty_since_lsn = lsn.0;
        }
        self.frames.insert(idx, fr);
        proof {
            assert(self.frames@ =~= frames0.update(idx as int, fr));
            let frames1 = self.frames@;
            assert forall|i: int| #![trigger frames1[i]] 0 <= i < frames1.len() implies match frames1[i].page_id {
                Some(pid) => self.page_table.view().dom().contains(pid.0 as u64) && self.page_table.view()[pid.0 as u64] == i
                    && frames1[i].page.spec_id() == pid,
                None => frames1[i].pin_count == 0 && self.free_list@.contains(i as u32),
            } by {
                if i != idx {
                    assert(frames1[i] == frames0[i]);
                }
            }
        }
        Ok(())
    }

    /// Writes out the page `page_id` if it is cached and dirty; a page
    /// that is not cached is already on disk, and is left alone.
    pub fn flush_page(&mut self, page_id: PageId) -> (r: Result<(), StorageError>)
        requires
            old(self).inv(),
        ensures
            final(self).poisoned() == old(self).poisoned(),
            final(self).inv(),
            final(self).table() == old(self).table(),
            final(self).frames().len() == old(self).frames().len(),
            old(self).frame_of_spec(page_id) is None ==> r is Ok && *final(self) == *old(self),
            forall|i: int|
                0 <= i < old(self).frames().len() ==> {
                    let o = old(self).frames()[i];
                    let n = #[trigger] final(self).frames()[i];
                    &&& n.page == o.page
                    &&& n.page_id == o.page_id
                    &&& n.pin_count == o.pin_count
                    &&& (n.dirty_since_lsn == o.dirty_since_lsn || (r is Ok && n.dirty_since_lsn == 0))
                },
            r is Ok && old(self).frame_of_spec(page_id) is Some ==> ({
                let f = old(self).frame_of_spec(page_id).unwrap();
                &&& final(self).frames()[f as int].dirty_since_lsn == 0
                &&& old(self).frames()[f as int].dirty_since_lsn != 0 ==> final(self).wal_covers(
                    final(self).frames()[f as int].page.page_lsn_spec(),
                )
            }),
    {
        let f = match self.page_table.get(page_id.0 as u64) {
            Some(f) => *f,
            None => return Ok(()),
        };
        if self.frames[f as usize].dirty_since_lsn != 0 {
            let batch = [(FrameId(f), page_id)];
            proof {
                self.dwb.lemma_capacity_bounds();
            }
            match self.flush_pages(batch.as_slice()) {
                Ok(()) => {},
                Err(e) => return Err(e),
            }
        } else {
            proof {
                assert(self.frames@[f as int].page_id == Some(page_id));
            }
        }
        Ok(())
    }
    /// Each cached dirty page with the LSN it has been dirty since, in
    /// frame order.
    pub fn dirty_page_table(&self) -> (r: Vec<(PageId, Lsn)>)
        requires
            self.inv(),
        ensures
            r@ == dirty_entries(self.frames()),
    {
        let mut out: Vec<(PageId, Lsn)> = Vec::new();
        let mut i: usize = 0;
        proof {
            assert(self.frames@.take(0) =~= Seq::<Frame>::empty());
        }
        while i < self.frames.len()
            invariant
                i <= self.frames@.len(),
                out@ == dirty_entries(self.frames@.take(i as int)),
            decreases self.frames@.len() - i,
        {
            let fr = &self.frames[i];
            proof {
                assert(self.frames@.take(i + 1).drop_last() =~= self.frames@.take(i as int));
            }
            match fr.page_id {
                Some(p) => if fr.dirty_since_lsn != 0 {
                    out.push((p, Lsn(fr.dirty_since_lsn)));
                },
                None => {},
            }
            i = i + 1;
        }
        proof {
            assert(self.frames@.take(i as int) =~= self.frames@);
        }
        out
    }

    /// Writes out every cached dirty page, in batches the double-write
    /// buffer holds.
    pub fn flush_all(&mut self) -> (r: Result<(), StorageError>)
        requires
            old(self).inv(),
        ensures
            final(self).poisoned() == old(self).poisoned(),
            final(self).inv(),
            final(self).table() == old(self).table(),
            final(self).frames().len() == old(self).frames().len(),
            log_advanced(old(self).spec_log().view(), final(self).spec_log().view()),
            forall|i: int|
                0 <= i < old(self).frames().len() ==> {
                    let o = old(self).frames()[i];
                    let n = #[trigger] final(self).frames()[i];
                    &&& n.page == o.page
                    &&& n.page_id == o.page_id
                    &&& n.pin_count == o.pin_count
                    &&& (n.dirty_since_lsn == o.dirty_since_lsn || n.dirty_since_lsn == 0)
                    &&& r is Ok && o.page_id is Some ==> n.dirty_since_lsn == 0
                    &&& r is Ok && o.page_id is Some && o.dirty_since_lsn != 0 ==> final(self).wal_covers(n.page.page_lsn_spec())
                },
    {
        let mut dirty: Vec<(FrameId, PageId)> = Vec::new();
        let mut i: usize = 0;
        while i < self.frames.len()
            invariant
                self.poisoned == old(self).poisoned,
                i <= self.frames@.len(),
                self.frames@.len() < u32::MAX,
                forall|k: int| 0 <= k < dirty@.len() ==> {
                    let e = #[trigger] dirty@[k];
                    &&& e.0.0 < i
                    &&& self.frames@[e.0.0 as int].page_id == Some(e.1)
                    &&& self.frames@[e.0.0 as int].dirty_since_lsn != 0
                },
                forall|j: int| 0 <= j < i && (#[trigger] self.frames@[j]).page_id is Some && self.frames@[j].dirty_since_lsn != 0
                    ==> exists|k: int| 0 <= k < dirty@.len() && dirty@[k].0.0 == j,
            decreases self.frames@.len() - i,
        {
            let ghost d0 = dirty@;
            match self.frames[i].page_id {
                Some(p) => if self.frames[i].dirty_since_lsn != 0 {
                    dirty.push((FrameId(i as u32), p));
                },
                None => {},
            }
            proof {
                assert forall|j: int| 0 <= j < i + 1 && (#[trigger] self.frames@[j]).page_id is Some && self.frames@[j].dirty_since_lsn != 0
                    implies exists|k: int| 0 <= k < dirty@.len() && dirty@[k].0.0 == j by {
                    if j == i {
                        assert(dirty@[dirty@.len() - 1].0.0 == i);
                    } else {
                        let k = choose|k: int| 0 <= k < d0.len() && d0[k].0.0 == j;
                        assert(dirty@[k] == d0[k]);
                    }
                }
            }
            i = i + 1;
        }
        let cap = self.dwb.capacity();
        proof {
            self.dwb.lemma_capacity_bounds();
        }
        let ghost frames0 = self.frames@;
        let ghost log0 = self.log.view();
        proof {
            self.log.lemma_counters();
        }
        let mut start: usize = 0;
        while start < dirty.len()
            invariant
                self.poisoned == old(self).poisoned,
                self.inv(),
                self.page_table == old(self).page_table,
                frames0 == old(self).frames@,
                log0 == old(self).log.view(),
                cap == self.dwb.spec_capacity(),
                0 < cap,
                self.frames@.len() == frames0.len(),
                start <= dirty@.len(),
                log_advanced(log0, self.log.view()),
                forall|k: int| 0 <= k < dirty@.len() ==> (#[trigger] dirty@[k]).0.0 < frames0.len()
                    && frames0[dirty@[k].0.0 as int].page_id == Some(dirty@[k].1)
                    && frames0[dirty@[k].0.0 as int].dirty_since_lsn != 0,
                forall|j: int| 0 <= j < frames0.len() && (#[trigger] frames0[j]).page_id is Some && frames0[j].dirty_since_lsn != 0
                    ==> exists|k: int| 0 <= k < dirty@.len() && dirty@[k].0.0 == j,
                forall|j: int|
                    0 <= j < frames0.len() ==> {
                        let o = frames0[j];
                        let n = #[trigger] self.frames@[j];
                        &&& n.page == o.page
                        &&& n.page_id == o.page_id
                        &&& n.pin_count == o.pin_count
                        &&& (n.dirty_since_lsn == o.dirty_since_lsn || n.dirty_since_lsn == 0)
                    },
                forall|k: int| 0 <= k < start ==> self.frames@[(#[trigger] dirty@[k]).0.0 as int].dirty_since_lsn == 0
                    && self.wal_covers(self.frames@[dirty@[k].0.0 as int].page.page_lsn_spec()),
            decreases dirty@.len() - start,
        {
            let end = if dirty.len() - start > cap { start + cap } else { dirty.len() };
            let mut chunk: Vec<(FrameId, PageId)> = Vec::new();
            let mut k = start;
            while k < end
                invariant
                    self.poisoned == old(self).poisoned,
                    start <= k <= end,
                    end <= dirty@.len(),
                    chunk@ == dirty@.subrange(start as int, k as int),
                decreases end - k,
            {
                chunk.push(dirty[k]);
                k = k + 1;
            }
            let ghost frames1 = self.frames@;
            let ghost log1 = self.log.view();
            match self.flush_pages(chunk.as_slice()) {
                Ok(()) => {},
                Err(e) => return Err(e),
            }
            proof {
                assert forall|k: int| 0 <= k < end implies self.frames@[(#[trigger] dirty@[k]).0.0 as int].dirty_since_lsn == 0
                    && self.wal_covers(self.frames@[dirty@[k].0.0 as int].page.page_lsn_spec()) by {
                    if k >= start {
                        assert(chunk@[k - start] == dirty@[k]);
                    } else {
                        let f = dirty@[k].0.0 as int;
                        assert(self.frames@[f].page == frames1[f].page);
                    }
                }
                let frames2 = self.frames@;
                assert forall|i: int| #![trigger frames2[i]] 0 <= i < frames2.len() implies match frames2[i].page_id {
                    Some(pid) => self.page_table.view().dom().contains(pid.0 as u64) && self.page_table.view()[pid.0 as u64] == i
                        && frames2[i].page.spec_id() == pid,
                    None => frames2[i].pin_count == 0 && self.free_list@.contains(i as u32),
                } by {
                    assert(frames2[i].page_id == frames1[i].page_id);
                }
            }
            start = end;
        }
        proof {
            assert forall|j: int| 0 <= j < frames0.len() implies {
                let o = frames0[j];
                let n = #[trigger] self.frames@[j];
                &&& o.page_id is Some ==> n.dirty_since_lsn == 0
                &&& o.page_id is Some && o.dirty_since_lsn != 0 ==> self.wal_covers(n.page.page_lsn_spec())
            } by {
                let o = frames0[j];
                if o.page_id is Some && o.dirty_since_lsn != 0 {
                    let k = choose|k: int| 0 <= k < dirty@.len() && dirty@[k].0.0 == j;
                    assert(self.frames@[(dirty@[k]).0.0 as int].dirty_since_lsn == 0);
                }
            }
        }
        Ok(())
    }
    pub closed spec fn free(&self) -> Seq<u32> {
        self.free_list@
    }

    pub closed spec fn evictable(&self) -> Map<u32, FrameView> {
        self.replacer.entries()
    }

    /// Every frame is free or holds a page, the page table and the frames
    /// agree, and exactly the unpinned frames that hold a page can be
    /// evicted.
    pub proof fn lemma_frame_accounting(&self)
        requires
            self.inv(),
        ensures
            accounting(self.frames(), self.table(), self.free(), self.evictable(), None),
    {
    }

    /// Every frame is free or holds a page, the page table and the frames
    /// agree, and exactly the unpinned frames that hold a page can be
    /// evicted. The pool's invariant carries this, so the check is made by
    /// the proof and costs nothing when run.
    pub fn assert_frame_accounting(&self)
        requires
            self.inv(),
        ensures
            accounting(self.frames(), self.table(), self.free(), self.evictable(), None),
    {
        proof {
            self.lemma_frame_accounting();
        }
    }

    /// Closes the pool, handing back the file, the double-write buffer and
    /// the log; pages still dirty in frames are not written.
    pub fn into_parts(self) -> (parts: (DiskManager<D>, DoubleWriteBuffer<W>, LogManager<S>))
        requires
            self.inv(),
        ensures
            parts.0 == self.spec_disk(),
            parts.1 == self.spec_dwb(),
            parts.2 == self.spec_log(),
            parts.0.inv(),
            parts.1.inv(),
            parts.2.inv(),
    {
        (self.disk, self.dwb, self.log)
    }

    /// Appends a record for `txn_id` to the log.
    pub fn append_log(&mut self, txn_id: TxnId, kind: LogRecordKind) -> (r: Result<Lsn, StorageError>)
        requires
            old(self).inv(),
        ensures
            final(self).poisoned() == old(self).poisoned(),
            final(self).inv(),
            final(self).frames() == old(self).frames(),
            final(self).table() == old(self).table(),
            final(self).spec_disk() == old(self).spec_disk(),
            r is Ok ==> final(self).spec_log().view() == after_append(old(self).spec_log().view(), txn_id.0, kind@)
                && r->Ok_0.0 == old(self).spec_log().view().next_lsn,
            r is Err ==> final(self).spec_log().view() == old(self).spec_log().view(),
            r is Ok <==> appendable(old(self).spec_log().view(), kind@),
    {
        append_checked(&mut self.log, txn_id, kind)
    }

    /// Makes the log durable up to `up_to`.
    pub fn flush_log(&mut self, up_to: Lsn) -> (r: Result<(), StorageError>)
        requires
            old(self).inv(),
        ensures
            final(self).poisoned() == old(self).poisoned(),
            final(self).inv(),
            final(self).frames() == old(self).frames(),
            final(self).table() == old(self).table(),
            final(self).spec_disk() == old(self).spec_disk(),
            old(self).spec_log().view().durable_lsn > up_to.0 ==> r is Ok && final(self).spec_log().view()
                == old(self).spec_log().view(),
            old(self).spec_log().view().durable_lsn <= up_to.0 && r is Ok ==> final(self).spec_log().view()
                == after_flush(old(self).spec_log().view()),
    {
        self.log.flush(up_to)
    }

    /// Makes everything logged durable.
    pub fn flush_log_all(&mut self) -> (r: Result<(), StorageError>)
        requires
            old(self).inv(),
        ensures
            final(self).poisoned() == old(self).poisoned(),
            final(self).inv(),
            final(self).frames() == old(self).frames(),
            final(self).table() == old(self).table(),
            final(self).spec_disk() == old(self).spec_disk(),
            old(self).spec_log().view().buffer.len() == 0 ==> r is Ok && final(self).spec_log().view()
                == old(self).spec_log().view(),
            old(self).spec_log().view().buffer.len() > 0 && r is Ok ==> final(self).spec_log().view()
                == after_flush(old(self).spec_log().view()),
    {
        self.log.flush_all()
    }

    pub fn durable_lsn(&self) -> (l: Lsn)
        ensures
            l.0 == self.spec_log().view().durable_lsn,
    {
        self.log.durable_lsn()
    }

    pub fn log_bytes_appended(&self) -> (n: u64)
        ensures
            n == self.spec_log().view().bytes_appended,
    {
        self.log.bytes_appended()
    }

    /// The LSN of `txn_id`'s last record, if it has one.
    pub fn last_lsn(&self, txn_id: TxnId) -> (r: Option<Lsn>)
        requires
            self.inv(),
        ensures
            opt_lsn(r) == (if self.spec_log().view().last_lsns.dom().contains(txn_id.0) {
                Some(self.spec_log().view().last_lsns[txn_id.0])
            } else {
                None
            }),
    {
        self.log.last_lsn_for(txn_id)
    }

    /// The record the log holds at `lsn`.
    pub fn read_log_at(&self, lsn: Lsn) -> (r: Result<Option<LoggedRecord>, StorageError>)
        requires
            self.inv(),
        ensures
            r is Err ==> r->Err_0 is Io,
            r matches Ok(o) ==> match o {
                Some(rec) => spec_read_at(self.spec_log().view(), lsn.0) == Some(rec@),
                None => spec_read_at(self.spec_log().view(), lsn.0) is None,
            },
    {
        self.log.read_at(lsn)
    }

    /// Syncs the database file.
    pub fn sync(&mut self) -> (r: Result<(), StorageError>)
        requires
            old(self).inv(),
        ensures
            final(self).poisoned() == old(self).poisoned(),
            final(self).inv(),
            final(self).frames() == old(self).frames(),
            final(self).table() == old(self).table(),
            final(self).spec_log() == old(self).spec_log(),
            r is Ok ==> final(self).spec_disk().contents() == old(self).spec_disk().contents(),
    {
        self.disk.sync()
    }

    /// The id the next allocated page will get.
    pub fn next_page_id(&self) -> (r: u32)
        ensures
            r == self.spec_disk().next_page_id(),
    {
        self.disk.peek_next_page_id()
    }

    /// Makes sure `page_id` is allocated in the file.
    pub fn ensure_page_allocated(&mut self, page_id: PageId) -> (r: Result<(), StorageError>)
        requires
            old(self).inv(),
            page_id.0 < u32::MAX,
        ensures
            final(self).poisoned() == old(self).poisoned(),
            final(self).inv(),
            final(self).frames() == old(self).frames(),
            final(self).table() == old(self).table(),
            final(self).spec_log() == old(self).spec_log(),
            final(self).spec_disk().next_page_id() == if old(self).spec_disk().next_page_id() < page_id.0 + 1 {
                (page_id.0 + 1) as u32
            } else {
                old(self).spec_disk().next_page_id()
            },
    {
        self.disk.ensure_allocated(page_id)
    }
    /// The bytes `page_id` holds once fetched: its frame's if it was
    /// cached, else the file's.
    pub open spec fn fetched_bytes(&self, before: Self, page_id: PageId) -> Seq<u8> {
        match before.frame_of_spec(page_id) {
            Some(f) => before.frames()[f as int].page.bytes(),
            None => {
                let at = page_offset(page_id.0, self.spec_disk().spec_page_size());
                self.spec_disk().contents().subrange(at, at + PAGE_SIZE)
            },
        }
    }

    /// The LSN stamped on page `page_id`.
    pub fn page_lsn(&mut self, page_id: PageId) -> (r: Result<Lsn, StorageError>)
        requires
            old(self).inv(),
        ensures
            old(self).poisoned() ==> final(self).poisoned(),
            final(self).inv(),
            r matches Ok(l) ==> final(self).frame_of_spec(page_id) is Some && l.0 == le_u64_at(
                final(self).fetched_bytes(*old(self), page_id),
                PAGE_LSN_START as int,
            ),
            old(self).pinnable(page_id) ==> r is Ok,
    {
        let f = match self.fetch_page(page_id) {
            Ok(f) => f,
            Err(e) => return Err(e),
        };
        let lsn = self.frames[f.0 as usize].page.page_lsn();
        self.unpin(f);
        Ok(lsn)
    }

    /// Writes `bytes` at `offset` of page `page_id` and stamps `lsn` on
    /// it without logging (the record that made it is already in the
    /// log), marking the frame dirty since `lsn` if it was clean.
    pub fn stamp_write(&mut self, page_id: PageId, offset: usize, bytes: &[u8], lsn: Lsn) -> (r: Result<
        (),
        StorageError,
    >)
        requires
            old(self).inv(),
            offset + bytes@.len() <= PAGE_SIZE,
        ensures
            old(self).poisoned() ==> final(self).poisoned(),
            final(self).inv(),
            old(self).pinnable(page_id) ==> r is Ok,
            r is Ok ==> ({
                let f = final(self).frame_of_spec(page_id);
                f is Some && final(self).frames()[f.unwrap() as int].page.bytes() == stamped_write(
                    final(self).fetched_bytes(*old(self), page_id),
                    offset as int,
                    bytes@,
                    lsn.0,
                )
            }),
    {
        let f = match self.fetch_page(page_id) {
            Ok(f) => f,
            Err(e) => return Err(e),
        };
        let idx = f.0 as usize;
        let ghost frames0 = self.frames@;
        let mut fr = self.frames.remove(idx);
        fr.page.write_bytes(offset, bytes);
        fr.page.set_page_lsn(lsn);
        if fr.dirty_since_lsn == 0 {
            fr.dirty_since_lsn = lsn.0;
        }
        self.frames.insert(idx, fr);
        proof {
            assert(self.frames@ =~= frames0.update(idx as int, fr));
            let frames1 = self.frames@;
            assert forall|i: int| #![trigger frames1[i]] 0 <= i < frames1.len() implies match frames1[i].page_id {
                Some(pid) => self.page_table.view().dom().contains(pid.0 as u64) && self.page_table.view()[pid.0 as u64] == i
                    && frames1[i].page.spec_id() == pid,
                None => frames1[i].pin_count == 0 && self.free_list@.contains(i as u32),
            } by {
                if i != idx {
                    assert(frames1[i] == frames0[i]);
                }
            }
        }
        self.unpin(f);
        Ok(())
    }

    /// Reads the little-endian `u64` at `at` of the header page.
    fn header_u64(&mut self, at: usize) -> (r: Result<u64, StorageError>)
        requires
            old(self).inv(),
            at + 8 <= PAGE_SIZE,
        ensures
            old(self).poisoned() ==> final(self).poisoned(),
            final(self).inv(),
            r matches Ok(v) ==> final(self).frame_of_spec(PageId(0)) is Some && v == le_u64_at(
                final(self).fetched_bytes(*old(self), PageId(0)),
                at as int,
            ),
            old(self).pinnable(PageId(0)) ==> r is Ok,
    {
        let f = match self.fetch_page(PageId(0)) {
            Ok(f) => f,
            Err(e) => return Err(e),
        };
        let v = read_u64(self.frames[f.0 as usize].page.data().as_slice(), at);
        self.unpin(f);
        Ok(v)
    }

    /// Reads the little-endian `u32` at `at` of the header page.
    fn header_u32(&mut self, at: usize) -> (r: Result<u32, StorageError>)
        requires
            old(self).inv(),
            at + 4 <= PAGE_SIZE,
        ensures
            old(self).poisoned() ==> final(self).poisoned(),
            final(self).inv(),
            r matches Ok(v) ==> final(self).frame_of_spec(PageId(0)) is Some && v == le_u32_at(
                final(self).fetched_bytes(*old(self), PageId(0)),
                at as int,
            ),
            old(self).pinnable(PageId(0)) ==> r is Ok,
    {
        let f = match self.fetch_page(PageId(0)) {
            Ok(f) => f,
            Err(e) => return Err(e),
        };
        let v = read_u32(self.frames[f.0 as usize].page.data().as_slice(), at);
        self.unpin(f);
        Ok(v)
    }

    /// Writes `bytes` at `at` of the header page for `txn_id`, logged.
    fn set_header_field(&mut self, txn_id: TxnId, at: usize, bytes: &[u8]) -> (r: Result<(), StorageError>)
        requires
            old(self).inv(),
            at + bytes@.len() <= PAGE_SIZE,
        ensures
            old(self).poisoned() ==> final(self).poisoned(),
            final(self).inv(),
            old(self).pinnable(PageId(0)) ==> (r is Ok <==> old(self).header_update_ok(at as int, bytes@)),
            r is Ok ==> ({
                let f = final(self).frame_of_spec(PageId(0));
                &&& f is Some
                &&& final(self).frames()[f.unwrap() as int].page.bytes().subrange(at as int, at + bytes@.len())
                    == bytes@ || (at < PAGE_LSN_START + 8)
            }),
    {
        let f = match self.fetch_page(PageId(0)) {
            Ok(f) => f,
            Err(e) => return Err(e),
        };
        let ghost b0 = self.frames@[f.0 as int].page;
        let r = self.write(f, txn_id, at, bytes);
        proof {
            lemma_auto_spec_u64_to_from_le_bytes();
            b0.lemma_len();
            if r is Ok && at >= PAGE_LSN_START + 8 {
                let b = self.frames@[f.0 as int].page.bytes();
                assert(b.subrange(at as int, at + bytes@.len()) =~= bytes@);
            }
        }
        self.unpin(f);
        r
    }

    /// The LSN of the last checkpoint's begin record, as the header page
    /// records it (0 for none).
    pub fn last_checkpoint_lsn(&mut self) -> (r: Result<Option<Lsn>, StorageError>)
        requires
            old(self).inv(),
        ensures
            old(self).poisoned() ==> final(self).poisoned(),
            final(self).inv(),
            old(self).pinnable(PageId(0)) ==> r is Ok,
            r matches Ok(o) ==> ({
                let v = le_u64_at(final(self).fetched_bytes(*old(self), PageId(0)), LAST_CHECKPOINT_LSN_START as int);
                o == (if v == 0 { None::<Lsn> } else { Some(Lsn(v)) })
            }),
    {
        match self.header_u64(LAST_CHECKPOINT_LSN_START) {
            Ok(0) => Ok(None),
            Ok(v) => Ok(Some(Lsn(v))),
            Err(e) => Err(e),
        }
    }

    /// Records `lsn` as the last checkpoint's begin in the header page,
    /// logged for `txn_id`.
    pub fn set_last_checkpoint_lsn(&mut self, txn_id: TxnId, lsn: Lsn) -> (r: Result<(), StorageError>)
        requires
            old(self).inv(),
        ensures
            old(self).poisoned() ==> final(self).poisoned(),
            final(self).inv(),
            r is Ok ==> ({
                let f = final(self).frame_of_spec(PageId(0));
                f is Some && le_u64_at(final(self).frames()[f.unwrap() as int].page.bytes(), LAST_CHECKPOINT_LSN_START as int) == lsn.0
            }),
            old(self).pinnable(PageId(0)) ==> (r is Ok <==> old(self).header_update_ok(
                LAST_CHECKPOINT_LSN_START as int,
                spec_u64_to_le_bytes(lsn.0),
            )),
    {
        let bytes = u64_to_le_bytes(lsn.0);
        proof {
            lemma_auto_spec_u64_to_from_le_bytes();
        }
        self.set_header_field(txn_id, LAST_CHECKPOINT_LSN_START, bytes.as_slice())
    }

    /// The first page of the table catalog, as the header page records it
    /// (none while it reads `u32::MAX`).
    pub fn catalog_first_page(&mut self) -> (r: Result<Option<PageId>, StorageError>)
        requires
            old(self).inv(),
        ensures
            old(self).poisoned() ==> final(self).poisoned(),
            final(self).inv(),
            old(self).pinnable(PageId(0)) ==> r is Ok,
            r matches Ok(o) ==> ({
                let v = le_u32_at(final(self).fetched_bytes(*old(self), PageId(0)), CATALOG_FIRST_PAGE_START as int);
                o == (if v == u32::MAX { None::<PageId> } else { Some(PageId(v)) })
            }),
    {
        match self.header_u32(CATALOG_FIRST_PAGE_START) {
            Ok(v) => if v == u32::MAX { Ok(None) } else { Ok(Some(PageId(v))) },
            Err(e) => Err(e),
        }
    }

    /// Records `page_id` as the first page of the table catalog, logged
    /// for `txn_id`.
    pub fn set_catalog_first_page(&mut self, txn_id: TxnId, page_id: PageId) -> (r: Result<(), StorageError>)
        requires
            old(self).inv(),
        ensures
            old(self).poisoned() ==> final(self).poisoned(),
            final(self).inv(),
            r is Ok ==> ({
                let f = final(self).frame_of_spec(PageId(0));
                f is Some && le_u32_at(final(self).frames()[f.unwrap() as int].page.bytes(), CATALOG_FIRST_PAGE_START as int) == page_id.0
            }),
            old(self).pinnable(PageId(0)) ==> (r is Ok <==> old(self).header_update_ok(
                CATALOG_FIRST_PAGE_START as int,
                spec_u32_to_le_bytes(page_id.0),
            )),
    {
        let bytes = u32_to_le_bytes(page_id.0);
        proof {
            lemma_auto_spec_u32_to_from_le_bytes();
        }
        self.set_header_field(txn_id, CATALOG_FIRST_PAGE_START, bytes.as_slice())
    }

    /// The first page of the index catalog, as the header page records it
    /// (none while it reads `u32::MAX`).
    pub fn index_catalog_first_page(&mut self) -> (r: Result<Option<PageId>, StorageError>)
        requires
            old(self).inv(),
        ensures
            old(self).poisoned() ==> final(self).poisoned(),
            final(self).inv(),
            old(self).pinnable(PageId(0)) ==> r is Ok,
            r matches Ok(o) ==> ({
                let v = le_u32_at(final(self).fetched_bytes(*old(self), PageId(0)), INDEX_CATALOG_FIRST_PAGE_START as int);
                o == (if v == u32::MAX { None::<PageId> } else { Some(PageId(v)) })
            }),
    {
        match self.header_u32(INDEX_CATALOG_FIRST_PAGE_START) {
            Ok(v) => if v == u32::MAX { Ok(None) } else { Ok(Some(PageId(v))) },
            Err(e) => Err(e),
        }
    }

    /// Records `page_id` as the first page of the index catalog, logged
    /// for `txn_id`.
    pub fn set_index_catalog_first_page(&mut self, txn_id: TxnId, page_id: PageId) -> (r: Result<(), StorageError>)
        requires
            old(self).inv(),
        ensures
            old(self).poisoned() ==> final(self).poisoned(),
            final(self).inv(),
            r is Ok ==> ({
                let f = final(self).frame_of_spec(PageId(0));
                f is Some && le_u32_at(final(self).frames()[f.unwrap() as int].page.bytes(), INDEX_CATALOG_FIRST_PAGE_START as int) == page_id.0
            }),
            old(self).pinnable(PageId(0)) ==> (r is Ok <==> old(self).header_update_ok(
                INDEX_CATALOG_FIRST_PAGE_START as int,
                spec_u32_to_le_bytes(page_id.0),
            )),
    {
        let bytes = u32_to_le_bytes(page_id.0);
        proof {
            lemma_auto_spec_u32_to_from_le_bytes();
        }
        self.set_header_field(txn_id, INDEX_CATALOG_FIRST_PAGE_START, bytes.as_slice())
    }
}

/// What a write puts on a device reads back from where it went.
pub proof fn lemma_written_reads_back(c: Seq<u8>, at: nat, b: Seq<u8>)
    ensures
        written(c, at, b).len() >= at + b.len(),
        written(c, at, b).subrange(at as int, (at + b.len()) as int) == b,
{
    let w = written(c, at, b);
    assert(w.subrange(at as int, (at + b.len()) as int) =~= b);
}

/// A write leaves the bytes it does not cover, within the old length, as
/// they were.
pub proof fn lemma_written_keeps_elsewhere(c: Seq<u8>, at: nat, b: Seq<u8>, x: int, n: int)
    requires
        0 <= x,
        0 <= n,
        x + n <= c.len(),
        x + n <= at || at + b.len() <= x,
    ensures
        written(c, at, b).subrange(x, x + n) == c.subrange(x, x + n),
{
    let w = written(c, at, b);
    assert(w.subrange(x, x + n) =~= c.subrange(x, x + n));
}

/// The bytes page `page_id` has in the database file.
pub open spec fn disk_page<D: BlockDevice, W: BlockDevice, S: SegmentStore>(
    pool: BufferPool<D, W, S>,
    page_id: PageId,
) -> Seq<u8> {
    let at = page_offset(page_id.0, pool.spec_disk().spec_page_size());
    pool.spec_disk().contents().subrange(at, at + PAGE_SIZE)
}

/// A dirty page that a fetch pushes out of the pool is written to the
/// file, and what a later fetch reads back from the file for it is the
/// page as the pool held it, its checksum stamped, even when that later
/// fetch pushes out another dirty page in turn, pages lying at least
/// `PAGE_SIZE` bytes apart.
pub proof fn lemma_evicted_page_reads_back<D: BlockDevice, W: BlockDevice, S: SegmentStore>(
    s0: BufferPool<D, W, S>,
    s1: BufferPool<D, W, S>,
    s2: BufferPool<D, W, S>,
    page_id: PageId,
    f1: u32,
    f2: u32,
)
    requires
        s0.inv(),
        s1.inv(),
        s0.spec_disk().spec_page_size() >= PAGE_SIZE,
        s1.spec_disk().spec_page_size() == s0.spec_disk().spec_page_size(),
        s2.spec_disk().spec_page_size() == s0.spec_disk().spec_page_size(),
        s0.frame_of_spec(page_id) == Some(f1),
        s0.frames()[f1 as int].dirty_since_lsn != 0,
        eviction_write(s0, s1, f1),
        s1.frame_of_spec(page_id) is None,
        f2 < s1.frames().len(),
        eviction_write(s1, s2, f2),
    ensures
        disk_page(s2, page_id) == spec_stamped(s0.frames()[f1 as int].page.bytes()),
{
    s0.lemma_frame_accounting();
    s1.lemma_frame_accounting();
    let ps = s0.spec_disk().spec_page_size();
    let b = spec_stamped(s0.frames()[f1 as int].page.bytes());
    s0.frames()[f1 as int].page.lemma_len();
    lemma_auto_spec_u32_to_from_le_bytes();
    assert(b.len() == PAGE_SIZE);
    let at = page_offset(page_id.0, ps);
    assert(s0.frames()[f1 as int].page.spec_id() == page_id);
    lemma_written_reads_back(s0.spec_disk().contents(), at as nat, b);
    assert(disk_page(s1, page_id) == b);
    let o = s1.frames()[f2 as int];
    if o.page_id is Some && o.dirty_since_lsn != 0 {
        let other = o.page_id.unwrap();
        assert(o.page.spec_id() == other);
        assert(other != page_id);
        let at2 = page_offset(other.0, ps);
        o.page.lemma_len();
        assert(spec_stamped(o.page.bytes()).len() == PAGE_SIZE);
        assert(at + PAGE_SIZE <= at2 || at2 + PAGE_SIZE <= at) by (nonlinear_arith)
            requires
                at == page_id.0 * ps,
                at2 == other.0 * ps,
                page_id.0 != other.0,
                ps >= PAGE_SIZE,
        {
            if page_id.0 < other.0 {
                assert(other.0 * ps >= (page_id.0 + 1) * ps);
            } else {
                assert(page_id.0 * ps >= (other.0 + 1) * ps);
            }
        }
        lemma_written_keeps_elsewhere(s1.spec_disk().contents(), at2 as nat, spec_stamped(o.page.bytes()), at, PAGE_SIZE as int);
    }
}

} // verus!
