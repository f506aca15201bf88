use std::sync::atomic::AtomicU64;
use std::sync::Arc;

use storage::block_device::{DurabilityModel, FaultyDevice, MemDevice};
use storage::crc::crc32;
use storage::disk::DiskManager;
use storage::dwb::DoubleWriteBuffer;
use storage::error::StorageError;
use storage::ids::PageId;
use storage::page::{Page, PAGE_SIZE};
use storage::recovery;

type Disk = DiskManager<MemDevice>;
type Dwb = DoubleWriteBuffer<MemDevice>;

fn capacity() -> usize {
    Dwb::DEFAULT_CAPACITY
}

fn fresh_disk() -> Disk {
    DiskManager::open_with_device(MemDevice::new(), PAGE_SIZE).expect("open an empty database")
}

fn fresh_dwb() -> Dwb {
    DoubleWriteBuffer::open_with_device(MemDevice::new(), capacity()).expect("open an empty buffer")
}

fn page_with(page_id: PageId, at: usize, bytes: &[u8]) -> Page {
    let mut page = Page::new(page_id);
    page.write_bytes(at, bytes);
    page
}

fn raw_page(disk: Disk, page_id: PageId) -> ([u8; PAGE_SIZE], Disk) {
    let device = disk.into_device();
    let start = page_id.0 as usize * PAGE_SIZE;
    let mut buf = [0u8; PAGE_SIZE];
    buf.copy_from_slice(&device.bytes()[start..start + PAGE_SIZE]);
    let disk = DiskManager::open_with_device(device, PAGE_SIZE).expect("reopen");
    (buf, disk)
}

/// Writes a page holding `bytes` at 20, then flips byte 20 on the device,
/// as a write torn after its checksum was computed would leave it.
fn tear_page(disk: Disk, page_id: PageId, bytes: &[u8]) -> Disk {
    let mut disk = disk;
    disk.write_page(page_id, &page_with(page_id, 20, bytes)).expect("write");
    disk.sync().expect("sync");
    let mut raw = disk.into_device().bytes().clone();
    raw[page_id.0 as usize * PAGE_SIZE + 20] ^= 0xFF;
    DiskManager::open_with_device(MemDevice::from_bytes(&raw), PAGE_SIZE).expect("reopen")
}

#[test]
fn write_batch_then_read_batch_round_trips_page_ids_in_order() -> Result<(), StorageError> {
    let mut dwb = fresh_dwb();
    let page_a = page_with(PageId(1), 20, b"first");
    let page_b = page_with(PageId(2), 20, b"second");

    dwb.write_batch(&[page_a, page_b])?;

    let entries = dwb.read_batch()?.expect("expected a batch to be in flight");
    let ids: Vec<PageId> = entries.iter().map(|&(id, _)| id).collect();
    assert_eq!(ids, vec![PageId(1), PageId(2)]);

    let slot0 = dwb.read_slot(0)?;
    assert_eq!(&slot0[20..25], b"first");
    let slot1 = dwb.read_slot(1)?;
    assert_eq!(&slot1[20..26], b"second");
    assert_eq!(entries[0].1, crc32(&slot0));
    Ok(())
}

#[test]
fn clear_batch_makes_read_batch_report_nothing_to_recover() -> Result<(), StorageError> {
    let mut dwb = fresh_dwb();
    dwb.write_batch(&[Page::new(PageId(1))])?;
    assert!(dwb.read_batch()?.is_some(), "a batch should be in flight before clearing");

    dwb.clear_batch()?;
    assert_eq!(dwb.read_batch()?, None, "a cleared batch must report nothing to recover");
    Ok(())
}

#[test]
fn recover_double_write_is_a_no_op_when_nothing_was_in_flight() -> Result<(), StorageError> {
    let mut disk = fresh_disk();
    let mut dwb = fresh_dwb();

    let page_id = disk.allocate_page()?;
    disk.write_page(page_id, &page_with(page_id, 20, b"pristin"))?;
    disk.sync()?;

    recovery::recover_double_write(&mut disk, &mut dwb)?;

    let after = disk.read_page(page_id)?;
    assert_eq!(&after.data()[20..27], b"pristin");
    Ok(())
}

#[test]
fn a_corrupted_double_write_copy_is_skipped_not_restored_from() -> Result<(), StorageError> {
    let mut disk = fresh_disk();
    let page_id = disk.allocate_page()?;
    disk.write_page(page_id, &page_with(page_id, 20, b"original"))?;
    disk.sync()?;

    let mut dwb = fresh_dwb();
    dwb.write_batch(&[page_with(page_id, 20, b"new img")])?;
    let mut raw = dwb.into_device().bytes().clone();
    raw[PAGE_SIZE + 20] ^= 0xFF;
    let mut dwb = DoubleWriteBuffer::open_with_device(MemDevice::from_bytes(&raw), capacity())?;

    recovery::recover_double_write(&mut disk, &mut dwb)?;

    let after = disk.read_page(page_id)?;
    assert_eq!(
        &after.data()[20..28],
        b"original",
        "a corrupted double-write copy must never overwrite the real page"
    );
    Ok(())
}

#[test]
fn open_rejects_zero_capacity() {
    let result = DoubleWriteBuffer::open_with_device(MemDevice::new(), 0);
    assert!(
        matches!(result, Err(StorageError::InvalidDwbCapacity)),
        "capacity 0 must be rejected with InvalidDwbCapacity"
    );
}

#[test]
fn the_largest_capacity_whose_header_fits_a_page_is_accepted() -> Result<(), StorageError> {
    // 12 header bytes, 8 per entry and a 4-byte checksum: 510 entries fill a page.
    assert_eq!(storage::dwb::MAX_CAPACITY, 510);
    let mut dwb = DoubleWriteBuffer::open_with_device(MemDevice::new(), 510)?;
    let pages: Vec<Page> = (1..=510u32).map(|i| page_with(PageId(i), 20, &[i as u8])).collect();
    dwb.write_batch(&pages)?;
    let batch = dwb.read_batch()?.expect("a batch of 510 pages reads back");
    assert_eq!(batch.len(), 510);
    assert_eq!(batch[509].0, PageId(510));
    Ok(())
}

#[test]
fn a_slot_whose_crc_does_not_match_is_not_restored() -> Result<(), StorageError> {
    let mut disk = fresh_disk();
    let page_id = disk.allocate_page()?;
    let disk = tear_page(disk, page_id, b"original");

    let mut dwb = fresh_dwb();
    let slot_content = [0xABu8; PAGE_SIZE];
    dwb.write_raw_slot(0, &slot_content)?;
    let wrong_crc = crc32(&slot_content).wrapping_add(1);
    dwb.write_raw_header_entries(&[(page_id, wrong_crc)])?;

    let (before, mut disk) = raw_page(disk, page_id);
    recovery::recover_double_write(&mut disk, &mut dwb)?;
    let (after, _disk) = raw_page(disk, page_id);
    assert_eq!(
        after, before,
        "a slot whose recorded crc does not match its content must never be restored from"
    );
    Ok(())
}

#[test]
fn an_all_zero_slot_is_never_written_over_a_live_page() -> Result<(), StorageError> {
    let mut disk = fresh_disk();
    let page_id = disk.allocate_page()?;
    let disk = tear_page(disk, page_id, b"original");

    let mut dwb = fresh_dwb();
    let zero_slot = [0u8; PAGE_SIZE];
    dwb.write_raw_slot(0, &zero_slot)?;
    dwb.write_raw_header_entries(&[(page_id, crc32(&zero_slot))])?;

    let (before, mut disk) = raw_page(disk, page_id);
    recovery::recover_double_write(&mut disk, &mut dwb)?;
    let (after, _disk) = raw_page(disk, page_id);
    assert_eq!(
        after, before,
        "an all-zero slot must never be written over a live page, even when its recorded crc \
         matches"
    );
    Ok(())
}

#[test]
fn a_slot_holding_the_wrong_page_id_fails_recovery_loudly() -> Result<(), StorageError> {
    let mut disk = fresh_disk();
    let page_a = disk.allocate_page()?;
    let page_b = disk.allocate_page()?;
    let disk = tear_page(disk, page_a, b"page-a-x");

    let mut dwb = fresh_dwb();
    let content_a = page_with(page_a, 20, b"a-backup");
    let content_b = page_with(page_b, 20, b"b-backup");
    dwb.write_batch(&[content_a, content_b])?;

    let slot1 = dwb.read_slot(1)?;
    dwb.write_raw_slot(0, &slot1)?;

    let (before, mut disk) = raw_page(disk, page_a);
    let result = recovery::recover_double_write(&mut disk, &mut dwb);
    match &result {
        Err(StorageError::DoubleWriteRestoreFailed { page_id }) if *page_id == page_a.0 => {}
        other => panic!("expected DoubleWriteRestoreFailed naming page {page_a:?}, got {other:?}"),
    }
    let (after, _disk) = raw_page(disk, page_a);
    assert_eq!(
        after, before,
        "a slot holding a different page's content than its header claims must never be \
         restored from"
    );
    Ok(())
}

#[test]
fn a_page_torn_at_its_first_sector_is_restored_from_its_double_write_copy() -> Result<(), StorageError> {
    let mut disk = fresh_disk();
    let page_id = disk.allocate_page()?;
    disk.sync()?;
    let device = disk.into_device();

    let mut page = page_with(page_id, 20, b"first half");
    page.write_bytes(3000, b"second half");
    let mut dwb = fresh_dwb();
    dwb.write_batch(&[page.clone()])?;

    let counter = Arc::new(AtomicU64::new(0));
    let torn = FaultyDevice::with_torn_sectors(device, counter, 0, DurabilityModel::torn_write(), vec![0]);
    let mut crashing = DiskManager::open_with_device(torn, PAGE_SIZE)?;
    assert!(crashing.write_page(page_id, &page).is_err(), "the torn write surfaces as an error");
    let survived = crashing.into_device().into_inner();

    let mut disk = DiskManager::open_with_device(survived, PAGE_SIZE)?;
    assert!(disk.read_page(page_id).is_err(), "the torn page fails its checksum before recovery");

    recovery::recover_double_write(&mut disk, &mut dwb)?;
    assert_eq!(dwb.read_batch()?, None, "recovery retires the batch once it has acted on it");
    let restored = disk.read_page(page_id)?;
    assert_eq!(&restored.data()[20..30], b"first half");
    assert_eq!(&restored.data()[3000..3011], b"second half");
    Ok(())
}
