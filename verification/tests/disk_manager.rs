use storage::block_device::MemDevice;
use storage::disk::DiskManager;
use storage::error::StorageError;
use storage::ids::PageId;
use storage::page::{Page, PAGE_SIZE};

fn reopen(raw: &[u8], page_size: usize) -> Result<DiskManager<MemDevice>, StorageError> {
    DiskManager::open_with_device(MemDevice::from_bytes(raw), page_size)
}

fn page_with(page_id: PageId, at: usize, bytes: &[u8]) -> Page {
    let mut page = Page::new(page_id);
    page.write_bytes(at, bytes);
    page
}

#[test]
fn pages_survive_close_and_reopen() -> Result<(), StorageError> {
    let (id1, id2, raw) = {
        let mut disk = DiskManager::open_with_device(MemDevice::new(), PAGE_SIZE)?;
        let id1 = disk.allocate_page()?;
        let id2 = disk.allocate_page()?;
        disk.write_page(id1, &page_with(id1, 20, b"hello"))?;
        disk.write_page(id2, &page_with(id2, 20, b"world"))?;
        disk.sync()?;
        (id1, id2, disk.into_device().bytes().clone())
    };

    let disk = reopen(&raw, PAGE_SIZE)?;
    assert_eq!(&disk.read_page(id1)?.data()[20..25], b"hello");
    assert_eq!(&disk.read_page(id2)?.data()[20..25], b"world");
    Ok(())
}

#[test]
fn reopening_with_a_different_page_size_is_a_clear_error() -> Result<(), StorageError> {
    let raw = {
        let mut disk = DiskManager::open_with_device(MemDevice::new(), PAGE_SIZE)?;
        disk.allocate_page()?;
        disk.sync()?;
        disk.into_device().bytes().clone()
    };

    let other_page_size = PAGE_SIZE * 2;
    let message = match reopen(&raw, other_page_size) {
        Ok(_) => panic!("reopening with a mismatched page size must fail"),
        Err(err) => err.message(),
    };
    assert!(
        message.contains(&PAGE_SIZE.to_string()) && message.contains(&other_page_size.to_string()),
        "error should name both the stored and requested page sizes: {message}"
    );
    Ok(())
}

#[test]
fn reopening_a_file_with_a_different_format_version_is_a_clear_error() -> Result<(), StorageError> {
    let mut raw = {
        let mut disk = DiskManager::open_with_device(MemDevice::new(), PAGE_SIZE)?;
        disk.allocate_page()?;
        disk.sync()?;
        disk.into_device().bytes().clone()
    };
    raw[20..24].copy_from_slice(&999u32.to_le_bytes());

    let message = match reopen(&raw, PAGE_SIZE) {
        Ok(_) => panic!("reopening a file with a stale format version must fail"),
        Err(err) => err.message(),
    };
    assert!(message.contains("999"), "error should name the stored version: {message}");
    Ok(())
}

#[test]
fn reopening_a_file_whose_length_is_not_a_page_multiple_is_a_clear_error() -> Result<(), StorageError> {
    let mut raw = {
        let mut disk = DiskManager::open_with_device(MemDevice::new(), PAGE_SIZE)?;
        disk.allocate_page()?;
        disk.sync()?;
        disk.into_device().bytes().clone()
    };
    let truncated_len = 2 * PAGE_SIZE - 10;
    raw.truncate(truncated_len);

    let message = match reopen(&raw, PAGE_SIZE) {
        Ok(_) => panic!("reopening a file whose length isn't a page multiple must fail"),
        Err(err) => err.message(),
    };
    assert!(
        message.contains(&truncated_len.to_string()) && message.contains(&PAGE_SIZE.to_string()),
        "error should name both the actual and expected lengths: {message}"
    );
    Ok(())
}

#[test]
fn reading_an_unallocated_page_is_an_error_not_zeros() -> Result<(), StorageError> {
    let disk = DiskManager::open_with_device(MemDevice::new(), PAGE_SIZE)?;
    assert!(matches!(disk.read_page(PageId(99)), Err(StorageError::PageNotFound(99))));
    Ok(())
}

#[test]
fn freshly_allocated_never_written_page_reads_back_clean() -> Result<(), StorageError> {
    let mut disk = DiskManager::open_with_device(MemDevice::new(), PAGE_SIZE)?;
    let page_id = disk.allocate_page()?;
    let page = disk.read_page(page_id)?;
    assert!(page.data().iter().all(|&b| b == 0), "a never-written page should read back all zero");
    Ok(())
}

fn written_then_flipped(page: impl Fn(PageId) -> Page, flip_at: usize) -> Result<(PageId, Vec<u8>), StorageError> {
    let mut disk = DiskManager::open_with_device(MemDevice::new(), PAGE_SIZE)?;
    let page_id = disk.allocate_page()?;
    disk.write_page(page_id, &page(page_id))?;
    disk.sync()?;
    let mut raw = disk.into_device().bytes().clone();
    raw[page_id.0 as usize * PAGE_SIZE + flip_at] ^= 0xFF;
    Ok((page_id, raw))
}

fn expect_checksum_mismatch(raw: &[u8], page_id: PageId) -> Result<(), StorageError> {
    let disk = reopen(raw, PAGE_SIZE)?;
    match disk.read_page(page_id) {
        Err(StorageError::ChecksumMismatch { page_id: reported, .. }) => {
            assert_eq!(reported, page_id.0)
        }
        Err(other) => panic!("expected ChecksumMismatch, got a different error: {}", other.message()),
        Ok(_) => panic!("a flipped byte must be detected as checksum corruption"),
    }
    Ok(())
}

#[test]
fn flipped_byte_in_the_header_region_is_a_checksum_mismatch() -> Result<(), StorageError> {
    let (page_id, raw) = written_then_flipped(|id| page_with(id, 12, &3u16.to_le_bytes()), 12)?;
    expect_checksum_mismatch(&raw, page_id)
}

#[test]
fn flipped_byte_in_the_tuple_payload_region_is_a_checksum_mismatch() -> Result<(), StorageError> {
    let (page_id, raw) = written_then_flipped(|id| page_with(id, PAGE_SIZE - 1, &[0xAB]), PAGE_SIZE - 1)?;
    expect_checksum_mismatch(&raw, page_id)
}

#[test]
fn flipped_byte_inside_the_checksum_field_is_detected() -> Result<(), StorageError> {
    let (page_id, raw) = written_then_flipped(|id| page_with(id, 20, b"hello"), 1)?;
    expect_checksum_mismatch(&raw, page_id)
}
