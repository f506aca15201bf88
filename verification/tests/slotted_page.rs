use storage::error::StorageError;
use storage::heap::SlottedPage;
use storage::ids::{PageId, TxnId};
use storage::page::Page;

const TXN: TxnId = TxnId(0);

#[test]
fn insert_returns_none_once_full_and_prior_tuples_stay_readable() -> Result<(), StorageError> {
    let mut slotted = SlottedPage::new(Page::new(PageId(1)), TXN);
    slotted.init();

    let payload = [0xABu8; 200];
    let mut slots = Vec::new();
    while let Some(slot) = slotted.insert(&payload) {
        slots.push(slot);
    }

    assert!(!slots.is_empty(), "at least one 200-byte tuple should fit in a 4KiB page");
    assert_eq!(slots.len(), 19, "4076 free bytes hold nineteen 204-byte tuples with their slots");

    for slot in slots {
        assert_eq!(slotted.read(slot)?, Some(payload.as_slice()));
    }
    Ok(())
}

#[test]
fn deleted_slot_reads_as_none_but_others_survive() -> Result<(), StorageError> {
    let mut slotted = SlottedPage::new(Page::new(PageId(1)), TXN);
    slotted.init();

    let Some(a) = slotted.insert(b"first") else {
        panic!("first tuple should fit in an empty page");
    };
    let Some(b) = slotted.insert(b"second") else {
        panic!("second tuple should fit in an empty page");
    };

    slotted.delete(a)?;

    assert_eq!(slotted.read(a)?, None);
    assert_eq!(slotted.read(b)?, Some(b"second".as_slice()));
    Ok(())
}

#[test]
fn an_in_place_update_past_the_tuple_is_refused_and_one_inside_it_is_applied() {
    let mut slotted = SlottedPage::new(Page::new(PageId(2)), TXN);
    slotted.init();
    let slot = slotted.insert(b"abcdef").unwrap();
    slotted.update_in_place(slot, 2, b"XY").unwrap();
    assert_eq!(slotted.read(slot).unwrap(), Some(b"abXYef".as_slice()));
    match slotted.update_in_place(slot, 5, b"XY") {
        Err(StorageError::InPlaceUpdateOutOfBounds { page_id: 2, slot: 0, tuple_len: 6, offset: 5, patch_len: 2 }) => {}
        other => panic!("expected an out-of-bounds update, got {other:?}"),
    }
    slotted.delete(slot).unwrap();
    match slotted.update_in_place(slot, 0, b"Z") {
        Err(StorageError::CorruptPage { reason, .. }) => assert_eq!(reason, "slot 0 is deleted"),
        other => panic!("expected a deleted-slot error, got {other:?}"),
    }
}

#[test]
fn free_space_and_next_page_track_the_header() {
    let mut slotted = SlottedPage::new(Page::new(PageId(3)), TXN);
    slotted.init();
    assert_eq!(slotted.free_space(), 4096 - 20);
    slotted.insert(b"0123456789").unwrap();
    assert_eq!(slotted.free_space(), 4096 - 20 - 4 - 10);
    assert_eq!(slotted.next_page_id(), None);
    slotted.set_next_page_id(PageId(44));
    assert_eq!(slotted.next_page_id(), Some(PageId(44)));
}
