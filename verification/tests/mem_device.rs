use storage::block_device::{BlockDevice, DeviceError, MemDevice, RawFile, WriteThrough};
use storage::error::StorageError;
use storage::log_manager::{NoSegmentStore, SegmentStore};

#[test]
fn a_read_past_the_end_of_a_memory_device_is_unexpected_eof() {
    let device = MemDevice::from_bytes(&[1, 2, 3, 4]);
    assert_eq!(device.read_at(1, 3).unwrap(), vec![2, 3, 4]);
    assert!(matches!(device.read_at(2, 3), Err(DeviceError::UnexpectedEof)));
    assert!(matches!(device.read_at(5, 0), Err(DeviceError::UnexpectedEof)));
}

#[test]
fn a_memory_device_grows_on_write_and_resizes_on_set_len() {
    let mut device = MemDevice::new();
    device.write_at(2, &[7, 8]).unwrap();
    assert_eq!(device.bytes(), &vec![0, 0, 7, 8]);
    assert_eq!(device.size().unwrap(), 4);
    device.set_len(6).unwrap();
    assert_eq!(device.bytes(), &vec![0, 0, 7, 8, 0, 0]);
    device.set_len(3).unwrap();
    assert_eq!(device.bytes(), &vec![0, 0, 7]);
    device.sync_all().unwrap();
    assert_eq!(device.bytes(), &vec![0, 0, 7]);
}

#[test]
fn a_single_device_log_store_has_no_segments_and_opens_none() {
    let store: NoSegmentStore<MemDevice> = NoSegmentStore::new();
    assert!(store.existing_segments().unwrap().is_empty());
    assert!(store.remove(3).is_ok());
    match store.open(1) {
        Err(StorageError::CorruptLogHeader { reason }) => {
            assert_eq!(reason, "a log opened from a single device has no segment store to roll to");
        },
        _ => panic!("opening a segment of a single-device log must fail"),
    }
}

struct RecordingFile {
    bytes: std::rc::Rc<std::cell::RefCell<Vec<u8>>>,
    syncs: std::rc::Rc<std::cell::Cell<usize>>,
}

impl RawFile for RecordingFile {
    fn write_at(&mut self, offset: u64, buf: &[u8]) -> Result<(), DeviceError> {
        let mut bytes = self.bytes.borrow_mut();
        let end = offset as usize + buf.len();
        if bytes.len() < end {
            bytes.resize(end, 0);
        }
        bytes[offset as usize..end].copy_from_slice(buf);
        Ok(())
    }

    fn set_len(&mut self, len: u64) -> Result<(), DeviceError> {
        self.bytes.borrow_mut().resize(len as usize, 0);
        Ok(())
    }

    fn sync_all(&mut self) -> Result<(), DeviceError> {
        self.syncs.set(self.syncs.get() + 1);
        Ok(())
    }
}

#[test]
fn a_write_through_device_sends_every_write_and_sync_to_its_file() {
    let bytes = std::rc::Rc::new(std::cell::RefCell::new(b"abcdef".to_vec()));
    let syncs = std::rc::Rc::new(std::cell::Cell::new(0));
    let file = RecordingFile { bytes: bytes.clone(), syncs: syncs.clone() };
    let mut device = WriteThrough::new(file, b"abcdef");

    device.write_at(4, b"XYZ").unwrap();
    assert_eq!(device.read_at(0, 7).unwrap(), b"abcdXYZ".to_vec());
    assert_eq!(*bytes.borrow(), b"abcdXYZ".to_vec(), "the write reached the file");

    device.set_len(3).unwrap();
    assert_eq!(device.size().unwrap(), 3);
    assert_eq!(*bytes.borrow(), b"abc".to_vec(), "the resize reached the file");

    device.sync_all().unwrap();
    assert_eq!(syncs.get(), 1, "the sync reached the file");
}
