//! A page-oriented storage engine core: checksummed pages, slotted heap
//! pages, a write-ahead log codec, a double-write buffer, and the
//! transaction bookkeeping (locks, MVCC visibility) that sits above them.

pub mod block_device;
pub mod btree;
pub mod btree_index;
pub mod buffer;
pub mod codec;
pub mod crc;
pub mod devices;
pub mod disk;
pub mod dwb;
pub mod error;
pub mod fmt;
pub mod heap;
pub mod ids;
pub mod keyed;
pub mod log_manager;
pub mod page;
pub mod pool;
pub mod recovery;
pub mod replacer;
pub mod segment;
pub mod table_heap;
pub mod txn;
pub mod wal;
