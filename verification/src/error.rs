//! The errors the storage and transaction layers report.

use vstd::prelude::*;

use crate::block_device::DeviceError;
use crate::fmt::{push_decimal, push_hex_digits, push_str, spec_decimal, spec_hex_digits};

verus! {

/// Errors of the storage layer.
#[derive(Debug)]
pub enum StorageError {
    /// A device operation failed.
    Io(DeviceError),
    /// No frame can be evicted: every frame is pinned.
    BufferPoolExhausted,
    /// An earlier eviction failed to write its page; the pool refuses
    /// further work rather than overwrite the double-write copy that
    /// recovery needs.
    FlushPoisoned,
    /// Waiting for a frame, or for another load of a page, gave up.
    BufferPoolWaitTimedOut { waited_ms: u64 },
    /// A page's content is structurally invalid.
    CorruptPage { page_id: u32, reason: String },
    /// The page lies past the end of the database file.
    PageNotFound(u32),
    /// The database file's length is not a whole number of pages.
    TruncatedFile { actual: u64, expected: u64, page_size: usize },
    /// A tuple is larger than any page can hold.
    TupleTooLarge { size: usize, max: usize },
    /// An index key is larger than any node can hold.
    KeyTooLarge { size: usize, max: usize },
    /// A write-ahead log segment header is invalid.
    CorruptLogHeader { reason: String },
    /// A page's stored checksum does not match its content.
    ChecksumMismatch { page_id: u32, expected: u32, actual: u32 },
    /// Restoring a page from the double-write buffer did not stick.
    DoubleWriteRestoreFailed { page_id: u32 },
    /// A double-write buffer needs at least one slot.
    InvalidDwbCapacity,
    /// An in-place update would run past the end of its tuple.
    InPlaceUpdateOutOfBounds {
        page_id: u32,
        slot: u16,
        tuple_len: usize,
        offset: usize,
        patch_len: usize,
    },
    /// A rebuilt index node does not fit in its page.
    NodeOverflow { page_id: u32, required: usize, capacity: usize },
    /// Another open already holds the database file.
    DatabaseLocked { path: String },
}

impl From<DeviceError> for StorageError {
    fn from(err: DeviceError) -> (r: StorageError)
        ensures
            r == StorageError::Io(err),
    {
        StorageError::Io(err)
    }
}

impl vstd::std_specs::convert::FromSpecImpl<DeviceError> for StorageError {
    open spec fn obeys_from_spec() -> bool {
        true
    }

    open spec fn from_spec(v: DeviceError) -> StorageError {
        StorageError::Io(v)
    }
}

/// Errors of the transaction layer.
#[derive(Debug)]
pub enum TxnError {
    /// The transaction was chosen as a deadlock victim.
    DeadlockVictim(u64),
    /// The transaction asked for a lock after releasing all of its locks.
    LockAfterUnlock(u64),
    /// No active transaction has this id.
    UnknownTransaction(u64),
    /// The transaction is already being aborted.
    AbortInProgress(u64),
    /// A storage operation failed.
    Storage(StorageError),
}

impl From<StorageError> for TxnError {
    fn from(err: StorageError) -> (r: TxnError)
        ensures
            r == TxnError::Storage(err),
    {
        TxnError::Storage(err)
    }
}

impl vstd::std_specs::convert::FromSpecImpl<StorageError> for TxnError {
    open spec fn obeys_from_spec() -> bool {
        true
    }

    open spec fn from_spec(v: StorageError) -> TxnError {
        TxnError::Storage(v)
    }
}

/// The text a device error is displayed as.
pub open spec fn device_message(e: DeviceError) -> Seq<char> {
    match e {
        DeviceError::UnexpectedEof => "failed to fill whole buffer"@,
        DeviceError::InjectedFault { count, limit } => "injected fault: write "@ + spec_decimal(
            count as nat,
        ) + " exceeds the armed limit of "@ + spec_decimal(limit as nat),
        DeviceError::Other { message } => message@,
    }
}

/// `0x` and eight hexadecimal digits.
pub open spec fn hex32(n: u32) -> Seq<char> {
    "0x"@ + spec_hex_digits(n as nat, 8)
}

/// The text a storage error is displayed as.
pub open spec fn storage_message(e: StorageError) -> Seq<char> {
    match e {
        StorageError::Io(d) => "disk io error: "@ + device_message(d),
        StorageError::BufferPoolExhausted => "buffer pool exhausted: no evictable frame available"@,
        StorageError::FlushPoisoned => "buffer pool poisoned: an earlier eviction failed to write its page"@,
        StorageError::DatabaseLocked { path } => "database "@ + path@ + " is locked by another open"@,
        StorageError::BufferPoolWaitTimedOut { waited_ms } => "buffer pool wait timed out after "@
            + spec_decimal(waited_ms as nat) + " ms"@,
        StorageError::CorruptPage { page_id, reason } => "corrupt page "@ + spec_decimal(
            page_id as nat,
        ) + ": "@ + reason@,
        StorageError::PageNotFound(page_id) => "page "@ + spec_decimal(page_id as nat)
            + " not found"@,
        StorageError::TruncatedFile { actual, expected, page_size } => "database file length "@
            + spec_decimal(actual as nat) + " bytes is not a multiple of the "@ + spec_decimal(
            page_size as nat,
        ) + "-byte page size (expected "@ + spec_decimal(expected as nat)
            + " bytes for a whole number of pages)"@,
        StorageError::TupleTooLarge { size, max } => "tuple of "@ + spec_decimal(size as nat)
            + " bytes exceeds the "@ + spec_decimal(max as nat)
            + "-byte maximum for a single page"@,
        StorageError::KeyTooLarge { size, max } => "index key of "@ + spec_decimal(size as nat)
            + " bytes exceeds the "@ + spec_decimal(max as nat)
            + "-byte maximum a single node can hold"@,
        StorageError::CorruptLogHeader { reason } => "corrupt write-ahead log header: "@ + reason@,
        StorageError::ChecksumMismatch { page_id, expected, actual } => "checksum mismatch on page "@
            + spec_decimal(page_id as nat) + ": expected "@ + hex32(expected) + ", got "@ + hex32(
            actual,
        ),
        StorageError::DoubleWriteRestoreFailed { page_id } => "double-write restore for page "@
            + spec_decimal(page_id as nat)
            + " did not survive its own write; the batch is left in place for a retry"@,
        StorageError::InvalidDwbCapacity => "double-write buffer capacity must be at least 1, got 0"@,
        StorageError::InPlaceUpdateOutOfBounds { page_id, slot, tuple_len, offset, patch_len } =>
            "in-place update of "@ + spec_decimal(patch_len as nat) + " bytes at offset "@
            + spec_decimal(offset as nat) + " overruns the "@ + spec_decimal(tuple_len as nat)
            + "-byte tuple in slot "@ + spec_decimal(slot as nat) + " of page "@ + spec_decimal(
            page_id as nat,
        ),
        StorageError::NodeOverflow { page_id, required, capacity } => "index node on page "@
            + spec_decimal(page_id as nat) + " needs "@ + spec_decimal(required as nat)
            + " bytes but a page holds "@ + spec_decimal(capacity as nat),
    }
}

/// The text a transaction error is displayed as.
pub open spec fn txn_message(e: TxnError) -> Seq<char> {
    match e {
        TxnError::DeadlockVictim(id) => "deadlock detected, transaction "@ + spec_decimal(
            id as nat,
        ) + " aborted"@,
        TxnError::LockAfterUnlock(id) => "transaction "@ + spec_decimal(id as nat)
            + " may not acquire new locks after release_all was already called for it"@,
        TxnError::UnknownTransaction(id) => "unknown transaction "@ + spec_decimal(id as nat),
        TxnError::AbortInProgress(id) => "transaction "@ + spec_decimal(id as nat)
            + " is already being aborted"@,
        TxnError::Storage(e) => storage_message(e),
    }
}

fn push_hex32(out: &mut String, n: u32)
    ensures
        final(out)@ == old(out)@ + hex32(n),
{
    push_str(out, "0x");
    push_hex_digits(out, n as u64, 8);
    assert(final(out)@ =~= old(out)@ + hex32(n));
}

impl DeviceError {
    /// The text this error is displayed as.
    pub fn message(&self) -> (m: String)
        ensures
            m@ == device_message(*self),
    {
        let mut out = String::new();
        match self {
            DeviceError::UnexpectedEof => push_str(&mut out, "failed to fill whole buffer"),
            DeviceError::InjectedFault { count, limit } => {
                push_str(&mut out, "injected fault: write ");
                push_decimal(&mut out, *count);
                push_str(&mut out, " exceeds the armed limit of ");
                push_decimal(&mut out, *limit);
            },
            DeviceError::Other { message } => push_str(&mut out, message.as_str()),
        }
        assert(out@ =~= device_message(*self));
        out
    }
}

impl StorageError {
    /// The text this error is displayed as.
    pub fn message(&self) -> (m: String)
        ensures
            m@ == storage_message(*self),
    {
        let mut out = String::new();
        match self {
            StorageError::Io(d) => {
                push_str(&mut out, "disk io error: ");
                let inner = d.message();
                push_str(&mut out, inner.as_str());
            },
            StorageError::BufferPoolExhausted => push_str(
                &mut out,
                "buffer pool exhausted: no evictable frame available",
            ),
            StorageError::FlushPoisoned => push_str(
                &mut out,
                "buffer pool poisoned: an earlier eviction failed to write its page",
            ),
            StorageError::DatabaseLocked { path } => {
                push_str(&mut out, "database ");
                push_str(&mut out, path.as_str());
                push_str(&mut out, " is locked by another open");
            },
            StorageError::BufferPoolWaitTimedOut { waited_ms } => {
                push_str(&mut out, "buffer pool wait timed out after ");
                push_decimal(&mut out, *waited_ms);
                push_str(&mut out, " ms");
            },
            StorageError::CorruptPage { page_id, reason } => {
                push_str(&mut out, "corrupt page ");
                push_decimal(&mut out, *page_id as u64);
                push_str(&mut out, ": ");
                push_str(&mut out, reason.as_str());
            },
            StorageError::PageNotFound(page_id) => {
                push_str(&mut out, "page ");
                push_decimal(&mut out, *page_id as u64);
                push_str(&mut out, " not found");
            },
            StorageError::TruncatedFile { actual, expected, page_size } => {
                push_str(&mut out, "database file length ");
                push_decimal(&mut out, *actual);
                push_str(&mut out, " bytes is not a multiple of the ");
                push_decimal(&mut out, *page_size as u64);
                push_str(&mut out, "-byte page size (expected ");
                push_decimal(&mut out, *expected);
                push_str(&mut out, " bytes for a whole number of pages)");
            },
            StorageError::TupleTooLarge { size, max } => {
                push_str(&mut out, "tuple of ");
                push_decimal(&mut out, *size as u64);
                push_str(&mut out, " bytes exceeds the ");
                push_decimal(&mut out, *max as u64);
                push_str(&mut out, "-byte maximum for a single page");
            },
            StorageError::KeyTooLarge { size, max } => {
                push_str(&mut out, "index key of ");
                push_decimal(&mut out, *size as u64);
                push_str(&mut out, " bytes exceeds the ");
                push_decimal(&mut out, *max as u64);
                push_str(&mut out, "-byte maximum a single node can hold");
            },
            StorageError::CorruptLogHeader { reason } => {
                push_str(&mut out, "corrupt write-ahead log header: ");
                push_str(&mut out, reason.as_str());
            },
            StorageError::ChecksumMismatch { page_id, expected, actual } => {
                push_str(&mut out, "checksum mismatch on page ");
                push_decimal(&mut out, *page_id as u64);
                push_str(&mut out, ": expected ");
                push_hex32(&mut out, *expected);
                push_str(&mut out, ", got ");
                push_hex32(&mut out, *actual);
            },
            StorageError::DoubleWriteRestoreFailed { page_id } => {
                push_str(&mut out, "double-write restore for page ");
                push_decimal(&mut out, *page_id as u64);
                push_str(
                    &mut out,
                    " did not survive its own write; the batch is left in place for a retry",
                );
            },
            StorageError::InvalidDwbCapacity => push_str(
                &mut out,
                "double-write buffer capacity must be at least 1, got 0",
            ),
            StorageError::InPlaceUpdateOutOfBounds { page_id, slot, tuple_len, offset, patch_len } => {
                push_str(&mut out, "in-place update of ");
                push_decimal(&mut out, *patch_len as u64);
                push_str(&mut out, " bytes at offset ");
                push_decimal(&mut out, *offset as u64);
                push_str(&mut out, " overruns the ");
                push_decimal(&mut out, *tuple_len as u64);
                push_str(&mut out, "-byte tuple in slot ");
                push_decimal(&mut out, *slot as u64);
                push_str(&mut out, " of page ");
                push_decimal(&mut out, *page_id as u64);
            },
            StorageError::NodeOverflow { page_id, required, capacity } => {
                push_str(&mut out, "index node on page ");
                push_decimal(&mut out, *page_id as u64);
                push_str(&mut out, " needs ");
                push_decimal(&mut out, *required as u64);
                push_str(&mut out, " bytes but a page holds ");
                push_decimal(&mut out, *capacity as u64);
            },
        }
        assert(out@ =~= storage_message(*self));
        out
    }
}

impl TxnError {
    /// The text this error is displayed as.
    pub fn message(&self) -> (m: String)
        ensures
            m@ == txn_message(*self),
    {
        let mut out = String::new();
        match self {
            TxnError::DeadlockVictim(id) => {
                push_str(&mut out, "deadlock detected, transaction ");
                push_decimal(&mut out, *id);
                push_str(&mut out, " aborted");
            },
            TxnError::LockAfterUnlock(id) => {
                push_str(&mut out, "transaction ");
                push_decimal(&mut out, *id);
                push_str(
                    &mut out,
                    " may not acquire new locks after release_all was already called for it",
                );
            },
            TxnError::UnknownTransaction(id) => {
                push_str(&mut out, "unknown transaction ");
                push_decimal(&mut out, *id);
            },
            TxnError::AbortInProgress(id) => {
                push_str(&mut out, "transaction ");
                push_decimal(&mut out, *id);
                push_str(&mut out, " is already being aborted");
            },
            TxnError::Storage(e) => {
                let inner = e.message();
                push_str(&mut out, inner.as_str());
            },
        }
        assert(out@ =~= txn_message(*self));
        out
    }
}

} // verus!
