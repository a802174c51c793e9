//! Version index record type.

use crate::types::Version;
use crate::table::Row;
use vstd::prelude::*;

verus! {

/// Latest version of one object.
#[derive(Debug, PartialEq, Eq)]
pub struct VersionRecord {
    pub latest_version: Version,
    pub latest_etag: String,
    pub latest_backend_key: String,
    pub last_writer_txn_id: String,
    pub tombstone: bool,
    pub size: u64,
    pub last_modified_unix_ms: i64,
}

/// Mathematical view of [`VersionRecord`].
pub ghost struct VersionRecordView {
    pub latest_version: Version,
    pub latest_etag: Seq<char>,
    pub latest_backend_key: Seq<char>,
    pub last_writer_txn_id: Seq<char>,
    pub tombstone: bool,
    pub size: u64,
    pub last_modified_unix_ms: i64,
}

impl View for VersionRecord {
    type V = VersionRecordView;

    open spec fn view(&self) -> VersionRecordView {
        VersionRecordView {
            latest_version: self.latest_version,
            latest_etag: self.latest_etag@,
            latest_backend_key: self.latest_backend_key@,
            last_writer_txn_id: self.last_writer_txn_id@,
            tombstone: self.tombstone,
            size: self.size,
            last_modified_unix_ms: self.last_modified_unix_ms,
        }
    }
}

impl Clone for VersionRecord {
    fn clone(&self) -> (r: Self)
        ensures
            r@ == self@,
    {
        VersionRecord {
            latest_version: self.latest_version,
            latest_etag: self.latest_etag.clone(),
            latest_backend_key: self.latest_backend_key.clone(),
            last_writer_txn_id: self.last_writer_txn_id.clone(),
            tombstone: self.tombstone,
            size: self.size,
            last_modified_unix_ms: self.last_modified_unix_ms,
        }
    }
}

impl Default for VersionRecord {
    /// The record of an object that was never written.
    fn default() -> (r: Self)
        ensures
            r@ == (VersionRecordView {
                latest_version: Version(0),
                latest_etag: Seq::empty(),
                latest_backend_key: Seq::empty(),
                last_writer_txn_id: Seq::empty(),
                tombstone: false,
                size: 0,
                last_modified_unix_ms: 0,
            }),
    {
        VersionRecord {
            latest_version: Version::zero(),
            latest_etag: String::new(),
            latest_backend_key: String::new(),
            last_writer_txn_id: String::new(),
            tombstone: false,
            size: 0,
            last_modified_unix_ms: 0,
        }
    }
}

impl Row for VersionRecord {
    fn copy_row(&self) -> (r: Self) {
        self.clone()
    }
}

} // verus!
