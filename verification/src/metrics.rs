//! Metric instruments.
//!
//! Every instrument is declared once, here: its kind, name, description and
//! unit. HTTP requests have rate, errors and duration; transactions, storage,
//! object store and process have theirs.

use vstd::prelude::*;

verus! {

/// Kind of an instrument.
#[derive(Debug, Clone, Copy, PartialEq, Eq, Structural)]
pub enum InstrumentKind {
    /// Distribution of numbers.
    Histogram,
    /// Number that only grows.
    Counter,
    /// Number that grows and shrinks.
    UpDownCounter,
}

/// The instruments of the server.
#[derive(Debug, Clone, Copy, PartialEq, Eq, Structural)]
pub enum Metric {
    /// Wall-clock duration of HTTP server requests, in seconds.
    HttpRequestDuration,
    /// Total count of HTTP server requests received.
    HttpRequestsTotal,
    /// Number of HTTP server requests currently in-flight.
    HttpActiveRequests,
    /// Wall-clock duration of transaction commit attempts, in seconds.
    TxnCommitDuration,
    /// Total count of transaction commit attempts.
    TxnCommitTotal,
    /// Number of transaction commit operations currently in-flight.
    TxnCommitActive,
    /// Wall-clock duration of transaction aborts, in seconds.
    TxnAbortDuration,
    /// Total count of transaction aborts.
    TxnAbortTotal,
    /// Wall-clock duration of transaction begin operations, in seconds.
    TxnBeginDuration,
    /// Total count of transaction begin operations.
    TxnBeginTotal,
    /// Total count of SSI write-write conflicts detected.
    TxnSsiConflictTotal,
    /// Wall-clock duration of memtable write operations, in seconds.
    MemtableWriteDuration,
    /// Wall-clock duration of memtable flush operations, in seconds.
    MemtableFlushDuration,
    /// Current bytes occupied by memtables (active + immutable).
    MemtableBytes,
    /// Current number of entries across all memtables.
    MemtableEntries,
    /// Wall-clock duration of chunk uploads, in seconds.
    ChunkUploadDuration,
    /// Wall-clock duration of chunk downloads, in seconds.
    ChunkDownloadDuration,
    /// Total count of chunk cache hits.
    ChunkCacheHits,
    /// Total count of chunk cache misses.
    ChunkCacheMisses,
    /// Current bytes held in the chunk cache.
    ChunkCacheBytes,
    /// Wall-clock duration of WAL append operations, in seconds.
    WalAppendDuration,
    /// Wall-clock duration of GC sweeps, in seconds.
    GcSweepDuration,
    /// Total entries removed by GC sweeps.
    GcEntriesRemoved,
    /// Wall-clock duration of WAL replay during recovery, in seconds.
    RecoveryReplayDuration,
    /// Wall-clock duration of cold rebuild operations, in seconds.
    RebuildColdDuration,
    /// Wall-clock duration of S3 backend operations, in seconds.
    BackendS3Duration,
    /// Total count of S3 backend operations.
    BackendS3Total,
    /// Process heap memory usage in bytes (sampled gauge via UpDownCounter).
    ProcessRuntimeMemoryHeap,
    /// Number of CPU cores available to the process.
    ProcessRuntimeCpuCount,
    /// Process uptime since boot, in seconds (OTel semconv counter).
    ProcessRuntimeUptime,
}

/// Declaration of an instrument.
#[derive(Debug, Clone, Copy)]
pub struct Instrument {
    pub kind: InstrumentKind,
    pub name: &'static str,
    pub description: &'static str,
    /// Unit, empty where there is none.
    pub unit: &'static str,
}

/// Mathematical view of an [`Instrument`].
pub ghost struct InstrumentView {
    pub kind: InstrumentKind,
    pub name: Seq<char>,
    pub description: Seq<char>,
    pub unit: Seq<char>,
}

impl View for Instrument {
    type V = InstrumentView;

    open spec fn view(&self) -> InstrumentView {
        InstrumentView {
            kind: self.kind,
            name: self.name@,
            description: self.description@,
            unit: self.unit@,
        }
    }
}

/// Kind of an instrument.
pub open spec fn metric_kind(m: Metric) -> InstrumentKind {
    match m {
        Metric::HttpRequestDuration => InstrumentKind::Histogram,
        Metric::HttpRequestsTotal => InstrumentKind::Counter,
        Metric::HttpActiveRequests => InstrumentKind::UpDownCounter,
        Metric::TxnCommitDuration => InstrumentKind::Histogram,
        Metric::TxnCommitTotal => InstrumentKind::Counter,
        Metric::TxnCommitActive => InstrumentKind::UpDownCounter,
        Metric::TxnAbortDuration => InstrumentKind::Histogram,
        Metric::TxnAbortTotal => InstrumentKind::Counter,
        Metric::TxnBeginDuration => InstrumentKind::Histogram,
        Metric::TxnBeginTotal => InstrumentKind::Counter,
        Metric::TxnSsiConflictTotal => InstrumentKind::Counter,
        Metric::MemtableWriteDuration => InstrumentKind::Histogram,
        Metric::MemtableFlushDuration => InstrumentKind::Histogram,
        Metric::MemtableBytes => InstrumentKind::UpDownCounter,
        Metric::MemtableEntries => InstrumentKind::UpDownCounter,
        Metric::ChunkUploadDuration => InstrumentKind::Histogram,
        Metric::ChunkDownloadDuration => InstrumentKind::Histogram,
        Metric::ChunkCacheHits => InstrumentKind::Counter,
        Metric::ChunkCacheMisses => InstrumentKind::Counter,
        Metric::ChunkCacheBytes => InstrumentKind::UpDownCounter,
        Metric::WalAppendDuration => InstrumentKind::Histogram,
        Metric::GcSweepDuration => InstrumentKind::Histogram,
        Metric::GcEntriesRemoved => InstrumentKind::Counter,
        Metric::RecoveryReplayDuration => InstrumentKind::Histogram,
        Metric::RebuildColdDuration => InstrumentKind::Histogram,
        Metric::BackendS3Duration => InstrumentKind::Histogram,
        Metric::BackendS3Total => InstrumentKind::Counter,
        Metric::ProcessRuntimeMemoryHeap => InstrumentKind::UpDownCounter,
        Metric::ProcessRuntimeCpuCount => InstrumentKind::UpDownCounter,
        Metric::ProcessRuntimeUptime => InstrumentKind::Counter,
    }
}

/// Name of an instrument.
pub open spec fn metric_name(m: Metric) -> Seq<char> {
    match m {
        Metric::HttpRequestDuration => "http.server.request.duration"@,
        Metric::HttpRequestsTotal => "http.server.requests"@,
        Metric::HttpActiveRequests => "http.server.active_requests"@,
        Metric::TxnCommitDuration => "txn.commit.duration"@,
        Metric::TxnCommitTotal => "txn.commit.count"@,
        Metric::TxnCommitActive => "txn.commit.active"@,
        Metric::TxnAbortDuration => "txn.abort.duration"@,
        Metric::TxnAbortTotal => "txn.abort.count"@,
        Metric::TxnBeginDuration => "txn.begin.duration"@,
        Metric::TxnBeginTotal => "txn.begin.count"@,
        Metric::TxnSsiConflictTotal => "txn.ssi.conflict.count"@,
        Metric::MemtableWriteDuration => "memtable.write.duration"@,
        Metric::MemtableFlushDuration => "memtable.flush.duration"@,
        Metric::MemtableBytes => "memtable.bytes"@,
        Metric::MemtableEntries => "memtable.entries"@,
        Metric::ChunkUploadDuration => "chunk.upload.duration"@,
        Metric::ChunkDownloadDuration => "chunk.download.duration"@,
        Metric::ChunkCacheHits => "chunk.cache.hits"@,
        Metric::ChunkCacheMisses => "chunk.cache.misses"@,
        Metric::ChunkCacheBytes => "chunk.cache.bytes"@,
        Metric::WalAppendDuration => "wal.append.duration"@,
        Metric::GcSweepDuration => "gc.sweep.duration"@,
        Metric::GcEntriesRemoved => "gc.entries.removed"@,
        Metric::RecoveryReplayDuration => "recovery.replay.duration"@,
        Metric::RebuildColdDuration => "rebuild.cold.duration"@,
        Metric::BackendS3Duration => "backend.s3.duration"@,
        Metric::BackendS3Total => "backend.s3.count"@,
        Metric::ProcessRuntimeMemoryHeap => "process.runtime.memory.heap"@,
        Metric::ProcessRuntimeCpuCount => "process.runtime.cpu.count"@,
        Metric::ProcessRuntimeUptime => "process.runtime.uptime"@,
    }
}

/// What tells the name of an instrument from all others: its length, its fifth
/// and its tenth character.
spec fn name_mark(m: Metric) -> (nat, char, char) {
    match m {
        Metric::HttpRequestDuration => (28, '.', 'e'),
        Metric::HttpRequestsTotal => (20, '.', 'e'),
        Metric::HttpActiveRequests => (27, '.', 'e'),
        Metric::TxnCommitDuration => (19, 'c', 't'),
        Metric::TxnCommitTotal => (16, 'c', 't'),
        Metric::TxnCommitActive => (17, 'c', 't'),
        Metric::TxnAbortDuration => (18, 'a', '.'),
        Metric::TxnAbortTotal => (15, 'a', '.'),
        Metric::TxnBeginDuration => (18, 'b', '.'),
        Metric::TxnBeginTotal => (15, 'b', '.'),
        Metric::TxnSsiConflictTotal => (22, 's', 'o'),
        Metric::MemtableWriteDuration => (23, 'a', 'w'),
        Metric::MemtableFlushDuration => (23, 'a', 'f'),
        Metric::MemtableBytes => (14, 'a', 'b'),
        Metric::MemtableEntries => (16, 'a', 'e'),
        Metric::ChunkUploadDuration => (21, 'k', 'o'),
        Metric::ChunkDownloadDuration => (23, 'k', 'n'),
        Metric::ChunkCacheHits => (16, 'k', 'h'),
        Metric::ChunkCacheMisses => (18, 'k', 'h'),
        Metric::ChunkCacheBytes => (17, 'k', 'h'),
        Metric::WalAppendDuration => (19, 'a', 'd'),
        Metric::GcSweepDuration => (17, 'w', 'd'),
        Metric::GcEntriesRemoved => (18, 'n', 's'),
        Metric::RecoveryReplayDuration => (24, 'v', 'r'),
        Metric::RebuildColdDuration => (21, 'i', 'o'),
        Metric::BackendS3Duration => (19, 'e', '3'),
        Metric::BackendS3Total => (16, 'e', '3'),
        Metric::ProcessRuntimeMemoryHeap => (27, 'e', 'u'),
        Metric::ProcessRuntimeCpuCount => (25, 'e', 'u'),
        Metric::ProcessRuntimeUptime => (22, 'e', 'u'),
    }
}

proof fn lemma_name_mark(m: Metric)
    ensures
        metric_name(m).len() == name_mark(m).0,
        metric_name(m).len() >= 10,
        metric_name(m)[4] == name_mark(m).1,
        metric_name(m)[9] == name_mark(m).2,
{
    match m {
        Metric::HttpRequestDuration => {
            reveal_strlit("http.server.request.duration");
        },
        Metric::HttpRequestsTotal => {
            reveal_strlit("http.server.requests");
        },
        Metric::HttpActiveRequests => {
            reveal_strlit("http.server.active_requests");
        },
        Metric::TxnCommitDuration => {
            reveal_strlit("txn.commit.duration");
        },
        Metric::TxnCommitTotal => {
            reveal_strlit("txn.commit.count");
        },
        Metric::TxnCommitActive => {
            reveal_strlit("txn.commit.active");
        },
        Metric::TxnAbortDuration => {
            reveal_strlit("txn.abort.duration");
        },
        Metric::TxnAbortTotal => {
            reveal_strlit("txn.abort.count");
        },
        Metric::TxnBeginDuration => {
            reveal_strlit("txn.begin.duration");
        },
        Metric::TxnBeginTotal => {
            reveal_strlit("txn.begin.count");
        },
        Metric::TxnSsiConflictTotal => {
            reveal_strlit("txn.ssi.conflict.count");
        },
        Metric::MemtableWriteDuration => {
            reveal_strlit("memtable.write.duration");
        },
        Metric::MemtableFlushDuration => {
            reveal_strlit("memtable.flush.duration");
        },
        Metric::MemtableBytes => {
            reveal_strlit("memtable.bytes");
        },
        Metric::MemtableEntries => {
            reveal_strlit("memtable.entries");
        },
        Metric::ChunkUploadDuration => {
            reveal_strlit("chunk.upload.duration");
        },
        Metric::ChunkDownloadDuration => {
            reveal_strlit("chunk.download.duration");
        },
        Metric::ChunkCacheHits => {
            reveal_strlit("chunk.cache.hits");
        },
        Metric::ChunkCacheMisses => {
            reveal_strlit("chunk.cache.misses");
        },
        Metric::ChunkCacheBytes => {
            reveal_strlit("chunk.cache.bytes");
        },
        Metric::WalAppendDuration => {
            reveal_strlit("wal.append.duration");
        },
        Metric::GcSweepDuration => {
            reveal_strlit("gc.sweep.duration");
        },
        Metric::GcEntriesRemoved => {
            reveal_strlit("gc.entries.removed");
        },
        Metric::RecoveryReplayDuration => {
            reveal_strlit("recovery.replay.duration");
        },
        Metric::RebuildColdDuration => {
            reveal_strlit("rebuild.cold.duration");
        },
        Metric::BackendS3Duration => {
            reveal_strlit("backend.s3.duration");
        },
        Metric::BackendS3Total => {
            reveal_strlit("backend.s3.count");
        },
        Metric::ProcessRuntimeMemoryHeap => {
            reveal_strlit("process.runtime.memory.heap");
        },
        Metric::ProcessRuntimeCpuCount => {
            reveal_strlit("process.runtime.cpu.count");
        },
        Metric::ProcessRuntimeUptime => {
            reveal_strlit("process.runtime.uptime");
        },
    }
}

/// No two instruments have the same name.
pub proof fn law_metric_names_are_distinct(a: Metric, b: Metric)
    requires
        metric_name(a) == metric_name(b),
    ensures
        a == b,
{
    lemma_name_mark(a);
    lemma_name_mark(b);
}

/// Description of an instrument.
pub open spec fn metric_description(m: Metric) -> Seq<char> {
    match m {
        Metric::HttpRequestDuration => "Duration of HTTP server requests"@,
        Metric::HttpRequestsTotal => "Total HTTP server requests"@,
        Metric::HttpActiveRequests => "Active HTTP server requests"@,
        Metric::TxnCommitDuration => "Duration of transaction commits"@,
        Metric::TxnCommitTotal => "Total transaction commit attempts"@,
        Metric::TxnCommitActive => "In-flight commit operations"@,
        Metric::TxnAbortDuration => "Duration of transaction aborts"@,
        Metric::TxnAbortTotal => "Total transaction aborts"@,
        Metric::TxnBeginDuration => "Duration of transaction begins"@,
        Metric::TxnBeginTotal => "Total transaction begins"@,
        Metric::TxnSsiConflictTotal => "SSI conflict count"@,
        Metric::MemtableWriteDuration => "Duration of memtable write operations"@,
        Metric::MemtableFlushDuration => "Duration of memtable flush operations"@,
        Metric::MemtableBytes => "Current memtable bytes (active + immutable)"@,
        Metric::MemtableEntries => "Current memtable entry count"@,
        Metric::ChunkUploadDuration => "Duration of chunk uploads"@,
        Metric::ChunkDownloadDuration => "Duration of chunk downloads"@,
        Metric::ChunkCacheHits => "Chunk cache hits"@,
        Metric::ChunkCacheMisses => "Chunk cache misses"@,
        Metric::ChunkCacheBytes => "Current chunk cache size in bytes"@,
        Metric::WalAppendDuration => "Duration of WAL append operations"@,
        Metric::GcSweepDuration => "Duration of GC sweeps"@,
        Metric::GcEntriesRemoved => "Entries removed by GC sweeps"@,
        Metric::RecoveryReplayDuration => "Duration of WAL replay during recovery"@,
        Metric::RebuildColdDuration => "Duration of cold rebuild operations"@,
        Metric::BackendS3Duration => "Duration of S3 backend operations"@,
        Metric::BackendS3Total => "Total S3 backend operations"@,
        Metric::ProcessRuntimeMemoryHeap => "Process heap memory usage in bytes"@,
        Metric::ProcessRuntimeCpuCount => "Number of CPU cores available to the process"@,
        Metric::ProcessRuntimeUptime => "Process uptime since boot"@,
    }
}

/// Unit of an instrument: seconds, bytes, or none.
pub open spec fn metric_unit(m: Metric) -> Seq<char> {
    match m {
        Metric::HttpRequestDuration => "s"@,
        Metric::TxnCommitDuration => "s"@,
        Metric::TxnAbortDuration => "s"@,
        Metric::TxnBeginDuration => "s"@,
        Metric::MemtableWriteDuration => "s"@,
        Metric::MemtableFlushDuration => "s"@,
        Metric::MemtableBytes => "By"@,
        Metric::ChunkUploadDuration => "s"@,
        Metric::ChunkDownloadDuration => "s"@,
        Metric::ChunkCacheBytes => "By"@,
        Metric::WalAppendDuration => "s"@,
        Metric::GcSweepDuration => "s"@,
        Metric::RecoveryReplayDuration => "s"@,
        Metric::RebuildColdDuration => "s"@,
        Metric::BackendS3Duration => "s"@,
        Metric::ProcessRuntimeMemoryHeap => "By"@,
        Metric::ProcessRuntimeUptime => "s"@,
        _ => ""@,
    }
}

impl Metric {
    /// Declaration of the instrument.
    pub fn instrument(self) -> (r: Instrument)
        ensures
            r@ == (InstrumentView {
                kind: metric_kind(self),
                name: metric_name(self),
                description: metric_description(self),
                unit: metric_unit(self),
            }),
    {
        match self {
            Metric::HttpRequestDuration => Instrument {
                kind: InstrumentKind::Histogram,
                name: "http.server.request.duration",
                description: "Duration of HTTP server requests",
                unit: "s",
            },
            Metric::HttpRequestsTotal => Instrument {
                kind: InstrumentKind::Counter,
                name: "http.server.requests",
                description: "Total HTTP server requests",
                unit: "",
            },
            Metric::HttpActiveRequests => Instrument {
                kind: InstrumentKind::UpDownCounter,
                name: "http.server.active_requests",
                description: "Active HTTP server requests",
                unit: "",
            },
            Metric::TxnCommitDuration => Instrument {
                kind: InstrumentKind::Histogram,
                name: "txn.commit.duration",
                description: "Duration of transaction commits",
                unit: "s",
            },
            Metric::TxnCommitTotal => Instrument {
                kind: InstrumentKind::Counter,
                name: "txn.commit.count",
                description: "Total transaction commit attempts",
                unit: "",
            },
            Metric::TxnCommitActive => Instrument {
                kind: InstrumentKind::UpDownCounter,
                name: "txn.commit.active",
                description: "In-flight commit operations",
                unit: "",
            },
            Metric::TxnAbortDuration => Instrument {
                kind: InstrumentKind::Histogram,
                name: "txn.abort.duration",
                description: "Duration of transaction aborts",
                unit: "s",
            },
            Metric::TxnAbortTotal => Instrument {
                kind: InstrumentKind::Counter,
                name: "txn.abort.count",
                description: "Total transaction aborts",
                unit: "",
            },
            Metric::TxnBeginDuration => Instrument {
                kind: InstrumentKind::Histogram,
                name: "txn.begin.duration",
                description: "Duration of transaction begins",
                unit: "s",
            },
            Metric::TxnBeginTotal => Instrument {
                kind: InstrumentKind::Counter,
                name: "txn.begin.count",
                description: "Total transaction begins",
                unit: "",
            },
            Metric::TxnSsiConflictTotal => Instrument {
                kind: InstrumentKind::Counter,
                name: "txn.ssi.conflict.count",
                description: "SSI conflict count",
                unit: "",
            },
            Metric::MemtableWriteDuration => Instrument {
                kind: InstrumentKind::Histogram,
                name: "memtable.write.duration",
                description: "Duration of memtable write operations",
                unit: "s",
            },
            Metric::MemtableFlushDuration => Instrument {
                kind: InstrumentKind::Histogram,
                name: "memtable.flush.duration",
                description: "Duration of memtable flush operations",
                unit: "s",
            },
            Metric::MemtableBytes => Instrument {
                kind: InstrumentKind::UpDownCounter,
                name: "memtable.bytes",
                description: "Current memtable bytes (active + immutable)",
                unit: "By",
            },
            Metric::MemtableEntries => Instrument {
                kind: InstrumentKind::UpDownCounter,
                name: "memtable.entries",
                description: "Current memtable entry count",
                unit: "",
            },
            Metric::ChunkUploadDuration => Instrument {
                kind: InstrumentKind::Histogram,
                name: "chunk.upload.duration",
                description: "Duration of chunk uploads",
                unit: "s",
            },
            Metric::ChunkDownloadDuration => Instrument {
                kind: InstrumentKind::Histogram,
                name: "chunk.download.duration",
                description: "Duration of chunk downloads",
                unit: "s",
            },
            Metric::ChunkCacheHits => Instrument {
                kind: InstrumentKind::Counter,
                name: "chunk.cache.hits",
                description: "Chunk cache hits",
                unit: "",
            },
            Metric::ChunkCacheMisses => Instrument {
                kind: InstrumentKind::Counter,
                name: "chunk.cache.misses",
                description: "Chunk cache misses",
                unit: "",
            },
            Metric::ChunkCacheBytes => Instrument {
                kind: InstrumentKind::UpDownCounter,
                name: "chunk.cache.bytes",
                description: "Current chunk cache size in bytes",
                unit: "By",
            },
            Metric::WalAppendDuration => Instrument {
                kind: InstrumentKind::Histogram,
                name: "wal.append.duration",
                description: "Duration of WAL append operations",
                unit: "s",
            },
            Metric::GcSweepDuration => Instrument {
                kind: InstrumentKind::Histogram,
                name: "gc.sweep.duration",
                description: "Duration of GC sweeps",
                unit: "s",
            },
            Metric::GcEntriesRemoved => Instrument {
                kind: InstrumentKind::Counter,
                name: "gc.entries.removed",
                description: "Entries removed by GC sweeps",
                unit: "",
            },
            Metric::RecoveryReplayDuration => Instrument {
                kind: InstrumentKind::Histogram,
                name: "recovery.replay.duration",
                description: "Duration of WAL replay during recovery",
                unit: "s",
            },
            Metric::RebuildColdDuration => Instrument {
                kind: InstrumentKind::Histogram,
                name: "rebuild.cold.duration",
                description: "Duration of cold rebuild operations",
                unit: "s",
            },
            Metric::BackendS3Duration => Instrument {
                kind: InstrumentKind::Histogram,
                name: "backend.s3.duration",
                description: "Duration of S3 backend operations",
                unit: "s",
            },
            Metric::BackendS3Total => Instrument {
                kind: InstrumentKind::Counter,
                name: "backend.s3.count",
                description: "Total S3 backend operations",
                unit: "",
            },
            Metric::ProcessRuntimeMemoryHeap => Instrument {
                kind: InstrumentKind::UpDownCounter,
                name: "process.runtime.memory.heap",
                description: "Process heap memory usage in bytes",
                unit: "By",
            },
            Metric::ProcessRuntimeCpuCount => Instrument {
                kind: InstrumentKind::UpDownCounter,
                name: "process.runtime.cpu.count",
                description: "Number of CPU cores available to the process",
                unit: "",
            },
            Metric::ProcessRuntimeUptime => Instrument {
                kind: InstrumentKind::Counter,
                name: "process.runtime.uptime",
                description: "Process uptime since boot",
                unit: "s",
            },
        }
    }
}

/// All instruments.
pub fn all_metrics() -> (r: Vec<Metric>)
    ensures
        forall|m: Metric| #[trigger] r@.contains(m),
        forall|i: int, j: int| 0 <= i < j < r@.len() ==> r@[i] != r@[j],
{
    let r: Vec<Metric> = vec![
        Metric::HttpRequestDuration,
        Metric::HttpRequestsTotal,
        Metric::HttpActiveRequests,
        Metric::TxnCommitDuration,
        Metric::TxnCommitTotal,
        Metric::TxnCommitActive,
        Metric::TxnAbortDuration,
        Metric::TxnAbortTotal,
        Metric::TxnBeginDuration,
        Metric::TxnBeginTotal,
        Metric::TxnSsiConflictTotal,
        Metric::MemtableWriteDuration,
        Metric::MemtableFlushDuration,
        Metric::MemtableBytes,
        Metric::MemtableEntries,
        Metric::ChunkUploadDuration,
        Metric::ChunkDownloadDuration,
        Metric::ChunkCacheHits,
        Metric::ChunkCacheMisses,
        Metric::ChunkCacheBytes,
        Metric::WalAppendDuration,
        Metric::GcSweepDuration,
        Metric::GcEntriesRemoved,
        Metric::RecoveryReplayDuration,
        Metric::RebuildColdDuration,
        Metric::BackendS3Duration,
        Metric::BackendS3Total,
        Metric::ProcessRuntimeMemoryHeap,
        Metric::ProcessRuntimeCpuCount,
        Metric::ProcessRuntimeUptime,
    ];
    assert forall|m: Metric| #[trigger] r@.contains(m) by {
        match m {
            Metric::HttpRequestDuration => {
                assert(r@[0] == m);
            },
            Metric::HttpRequestsTotal => {
                assert(r@[1] == m);
            },
            Metric::HttpActiveRequests => {
                assert(r@[2] == m);
            },
            Metric::TxnCommitDuration => {
                assert(r@[3] == m);
            },
            Metric::TxnCommitTotal => {
                assert(r@[4] == m);
            },
            Metric::TxnCommitActive => {
                assert(r@[5] == m);
            },
            Metric::TxnAbortDuration => {
                assert(r@[6] == m);
            },
            Metric::TxnAbortTotal => {
                assert(r@[7] == m);
            },
            Metric::TxnBeginDuration => {
                assert(r@[8] == m);
            },
            Metric::TxnBeginTotal => {
                assert(r@[9] == m);
            },
            Metric::TxnSsiConflictTotal => {
                assert(r@[10] == m);
            },
            Metric::MemtableWriteDuration => {
                assert(r@[11] == m);
            },
            Metric::MemtableFlushDuration => {
                assert(r@[12] == m);
            },
            Metric::MemtableBytes => {
                assert(r@[13] == m);
            },
            Metric::MemtableEntries => {
                assert(r@[14] == m);
            },
            Metric::ChunkUploadDuration => {
                assert(r@[15] == m);
            },
            Metric::ChunkDownloadDuration => {
                assert(r@[16] == m);
            },
            Metric::ChunkCacheHits => {
                assert(r@[17] == m);
            },
            Metric::ChunkCacheMisses => {
                assert(r@[18] == m);
            },
            Metric::ChunkCacheBytes => {
                assert(r@[19] == m);
            },
            Metric::WalAppendDuration => {
                assert(r@[20] == m);
            },
            Metric::GcSweepDuration => {
                assert(r@[21] == m);
            },
            Metric::GcEntriesRemoved => {
                assert(r@[22] == m);
            },
            Metric::RecoveryReplayDuration => {
                assert(r@[23] == m);
            },
            Metric::RebuildColdDuration => {
                assert(r@[24] == m);
            },
            Metric::BackendS3Duration => {
                assert(r@[25] == m);
            },
            Metric::BackendS3Total => {
                assert(r@[26] == m);
            },
            Metric::ProcessRuntimeMemoryHeap => {
                assert(r@[27] == m);
            },
            Metric::ProcessRuntimeCpuCount => {
                assert(r@[28] == m);
            },
            Metric::ProcessRuntimeUptime => {
                assert(r@[29] == m);
            },
        }
    }
    r
}

/// What is distributed are durations, and nothing else: the histograms are the
/// instruments whose names end in `duration`, and those whose descriptions begin
/// with that word. They count seconds, and what counts bytes goes up and down.
pub proof fn law_histograms_are_the_durations(m: Metric)
    ensures
        metric_kind(m) == InstrumentKind::Histogram <==> "duration"@.is_suffix_of(metric_name(m)),
        metric_kind(m) == InstrumentKind::Histogram <==> "Duration"@.is_prefix_of(
            metric_description(m),
        ),
        metric_kind(m) == InstrumentKind::Histogram ==> metric_unit(m) == "s"@,
        metric_unit(m) == "By"@ ==> metric_kind(m) == InstrumentKind::UpDownCounter,
{
    reveal_strlit("duration");
    reveal_strlit("Duration");
    reveal_strlit("s");
    reveal_strlit("By");
    reveal_strlit("");
    assert("s"@.len() == 1 && "By"@.len() == 2 && ""@.len() == 0);
    assert("duration"@.len() == 8 && "Duration"@.len() == 8);
    let name = metric_name(m);
    let text = metric_description(m);
    assert("duration"@.is_suffix_of(name) ==> name[name.len() - 1] == 'n' && name[name.len() - 3]
        == 'i') by {
        if "duration"@.is_suffix_of(name) {
            let t = name.subrange(name.len() - 8, name.len() as int);
            assert(t[7] == 'n' && t[5] == 'i');
        }
    }
    assert("Duration"@.is_prefix_of(text) ==> text[0] == 'D') by {
        if "Duration"@.is_prefix_of(text) {
            let t = text.subrange(0, 8);
            assert(t[0] == 'D');
        }
    }
    match m {
        Metric::HttpRequestDuration => {
            reveal_strlit("http.server.request.duration");
            reveal_strlit("Duration of HTTP server requests");
        },
        Metric::HttpRequestsTotal => {
            reveal_strlit("http.server.requests");
            reveal_strlit("Total HTTP server requests");
        },
        Metric::HttpActiveRequests => {
            reveal_strlit("http.server.active_requests");
            reveal_strlit("Active HTTP server requests");
        },
        Metric::TxnCommitDuration => {
            reveal_strlit("txn.commit.duration");
            reveal_strlit("Duration of transaction commits");
        },
        Metric::TxnCommitTotal => {
            reveal_strlit("txn.commit.count");
            reveal_strlit("Total transaction commit attempts");
        },
        Metric::TxnCommitActive => {
            reveal_strlit("txn.commit.active");
            reveal_strlit("In-flight commit operations");
        },
        Metric::TxnAbortDuration => {
            reveal_strlit("txn.abort.duration");
            reveal_strlit("Duration of transaction aborts");
        },
        Metric::TxnAbortTotal => {
            reveal_strlit("txn.abort.count");
            reveal_strlit("Total transaction aborts");
        },
        Metric::TxnBeginDuration => {
            reveal_strlit("txn.begin.duration");
            reveal_strlit("Duration of transaction begins");
        },
        Metric::TxnBeginTotal => {
            reveal_strlit("txn.begin.count");
            reveal_strlit("Total transaction begins");
        },
        Metric::TxnSsiConflictTotal => {
            reveal_strlit("txn.ssi.conflict.count");
            reveal_strlit("SSI conflict count");
        },
        Metric::MemtableWriteDuration => {
            reveal_strlit("memtable.write.duration");
            reveal_strlit("Duration of memtable write operations");
        },
        Metric::MemtableFlushDuration => {
            reveal_strlit("memtable.flush.duration");
            reveal_strlit("Duration of memtable flush operations");
        },
        Metric::MemtableBytes => {
            reveal_strlit("memtable.bytes");
            reveal_strlit("Current memtable bytes (active + immutable)");
        },
        Metric::MemtableEntries => {
            reveal_strlit("memtable.entries");
            reveal_strlit("Current memtable entry count");
        },
        Metric::ChunkUploadDuration => {
            reveal_strlit("chunk.upload.duration");
            reveal_strlit("Duration of chunk uploads");
        },
        Metric::ChunkDownloadDuration => {
            reveal_strlit("chunk.download.duration");
            reveal_strlit("Duration of chunk downloads");
        },
        Metric::ChunkCacheHits => {
            reveal_strlit("chunk.cache.hits");
            reveal_strlit("Chunk cache hits");
        },
        Metric::ChunkCacheMisses => {
            reveal_strlit("chunk.cache.misses");
            reveal_strlit("Chunk cache misses");
        },
        Metric::ChunkCacheBytes => {
            reveal_strlit("chunk.cache.bytes");
            reveal_strlit("Current chunk cache size in bytes");
        },
        Metric::WalAppendDuration => {
            reveal_strlit("wal.append.duration");
            reveal_strlit("Duration of WAL append operations");
        },
        Metric::GcSweepDuration => {
            reveal_strlit("gc.sweep.duration");
            reveal_strlit("Duration of GC sweeps");
        },
        Metric::GcEntriesRemoved => {
            reveal_strlit("gc.entries.removed");
            reveal_strlit("Entries removed by GC sweeps");
        },
        Metric::RecoveryReplayDuration => {
            reveal_strlit("recovery.replay.duration");
            reveal_strlit("Duration of WAL replay during recovery");
        },
        Metric::RebuildColdDuration => {
            reveal_strlit("rebuild.cold.duration");
            reveal_strlit("Duration of cold rebuild operations");
        },
        Metric::BackendS3Duration => {
            reveal_strlit("backend.s3.duration");
            reveal_strlit("Duration of S3 backend operations");
        },
        Metric::BackendS3Total => {
            reveal_strlit("backend.s3.count");
            reveal_strlit("Total S3 backend operations");
        },
        Metric::ProcessRuntimeMemoryHeap => {
            reveal_strlit("process.runtime.memory.heap");
            reveal_strlit("Process heap memory usage in bytes");
        },
        Metric::ProcessRuntimeCpuCount => {
            reveal_strlit("process.runtime.cpu.count");
            reveal_strlit("Number of CPU cores available to the process");
        },
        Metric::ProcessRuntimeUptime => {
            reveal_strlit("process.runtime.uptime");
            reveal_strlit("Process uptime since boot");
        },
    }
    if name.len() >= 8 {
        assert(name.subrange(name.len() - 8, name.len() as int) =~= "duration"@ || metric_kind(m)
            != InstrumentKind::Histogram);
    }
    if metric_kind(m) == InstrumentKind::Histogram {
        assert(text.len() >= 8);
        assert(text.subrange(0, 8) =~= "Duration"@);
    } else {
        assert(text[0] != 'D');
    }
}

} // verus!
