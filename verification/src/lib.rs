pub mod blob;
pub mod cahill;
pub mod cf;
pub mod chunk;
pub mod cleanup;
pub mod codec;
pub mod collect_laws;
pub mod commit_laws;
pub mod commit_steps;
pub mod coordinator;
pub mod decode_laws;
pub mod error;
pub mod flush;
pub mod flush_laws;
pub mod gc;
pub mod history;
pub mod layout_laws;
pub mod lock_laws;
pub mod locks;
pub mod lookup_laws;
pub mod memtable;
pub mod metrics;
pub mod order;
pub mod outcome_laws;
pub mod outside;
pub mod read;
pub mod read_laws;
pub mod rebuild;
pub mod rebuild_laws;
pub mod record_key;
pub mod record_laws;
pub mod recording;
pub mod recording_laws;
pub mod recovery;
pub mod recovery_laws;
pub mod restore_laws;
pub mod si_lock_manager;
pub mod skew_laws;
pub mod step_laws;
pub mod store;
pub mod store_chains;
pub mod store_laws;
pub mod store_records;
pub mod sweep_laws;
pub mod table;
pub mod telemetry;
pub mod telemetry_laws;
pub mod text;
pub mod text_laws;
pub mod txn_laws;
pub mod txn_state;
pub mod types;
pub mod version_chain;
pub mod version_index;
pub mod wal;
