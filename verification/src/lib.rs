//! Object-store persistence for a database server: sorted runs of versioned rows, the
//! transaction-local staging that feeds them, and the archive of write-ahead log that
//! a server restores from.
pub mod archive;
pub mod archive_laws;
pub mod bloom;
pub mod codec;
pub mod commit;
pub mod create;
pub mod decode;
pub mod export;
pub mod export_laws;
pub mod fault_laws;
pub mod faults;
pub mod filter_laws;
pub mod founding_laws;
pub mod history_laws;
pub mod http;
pub mod image;
pub mod incremental;
pub mod incremental_manifest;
pub mod inspect;
pub mod json;
pub mod key;
pub mod key_map;
pub mod lines;
pub mod manifest_laws;
pub mod manifest_text;
pub mod memory_laws;
pub mod memory_wal;
pub mod names;
pub mod native;
pub mod order;
pub mod page_laws;
pub mod pages;
pub mod plan_laws;
pub mod precommit;
pub mod preparing;
pub mod publish;
pub mod publish_laws;
pub mod publisher;
pub mod range_laws;
pub mod rebuild;
pub mod refusal;
pub mod renewal;
pub mod report;
pub mod restore;
pub mod reading_laws;
pub mod restore_laws;
pub mod restoring;
pub mod restoring_laws;
pub mod round_trip;
pub mod row_key;
pub mod row_laws;
pub mod rows;
pub mod run;
pub mod run_answers;
pub mod run_format;
pub mod run_laws;
pub mod run_pages;
pub mod run_points;
pub mod run_read;
pub mod run_scans;
pub mod scan;
pub mod select;
pub mod select_laws;
pub mod session;
pub mod session_laws;
pub mod staging;
pub mod staging_laws;
pub mod startup;
pub mod store_laws;
pub mod strict_sync;
pub mod sums;
pub mod tables;
pub mod tar_laws;
pub mod tar_walk;
pub mod text;
pub mod text_laws;
pub mod wire;
