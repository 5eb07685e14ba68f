//! Compares two directory trees by file content.
//!
//! Each regular file gets a content fingerprint (the lowercase hex form of
//! its MD5 digest). The fingerprints of one tree are gathered into a
//! [`FingerprintIndex`], and two indices are reconciled into the files of the
//! second tree that duplicate content of the first and those that do not.
pub mod actions;
pub mod fingerprint;
pub mod index;
pub mod reconcile;

pub use actions::{parse_actions, parse_invocation, path_list_text, Actions, Invocation, UsageError};
pub use fingerprint::{fingerprint, hex_encode};
pub use index::{index_records, FileRecord, FingerprintIndex, IndexEntry};
pub use reconcile::{compare_folders, fingerprints_only_in, reconcile, Comparison, ReconciliationResult};
