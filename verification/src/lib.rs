//! An append-only embedded key-value store.
//!
//! Records (pairs of opaque byte strings) are appended in batches to a
//! byte log, and can be retrieved by key, by insertion sequence number,
//! or by forward iteration from a sequence number.  The log is the sole
//! source of truth: the key index and the sequence-number index are
//! rebuilt from it when a database is opened.

pub mod codec;
pub mod database;
pub mod error;
pub mod flatfile;
pub mod index;
pub mod record;
pub mod seqno;

pub use database::Database;
pub use database::DatabaseBuilder;
pub use error::Error;
pub use flatfile::SeqNoIter;
pub use record::Record;
