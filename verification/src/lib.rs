//! # `pile` - a simple and fast append-only data store
//!
//! ## Design goals
//!
//! * Efficient adding of big chunks of data.
//! * A user should be able to copy the storage data (for example, over the
//!   network) while still being able to use the database for both reads and
//!   writes.
//! * The storage should have a minimal dependency footprint.
//!
//! ## How the store is built
//!
//! A database is two byte streams: the flat file, which holds the bytes of
//! all records one behind the other, and the index, which holds the offset of
//! each record. A stream lives in memory maps: the maps that are full are
//! read-only, the last one takes what is appended. A record is found by its
//! sequence number, which is the number of records that were added before it.
//!
//! Every function of the library comes with a contract that says what it
//! returns and how it changes the store, over the bytes of the two streams.
//! The maps themselves are made and written by the `memmap2` crate; what the
//! library takes for granted of that crate stands in the module `mapping`.
//!
//! ```rust,ignore
//! use data_pile::Database;
//! let mut db = Database::memory().unwrap();
//! let value = b"some data";
//! db.put(value).unwrap();
//! assert_eq!(Some(value.to_vec()), db.get_by_seqno(0));
//! ```

pub mod appender;
pub mod consistency;
pub mod database;
pub mod error;
pub mod flatfile;
pub mod growable_mmap;
pub mod index;
pub mod index_on_mmaps;
pub mod mapping;
pub mod page_index;
pub mod record;
pub mod seqno;
pub mod seqno_iter;
pub mod serialization;
pub mod shared_mmap;
pub mod stream;
pub mod testutils;

pub use database::Database;
pub use error::Error;
pub use seqno_iter::SeqNoIter;
pub use shared_mmap::SharedMmap;
