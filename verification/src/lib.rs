//! A small-footprint embedded record store: an in-memory, duplicate-free
//! table of records with optional persistence to a single binary file.
//!
//! The table ([`Database`]) owns an unordered, deduplicated collection of
//! records, a label, an optional explicit save path and a duplicate-handling
//! policy.  Records are any type implementing the [`Record`] contract:
//! an equality decider together with a symmetric binary encoding.
//!
//! Persistence goes through a self-describing binary payload
//! (magic bytes, format version, record count, then length-prefixed record
//! encodings).  `dump_db` produces that payload; `load_db` rebuilds the
//! collection from it, all-or-nothing.  Reading and writing the file itself
//! is the embedding host's job: the host resolves the save path, hands the
//! payload bytes to the filesystem, and reports failures as
//! [`DatabaseError::IOError`].

use vstd::prelude::*;

mod codec;
mod errors;
mod record;
mod table;

pub use codec::lemma_payload_injective;
pub use codec::spec_payload;
pub use errors::io_to_dberror;
pub use errors::path_to_dberror;
pub use errors::DatabaseError;
pub use record::Person;
pub use record::PersonV;
pub use record::Record;
pub use table::lemma_dump_load_round_trip;
pub use table::lemma_remove_then_absent;
pub use table::lemma_wf_cardinality;
pub use table::Database;
