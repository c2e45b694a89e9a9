//! A file-backed memory store: an append-only log of immutable content
//! frames, addressable by uri, with a lexical index, ranked and paginated
//! search, a chronological timeline and statistics.
//!
//! - `text`: tokenizing and term counting.
//! - `store`: frames, the commit protocol and the lexical index.
//! - `rank`: rank order and cursor paging.
//! - `query`: search and timeline.
//! - `codec`: self-delimiting, checksummed records.
//! - `layout`: where the records read from a file stand in it.
//! - `log`: the store file, its records, and recovery on open.
//! - `laws`: properties of the store proved over the spec model.

pub mod codec;
pub mod laws;
pub mod layout;
pub mod log;
pub mod query;
pub mod rank;
pub mod store;
pub mod text;
