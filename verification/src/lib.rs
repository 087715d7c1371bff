//! Reading and columnar encoding of line-delimited document corpora.
//!
//! A corpus is stored as one JSON document per line, optionally gzip
//! compressed, optionally split across numbered or listed file shards.
//! The crate presents such a corpus as one continuous sequence of
//! [`doc::Document`] values and turns batches of documents into flat
//! per-leaf value arrays paired with definition/repetition level arrays
//! for a Dremel-style columnar sink.

pub mod doc;
pub mod encoder;
pub mod error;
pub mod folder;
pub mod json;
pub mod reader;
pub mod shard;
