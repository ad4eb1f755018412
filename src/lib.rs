//! A personal e-book library's core.
//!
//! - `ingest`: content-addressed ingestion of EPUB archives: content hashes,
//!   a dedup filter, parsing into a book, its chapters and its table of
//!   contents with deterministic identifiers, and batching for storage.
//! - `query`: the search query language: a scanner for directives, the filter
//!   set they build, the clauses that the index runs, and what they match.
//! - `archive`: the bibliographic archive's records and their index documents.
//! - `text`: character-level helpers.

use vstd::prelude::*;

pub mod archive;
pub mod ingest;
pub mod query;
pub mod text;
