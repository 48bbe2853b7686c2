//! A multi-language source-code symbol index with call-graph impact
//! analysis, progressive fuzzy lookup and snapshot diffs.
//!
//! The contracts of this library are stated over the mathematical model of
//! its data: text is a `Seq<char>`, rows and results are viewed as plain
//! records of sequences and integers.
//!
//! - `registry`, `parser`, `syntax`, `extract`: from a source text to its
//!   pending symbols and calls.
//! - `walker`, `detector`, `digest`: which files are looked at, and which of
//!   them are skipped, recorded only, or parsed.
//! - `store`, `link`, `indexer`, `schema`, `saving`: the indexed state, what a
//!   run makes of it, the schema it is kept in, and what is written of it.
//! - `query`, `graph`, `impact`, `snapshot`, `views`: what is read from the
//!   indexed state.
//! - `model`, `text`: the shared data and the text functions.

pub mod detector;
pub mod digest;
pub mod extract;
pub mod graph;
pub mod impact;
pub mod indexer;
pub mod link;
pub mod model;
pub mod parser;
pub mod query;
pub mod registry;
pub mod saving;
pub mod schema;
pub mod snapshot;
pub mod store;
pub mod syntax;
pub mod text;
pub mod views;
pub mod walker;
