//! A local, queryable snapshot of a public genome-wide-association catalog
//! and a hierarchical trait ontology.
//!
//! The crate holds the verified core: the entity model, the exact decimal
//! p-values and their total order, the two ingestion pipelines, the
//! archival codec with its proved round trip, the staleness controller's
//! decisions, and the query engine. The surrounding process — argument
//! handling, the blocking HTTP transport, disk reads and atomic temp-file
//! commits, and table rendering — lives outside and exchanges plain values
//! with these functions.
pub mod catalog;
pub mod codec;
pub mod data;
pub mod errors;
pub mod files;
pub mod ontology;
pub mod order;
pub mod pvalue;
pub mod query;
pub mod refresh;
pub mod text;
