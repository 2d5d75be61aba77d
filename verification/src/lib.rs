//! A document store: JSON documents, indexed by the text of their fields.
pub mod answers;
pub mod basic;
pub mod basic_service;
pub mod bulk;
pub mod clock;
pub mod config;
pub mod consistency;
pub mod decimal;
pub mod dump;
pub mod effects;
pub mod engine;
pub mod eval;
pub mod files;
pub mod history;
pub mod ids;
pub mod index;
pub mod indexed;
pub mod json;
pub mod list_consistency;
pub mod list_meaning;
pub mod list_service;
pub mod lists;
pub mod meaning;
pub mod named;
pub mod number;
pub mod ordmap;
pub mod query;
pub mod recency;
pub mod record;
pub mod recovery;
pub mod repetition;
pub mod replica;
pub mod replication;
pub mod reply;
pub mod requests;
pub mod running;
pub mod search;
pub mod service;
pub mod shard;
pub mod snapshot;
pub mod sort;
pub mod soundness;
pub mod store;
pub mod tenancy;
pub mod text;
pub mod value;
pub mod wal;
pub mod written;
