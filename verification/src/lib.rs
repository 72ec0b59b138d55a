//! Persistence core of a single-user personal-finance tracker.
//!
//! The crate holds the logical content of the transaction store and every
//! rule that governs it: calendar dates, reference lookup sets, validated and
//! atomic writes of a transaction together with its type tags, keyset
//! pagination, bulk import with per-row outcomes, and the state of the
//! process-wide store handle. Reading and writing the encrypted file, and the
//! presentation layer, are left to the surrounding program.

pub mod date;
pub mod encrypted_store;
pub mod error;
pub mod import_pipeline;
pub mod link_table;
pub mod listing;
pub mod pagination;
pub mod reference_catalog;
pub mod seq_facts;
pub mod text;
pub mod transaction;
pub mod transaction_repository;
