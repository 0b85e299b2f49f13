//! A small embedded relational engine: tables of typed rows with secondary
//! indexes, predicate-driven selection, multi-key sorting, and sort-merge
//! joins. Tables are fully materialized in memory; persistence happens at the
//! boundary through a byte codec, so the engine itself never touches a file.

pub mod codec;
pub mod column;
pub mod errors;
pub mod filter;
pub mod index;
pub mod join;
pub mod laws;
pub mod parse;
pub mod paths;
pub mod seq_lemmas;
pub mod sort;
pub mod storage;
pub mod strutil;
pub mod table;
pub mod value;
