//! A small single-node relational storage engine: a paged heap file with a
//! slot bitmap, a fixed-width row codec, a primary-key index, a catalog of
//! table schemas and an executor for typed commands.

pub mod catalog;
pub mod engine;
pub mod error;
pub mod index;
pub mod mutation;
pub mod query;
pub mod seqs;
pub mod soundness;
pub mod sql;
pub mod storage;
pub mod strmap;
pub mod text;
