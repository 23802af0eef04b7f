//! Core of a local-first CRDT engine: the operation log, its causal graph and
//! the run-length-encoded storage underneath them.
//!
//! Every function in this crate is verified with Verus against the contract
//! written on it; the few that call into other crates (`string_cache` for
//! interned strings, `append_only_bytes` for shared text, `im` for the
//! version vectors that share their storage) do so through wrappers whose
//! contracts are stated and trusted.
//!
//! - [`id`], [`version`], [`shared_vv`]: peers, counters, operation ids,
//!   version vectors, frontiers.
//! - [`container`], [`value`], [`text`]: container kinds and ids with their
//!   text form, the values of a document, decimal notation.
//! - [`rle`], [`order`]: run-length-encoded storage and the replay order.
//! - [`op`], [`change`], [`cut`], [`arena`]: operations in their stored and
//!   their exchanged form, changes and their parts, and the arena that
//!   stored operations point into.
//! - [`dag`], [`heads`]: the causal graph, its versions and their heads.
//! - [`oplog`], [`import`], [`checked`], [`validate`], [`causal`], [`fork`],
//!   [`report`], [`invariants`], [`pending`]: the log and what it does.
//! - [`string_slice`], [`fixed_size_vec`]: text windows and bounded vectors.
pub mod arena;
pub mod causal;
pub mod change;
pub mod checked;
pub mod container;
pub mod cut;
pub mod dag;
pub mod error;
pub mod fixed_size_vec;
pub mod fork;
pub mod heads;
pub mod id;
pub mod import;
pub mod invariants;
pub mod op;
pub mod oplog;
pub mod order;
pub mod pending;
pub mod report;
pub mod rle;
pub mod shared_vv;
pub mod string_slice;
pub mod text;
pub mod validate;
pub mod value;
pub mod version;
