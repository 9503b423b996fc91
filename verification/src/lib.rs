//! An index-aware query executor with machine-checked contracts.
//!
//! The executor resolves the index options of a query plan into record
//! iterators, answers full-text and nearest-neighbour predicates for streamed
//! records, and keeps the bounded top-k lists of brute-force searches.
//! Nothing in this crate touches a store: whatever a store answers is handed in
//! as plain values, and whatever is to be asked of it is handed out.
//!
//! - [`key`] orders byte keys; [`kvs`] decides what a transaction allows.
//! - [`idx`] lays out the keys of index entries; [`iterators`] walk them;
//!   [`scan`] and [`yields`] prove what the walks hand out.
//! - [`ft`] and [`trees`] are the sessions over full-text and vector indexes;
//!   [`knn`] measures and ranks.
//! - [`plan`] is the plan as the executor sees it, [`executor`] the executor,
//!   [`sql`] the records and values that pass through it.
//! - [`endpoint`] names the datastore in a file; [`err`] lists what is refused.

pub mod endpoint;
pub mod err;
pub mod executor;
pub mod ft;
pub mod idx;
pub mod iterators;
pub mod key;
pub mod knn;
pub mod kvs;
pub mod plan;
pub mod scan;
pub mod sql;
pub mod trees;
pub mod yields;
