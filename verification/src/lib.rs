//! Shortest link chains between two pages of a hyperlinked corpus.
//!
//! The crate holds the bookkeeping of a level-synchronised breadth-first
//! search whose page fetches are carried out elsewhere: the frontier with its
//! predecessor map, the worker descriptors, the coordinator that folds
//! results and hands out tasks, and the extraction of links from page bytes.

pub mod frontier;
pub mod pool;
pub mod search;
pub mod links;
pub mod shortest;
