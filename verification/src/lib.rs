//! Discovery of compiled contract artifacts and their reconciliation with
//! deployed bytecode.
//!
//! A watcher is told which directories to watch. Under them it finds the
//! projects of the build tool, watches their output directories, and keeps
//! a repository of the artifacts that lie there. Whenever the repository
//! or the store of contracts has something new, it looks for contracts
//! whose ABI is not known and whose bytecode is close enough to that of an
//! artifact, and completes them.
//!
//! The library decides and does not wait, read or send: the loop around it
//! does. The modules, from the ground up:
//!
//! - `order`, `path`, `sorted`, `roots`: paths, their order, sets of paths,
//!   and the derivation of project roots;
//! - `matching`, `abi`, `artifact`: the fuzzy comparison of bytecode, the
//!   repository, and what counts as an artifact;
//! - `reconcile`: a reconciliation pass and the writing of its matches;
//! - `watcher`: the state of the loop and what each event does to it;
//! - `network`, `node_url`, `commands`, `logging`, `filter`: the known
//!   networks and the decisions behind a few commands.

pub mod abi;
pub mod artifact;
pub mod commands;
pub mod filter;
pub mod logging;
pub mod matching;
pub mod network;
pub mod node_url;
pub mod order;
pub mod path;
pub mod reconcile;
pub mod roots;
pub mod sorted;
pub mod watcher;
