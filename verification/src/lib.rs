//! A reactive composition runtime: hook storage for composable scopes,
//! generational references, contexts, memoization and the composition tree.

pub mod pointer;
pub mod scope;
pub mod store;
pub mod node;
pub mod composer;
pub mod compose;
pub mod hooks;
pub mod data;
pub mod error;
pub mod modify;
pub mod executor;
pub mod rebuild;
pub mod update;
pub mod diagram;
pub mod laws;
pub mod traversal;
