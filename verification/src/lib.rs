//! The index and search core of Everyfile, a file finder.

#![allow(unused_imports)]

pub mod actions;
pub mod coordinator;
pub mod fsevents;
pub mod index;
pub mod indexing_control;
pub mod model;
pub mod paths;
pub mod projection;
pub mod query;
pub mod reconciliation;
pub mod relevance;
pub mod scanner;
pub mod scheduler;
pub mod scopes;
pub mod shell;
pub mod sorting;
pub mod text;
pub mod unicode;
pub mod volume;
pub mod volume_lifecycle;
