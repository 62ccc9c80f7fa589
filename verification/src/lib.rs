use vstd::prelude::*;

pub mod text;
pub mod config;
pub mod vault;
pub mod resolve;
pub mod pgraph;
pub mod graph;
pub mod order;
pub mod query;
pub mod output;
pub mod tool;
