use vstd::prelude::*;

pub mod command;
pub mod config;
pub mod graph;
pub mod index;
pub mod manifest;
pub mod order;
pub mod package;
pub mod profile;
pub mod report;
pub mod schema;
pub mod source;
pub mod store;
pub mod sync;
pub mod text;

verus! {

} // verus!
