use vstd::prelude::*;

pub mod config;
pub mod embed;
pub mod error;
pub mod events;
pub mod mcp;
pub mod pattern;
pub mod pipeline;
pub mod scrape;
pub mod search;
pub mod splitter;
pub mod text;
pub mod types;
pub mod web;

verus! {

} // verus!
