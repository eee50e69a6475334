use vstd::prelude::*;

pub mod client;
pub mod config;
pub mod feed;
pub mod fetch;
pub mod ids;
pub mod json;
pub mod prompts;
pub mod store;
pub mod strutil;
pub mod textmeta;

verus! {

} // verus!
