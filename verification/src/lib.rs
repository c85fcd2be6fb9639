use vstd::prelude::*;

pub mod text;
pub mod width;
pub mod table;
pub mod chat;
pub mod input;
pub mod json;
pub mod bibliography;
pub mod registry;
pub mod prompt;
pub mod control;
pub mod config;
pub mod tools;
pub mod api;
pub mod toolset;
pub mod runtime;
pub mod skills;
pub mod events;
pub mod storage;

verus! {

} // verus!
