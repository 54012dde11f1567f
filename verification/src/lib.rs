use vstd::prelude::*;

pub mod text;
pub mod path;
pub mod media;
pub mod archive;
pub mod order;
pub mod model;
pub mod model_archive;
pub mod util;
pub mod player;
pub mod playlist;
pub mod effects;
pub mod config;
pub mod geometry;
pub mod cache;
pub mod mem_source;
pub mod search;
pub mod nav;
pub mod keys;

verus! {

} // verus!
