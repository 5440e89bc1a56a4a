use vstd::prelude::*;

pub mod binary64;
pub mod conflict;
pub mod deps;
pub mod edits;
pub mod evidence;
pub mod exchange;
pub mod fixtures;
pub mod groups;
pub mod incremental;
pub mod model;
pub mod rng;
pub mod text;
pub mod time;

verus! {
}
