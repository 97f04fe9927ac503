use vstd::prelude::*;

pub mod align;
pub mod export;
pub mod forced_align;
pub mod japanese;
pub mod lrc;
pub mod lyrics;
pub mod models;
pub mod note_engine;
pub mod text;

verus! {

} // verus!
