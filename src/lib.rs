use vstd::prelude::*;

pub mod collate;
pub mod directory;
pub mod histogram;
pub mod lines;
pub mod ranking;
pub mod scoring;
pub mod text;

verus! {

} // verus!
