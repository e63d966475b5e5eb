use vstd::prelude::*;

pub mod archive;
pub mod cli;
pub mod error;
pub mod hasher;
pub mod map;
pub mod path;

verus! {

} // verus!
