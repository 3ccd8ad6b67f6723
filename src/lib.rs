use vstd::prelude::*;

pub mod app;
pub mod config;
pub mod directory;
pub mod health;
pub mod host;
pub mod text;

verus! {

} // verus!
