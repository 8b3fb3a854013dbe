//! A command-line runner of continuous-integration jobs: jobs, the order
//! constraints between them, their scheduling and the display of their progress.
use vstd::prelude::*;

pub mod app;
pub mod ci;
pub mod config;
pub mod graph;
pub mod names;
pub mod text;

verus! {

} // verus!
