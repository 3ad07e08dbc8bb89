use vstd::prelude::*;

pub mod bandwidth;
pub mod chart;
pub mod cli;
pub mod network;
pub mod raw;
pub mod text;
pub mod ui_state;

verus! {

} // verus!
