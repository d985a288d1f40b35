use vstd::prelude::*;

pub mod schedule;
pub mod lockup;
pub mod store;
pub mod draft;
pub mod contract;
pub mod settlement;

verus! {

} // verus!
