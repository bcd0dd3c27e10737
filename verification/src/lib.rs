//! Audit-first agent kernel: the act vocabulary, the event tape, tool
//! descriptors, workplaces and the instance runtime's decision logic.
use vstd::prelude::*;

pub mod act;
pub mod agent;
pub mod det_seam;
pub mod entropy;
pub mod instance;
pub mod json;
pub mod lines;
pub mod memstream;
pub mod model;
pub mod order;
pub mod principal;
pub mod text;
pub mod tools;
pub mod workplace;

verus! {

} // verus!
