//! Tools: descriptors admitted from YAML, and the built-in shell tool.
use vstd::prelude::*;

pub mod bash;
pub mod descriptor;
pub mod facet;
pub mod yaml;

verus! {

} // verus!
