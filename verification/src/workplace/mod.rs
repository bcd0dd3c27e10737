//! Content-addressed workplaces: object ids, resource mnemonics and trees.
use vstd::prelude::*;

pub mod id;
pub mod resource;
pub mod store;

pub use id::ObjectId;
pub use resource::{Resource, ResourceKind};

verus! {

} // verus!
