//! The instance runtime's decision logic: a live agent's identity, context assembly, workplace
//! versions, seats and sub-workplaces.
pub mod agent;
pub mod context;
pub mod pool;
pub mod recover;
pub mod steward;
pub mod subwp;
pub mod tree;
pub mod wp;
