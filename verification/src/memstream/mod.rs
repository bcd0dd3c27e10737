//! The memory stream: events on the tape and the tape's line discipline.
pub mod event;
pub mod tape;

pub use event::{ActOnEvent, AppendEvent, FromKind, Kind, Memevent};
