//! The determinism seam: time enters library code only through a `Clock`,
//! and a frozen clock makes every stamp reproducible.
pub mod clock;

pub use clock::Clock;
