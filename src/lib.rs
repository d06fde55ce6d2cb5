//! A hierarchical timing wheel: six rings of 64 slots that hold payloads until
//! their tick comes, with an occupancy word per ring to skip empty ticks, and the
//! decisions of the thread that drives the wheel from a clock.

pub mod bucket;
pub mod driver;
pub mod error;
pub mod laws;
pub mod slot;
pub mod wheel;

pub use bucket::Bucket;
pub use driver::Driver;
pub use error::{TimerError, TimerResult};
pub use slot::{Entity, Slot};
pub use wheel::Wheel;
