//! What most users of the simulator need.

pub use crate::error::SimError;
pub use crate::kernel::time::SimTime;
pub use crate::simulator::{RunOutcome, Simulator};
