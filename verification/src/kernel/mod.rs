//! Clock, events and the event queue.

pub mod event;
pub mod laws;
pub mod simulation;
pub mod time;

pub use self::event::{Event, Priority};
pub use self::simulation::Simulation;
pub use self::time::{Duration, SimTime};
