//! Discrete-event simulation kernel with scripted processes.
//!
//! Virtual time advances in jumps from one scheduled happening to the next.
//! Processes are Lua coroutines that suspend at `wait` and `request`; the
//! kernel multiplexes them on one thread, mediates capacity-limited resources
//! with first-come-first-served hand-off, and reports utilisation figures.

pub mod error;
pub mod kernel;
pub mod lua;
pub mod names;
pub mod prelude;
pub mod resources;
pub mod simulator;
pub mod timed;
pub mod trace;

pub use crate::error::SimError;
pub use crate::simulator::Simulator;
