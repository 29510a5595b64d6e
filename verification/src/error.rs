//! Failures reported by the simulator.

use vstd::prelude::*;
use vstd::std_specs::convert::FromSpecImpl;

verus! {

/// What went wrong, with a human-readable reason.
#[derive(Debug, Clone, PartialEq, Eq)]
pub enum SimError {
    /// A script failed to compile or raised an error while running.
    LuaError(String),
    /// A scheduling invariant was violated: time would run backwards, or
    /// an event was demanded from an empty queue.
    SimulationError(String),
    /// A resource was created twice or is unknown.
    ResourceError(String),
    /// A process name is already taken or unknown, or an entry function
    /// was never loaded.
    ProcessError(String),
}

impl SimError {
    /// The reason carried by the error, as a sequence of characters.
    pub open spec fn reason(&self) -> Seq<char> {
        match self {
            SimError::LuaError(m) => m@,
            SimError::SimulationError(m) => m@,
            SimError::ResourceError(m) => m@,
            SimError::ProcessError(m) => m@,
        }
    }

    /// What a description of the error begins with.
    pub open spec fn heading(&self) -> Seq<char> {
        match self {
            SimError::LuaError(_) => "Lua error: "@,
            SimError::SimulationError(_) => "Simulation error: "@,
            SimError::ResourceError(_) => "Resource error: "@,
            SimError::ProcessError(_) => "Process error: "@,
        }
    }

    /// The reason carried by the error.
    pub fn message(&self) -> (text: &String)
        ensures
            text@ == self.reason(),
    {
        match self {
            SimError::LuaError(m) => m,
            SimError::SimulationError(m) => m,
            SimError::ResourceError(m) => m,
            SimError::ProcessError(m) => m,
        }
    }

    /// The error in words: its kind, then its reason.
    pub fn describe(&self) -> (text: String)
        ensures
            text@ == self.heading() + self.reason(),
    {
        match self {
            SimError::LuaError(m) => String::from_str("Lua error: ").concat(m.as_str()),
            SimError::SimulationError(m) => String::from_str("Simulation error: ").concat(
                m.as_str(),
            ),
            SimError::ResourceError(m) => String::from_str("Resource error: ").concat(m.as_str()),
            SimError::ProcessError(m) => String::from_str("Process error: ").concat(m.as_str()),
        }
    }
}

impl From<String> for SimError {
    /// A bare reason is taken for a `SimulationError`.
    fn from(s: String) -> (e: SimError) {
        SimError::SimulationError(s)
    }
}

impl FromSpecImpl<String> for SimError {
    open spec fn obeys_from_spec() -> bool {
        true
    }

    open spec fn from_spec(s: String) -> SimError {
        SimError::SimulationError(s)
    }
}

} // verus!
