//! The functions that every script can call, and how their calls reach
//! the kernel.

use super::number::{millis_written, parse_seconds};
use super::process::{script_outcome, LogLevel, ProcessMessage};
use crate::error::SimError;
use crate::kernel::time::SimTime;
use super::vm::{bind_made, error_text, load_function, RawYield};
use vstd::prelude::*;

verus! {

/// The script side of the interface. Every call hands the kernel a tag
/// and its arguments by yielding; the kernel decides from the tag whether
/// the process goes on at once or is suspended. What a script could use
/// to load code from elsewhere is taken away. The chunk returns the
/// function that makes `now` for a time in milliseconds: `now` gives the
/// time in seconds and keeps it where a script cannot write.
pub const API_PRELUDE: &'static str = "local yield = coroutine.yield
dofile, loadfile, load = nil
math.randomseed(_seed or 0)
function wait(seconds) yield('wait', seconds) end
function request(resource) yield('request', resource) end
function release(resource) yield('release', resource) end
function spawn(name, entry) yield('spawn', name, entry) end
function log(message, level) yield('log', message, level) end
return function(millis) return function() return millis / 1000 end end
";

/// Binds `now`, `wait`, `request`, `release`, `spawn` and `log` into
/// `lua` and sets its mirror of the clock to zero. Returns the key under
/// which the interpreter keeps the maker of `now`, and the time that the
/// mirror then shows.
///
/// The chunk `API_PRELUDE` is run in `lua` for this. It is meant for a
/// state that holds no code of a script yet: there it reads and writes
/// global variables of the interpreter's own libraries only.
///
/// Whether the interpreter takes the binding is up to the interpreter; a
/// refusal is a `LuaError`.
pub fn register_api(lua: &mlua::Lua) -> (r: Result<(mlua::RegistryKey, SimTime), SimError>)
    ensures
        match r {
            Ok(bound) => bound.1@ == 0,
            Err(e) => e is LuaError,
        },
{
    let start = SimTime::zero();
    let maker = match load_function(lua, API_PRELUDE, "=kernel") {
        Ok(maker) => maker,
        Err(e) => {
            return Err(SimError::LuaError(error_text(&e)));
        },
    };
    match script_outcome(bind_made(lua, &maker, "now", start.as_millis())) {
        Ok(_) => Ok((maker, start)),
        Err(e) => Err(e),
    }
}

/// Whether `text` reads exactly as `literal`.
fn reads(text: &String, literal: &str) -> (b: bool)
    ensures
        b == (text@ == literal@),
{
    let other = literal.to_owned();
    *text == other
}

/// The view of an optional text.
pub open spec fn text_of(t: Option<String>) -> Option<Seq<char>> {
    match t {
        Some(s) => Some(s@),
        None => None,
    }
}

impl LogLevel {
    /// The level that a script means by `name`: `warning` or `warn`,
    /// `error`, `debug`; anything else, and no name at all, is `Info`.
    pub open spec fn named(name: Option<Seq<char>>) -> LogLevel {
        match name {
            Some(n) => if n == "warning"@ || n == "warn"@ {
                LogLevel::Warning
            } else if n == "error"@ {
                LogLevel::Error
            } else if n == "debug"@ {
                LogLevel::Debug
            } else {
                LogLevel::Info
            },
            None => LogLevel::Info,
        }
    }

    /// The level that a script means by `name`.
    pub fn from_name(name: &Option<String>) -> (level: LogLevel)
        ensures
            level == Self::named(text_of(*name)),
    {
        match name {
            Some(n) => if reads(n, "warning") || reads(n, "warn") {
                LogLevel::Warning
            } else if reads(n, "error") {
                LogLevel::Error
            } else if reads(n, "debug") {
                LogLevel::Debug
            } else {
                LogLevel::Info
            },
            None => LogLevel::Info,
        }
    }

    /// The level in lower case: `info`, `warn`, `error` or `debug`.
    pub fn as_str(&self) -> (s: &'static str)
        ensures
            s@ == match self {
                LogLevel::Info => "info"@,
                LogLevel::Warning => "warn"@,
                LogLevel::Error => "error"@,
                LogLevel::Debug => "debug"@,
            },
    {
        match self {
            LogLevel::Info => "info",
            LogLevel::Warning => "warn",
            LogLevel::Error => "error",
            LogLevel::Debug => "debug",
        }
    }
}

/// The message that a yield stands for, if it is a well-formed call:
///
/// | tag       | needs                          | message                     |
/// |-----------|--------------------------------|-----------------------------|
/// | `wait`    | a first text that writes a     | `Wait(its milliseconds)`    |
/// |           | number of seconds              |                             |
/// | `request` | a first text                   | `Request(first)`            |
/// | `release` | a first text                   | `Release(first)`            |
/// | `spawn`   | both texts                     | `Spawn(first, second)`      |
/// | `log`     | a first text                   | `Log(first, named(second))` |
///
/// A wait for a negative time is no well-formed call, nor is one for a
/// time that the clock cannot count; see `millis_written`.
pub open spec fn decoded(raw: RawYield) -> Option<ProcessMessage> {
    match raw.tag {
        None => None,
        Some(tag) => if tag@ == "wait"@ {
            match raw.first {
                Some(text) => match millis_written(text@) {
                    Some(millis) => Some(ProcessMessage::Wait(millis as u64)),
                    None => None,
                },
                None => None,
            }
        } else if tag@ == "request"@ {
            match raw.first {
                Some(resource) => Some(ProcessMessage::Request(resource)),
                None => None,
            }
        } else if tag@ == "release"@ {
            match raw.first {
                Some(resource) => Some(ProcessMessage::Release(resource)),
                None => None,
            }
        } else if tag@ == "spawn"@ {
            match (raw.first, raw.second) {
                (Some(name), Some(entry)) => Some(ProcessMessage::Spawn(name, entry)),
                _ => None,
            }
        } else if tag@ == "log"@ {
            match raw.first {
                Some(message) => Some(
                    ProcessMessage::Log(message, LogLevel::named(text_of(raw.second))),
                ),
                None => None,
            }
        } else {
            None
        },
    }
}

/// Turns what a coroutine yielded into the message it stands for; see
/// `decoded`.
pub fn decode_message(raw: RawYield) -> (m: Option<ProcessMessage>)
    ensures
        m == decoded(raw),
{
    let RawYield { tag, first, second } = raw;
    let tag = match tag {
        Some(tag) => tag,
        None => {
            return None;
        },
    };
    if reads(&tag, "wait") {
        match first {
            Some(text) => match parse_seconds(text.as_str()) {
                Some(millis) => Some(ProcessMessage::Wait(millis)),
                None => None,
            },
            None => None,
        }
    } else if reads(&tag, "request") {
        match first {
            Some(resource) => Some(ProcessMessage::Request(resource)),
            None => None,
        }
    } else if reads(&tag, "release") {
        match first {
            Some(resource) => Some(ProcessMessage::Release(resource)),
            None => None,
        }
    } else if reads(&tag, "spawn") {
        match (first, second) {
            (Some(name), Some(entry)) => Some(ProcessMessage::Spawn(name, entry)),
            _ => None,
        }
    } else if reads(&tag, "log") {
        match first {
            Some(message) => {
                let level = LogLevel::from_name(&second);
                Some(ProcessMessage::Log(message, level))
            },
            None => None,
        }
    } else {
        None
    }
}

} // verus!
