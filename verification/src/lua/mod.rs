//! Scripted processes: one Lua state per process, driven as a coroutine.

pub mod api;
pub mod engine;
pub mod number;
pub mod process;
pub mod vm;

pub use self::api::register_api;
pub use self::engine::LuaEngine;
pub use self::process::{LogLevel, LuaCommand, LuaProcess, ProcessMessage, ProcessState};
