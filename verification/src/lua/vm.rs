//! The boundary to the Lua interpreter.
//!
//! Everything the simulator asks of `mlua` goes through the functions of
//! this file. Their contracts are taken on trust: the verifier does not
//! look into their bodies. None of them promises anything about what a
//! script does; the code that calls them is verified for every outcome.
//!
//! A script's state has no library that reaches files or the operating
//! system. The calls that read and write global variables go past
//! metatables, so that they run no code of a script. Two calls run code
//! of a script, `run_chunk` and `resume_coroutine`; they last as long as
//! the script runs before it ends or suspends itself. `load_function`
//! and `bind_made` run the kernel's own chunk and the function that it
//! returned.

use vstd::prelude::*;

verus! {

/// A Lua state, opaque to the verifier.
#[verifier::external_type_specification]
#[verifier::external_body]
pub struct ExLua(mlua::Lua);

/// The key under which a Lua state keeps a value for its host.
#[verifier::external_type_specification]
#[verifier::external_body]
pub struct ExRegistryKey(mlua::RegistryKey);

/// An error reported by the interpreter.
#[verifier::external_type_specification]
#[verifier::external_body]
pub struct ExLuaError(mlua::Error);

/// Where a coroutine stands, as `mlua::ThreadStatus` tells it.
#[derive(Debug, Clone, Copy, PartialEq, Eq, Structural)]
pub enum CoroutineStatus {
    /// Just created, or suspended in a yield: it can be resumed.
    Resumable,
    /// Run to its end.
    Unresumable,
    /// Stopped by an error raised in the script.
    Error,
}

/// The first three values that came back from resuming a coroutine, as
/// texts. A value that is absent or nil is `None`; a number comes in
/// Lua's own writing.
#[derive(Debug, Clone, PartialEq, Eq)]
pub struct RawYield {
    pub tag: Option<String>,
    pub first: Option<String>,
    pub second: Option<String>,
}

/// Creates a Lua state with the coroutine, table, string and mathematics
/// libraries and no other, as `mlua::Lua::new_with` does: a script gets
/// no access to files, to the operating system or to the debug interface.
/// Nothing is claimed of the state.
#[verifier::external_body]
pub(crate) fn new_state() -> Result<mlua::Lua, mlua::Error> {
    mlua::Lua::new_with(
        mlua::StdLib::COROUTINE | mlua::StdLib::TABLE | mlua::StdLib::STRING | mlua::StdLib::MATH,
        mlua::LuaOptions::default(),
    )
}

/// Compiles and runs `chunk` in `lua` under the name `name`, as
/// `mlua::Lua::load`, `mlua::Chunk::set_name`, `mlua::Chunk::set_mode`
/// and `mlua::Chunk::exec` do in turn. The chunk is taken as source text
/// only: one that holds compiled code, which the interpreter would run
/// unchecked, is refused with an error. Nothing is claimed of the
/// outcome. The call lasts as long as the chunk runs: a chunk that loops
/// without end keeps it from returning.
#[verifier::external_body]
pub(crate) fn run_chunk(lua: &mlua::Lua, chunk: &str, name: &str) -> Result<
    (),
    mlua::Error,
> {
    lua.load(chunk).set_name(name).set_mode(mlua::ChunkMode::Text).exec()
}

/// Compiles and runs `chunk` in `lua` as `run_chunk` does, with
/// `mlua::Chunk::eval` in place of `exec`, and keeps the function that
/// the chunk returns in the registry of `lua`, with
/// `mlua::Lua::create_registry_value`. Nothing is claimed of the outcome.
#[verifier::external_body]
pub(crate) fn load_function(lua: &mlua::Lua, chunk: &str, name: &str) -> Result<
    mlua::RegistryKey,
    mlua::Error,
> {
    let made: mlua::Function = lua.load(chunk).set_name(name).set_mode(mlua::ChunkMode::Text).eval()?;
    lua.create_registry_value(made)
}

/// Calls the function kept under `maker` with the number `value`, with
/// `mlua::Function::call`, and sets the global variable `name` of `lua`
/// to the function that comes back, with `mlua::Table::raw_set`, which
/// runs no code of a script. Nothing is claimed of the outcome.
#[verifier::external_body]
pub(crate) fn bind_made(lua: &mlua::Lua, maker: &mlua::RegistryKey, name: &str, value: u64) -> Result<
    (),
    mlua::Error,
> {
    let make: mlua::Function = lua.registry_value(maker)?;
    let made: mlua::Function = make.call(value)?;
    lua.globals().raw_set(name, made)
}

/// Sets the global variable `name` of `lua` to the number `value`, with
/// `mlua::Table::raw_set` on the table of globals, which runs no code of
/// a script; `mlua` stores a value beyond the largest Lua integer as a
/// floating-point number. Nothing is claimed of the outcome.
#[verifier::external_body]
pub(crate) fn set_global_number(lua: &mlua::Lua, name: &str, value: u64) -> Result<
    (),
    mlua::Error,
> {
    lua.globals().raw_set(name, value)
}

/// Sets the global variable `name` of `lua` to the text `value`, with
/// `mlua::Table::raw_set` on the table of globals, which runs no code of
/// a script. Nothing is claimed of the outcome.
#[verifier::external_body]
pub(crate) fn set_global_text(lua: &mlua::Lua, name: &str, value: &str) -> Result<
    (),
    mlua::Error,
> {
    lua.globals().raw_set(name, value)
}

/// Makes a coroutine of the global function `function` and stores it in
/// the registry of `lua`: `mlua::Table::raw_get`, which runs no code of a
/// script, `mlua::Lua::create_thread` and
/// `mlua::Lua::create_registry_value` in turn. Nothing is claimed of the
/// outcome.
#[verifier::external_body]
pub(crate) fn create_coroutine(lua: &mlua::Lua, function: &str) -> Result<
    mlua::RegistryKey,
    mlua::Error,
> {
    let entry: mlua::Function = lua.globals().raw_get(function)?;
    let thread = lua.create_thread(entry)?;
    lua.create_registry_value(thread)
}

/// Resumes the coroutine stored under `key` with `mlua::Thread::resume`
/// and returns the first three values that it yielded or returned,
/// converted by `mlua` to optional texts. Nothing is claimed of the
/// outcome. The call lasts until the script yields or ends: a script
/// that loops without yielding keeps it from returning.
#[verifier::external_body]
pub(crate) fn resume_coroutine(lua: &mlua::Lua, key: &mlua::RegistryKey) -> Result<
    RawYield,
    mlua::Error,
> {
    let thread: mlua::Thread = lua.registry_value(key)?;
    let (tag, first, second) = thread.resume(())?;
    Ok(RawYield { tag, first, second })
}

/// Reads the status of the coroutine stored under `key` with
/// `mlua::Thread::status`. Nothing is claimed of the outcome.
#[verifier::external_body]
pub(crate) fn coroutine_status(lua: &mlua::Lua, key: &mlua::RegistryKey) -> Result<
    CoroutineStatus,
    mlua::Error,
> {
    let thread: mlua::Thread = lua.registry_value(key)?;
    Ok(
        match thread.status() {
            mlua::ThreadStatus::Resumable => CoroutineStatus::Resumable,
            mlua::ThreadStatus::Unresumable => CoroutineStatus::Unresumable,
            mlua::ThreadStatus::Error => CoroutineStatus::Error,
        },
    )
}

/// The interpreter's own wording of `error`, from its `Display`
/// implementation. Nothing is claimed of the text.
#[verifier::external_body]
pub(crate) fn error_text(error: &mlua::Error) -> String {
    error.to_string()
}

} // verus!
