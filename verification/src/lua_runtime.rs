//! The functions that manifests may call.

use vstd::prelude::*;

use crate::lua::create_string;
use crate::text::{decimal, join, joined, views};

pub mod json;

verus! {

/// Makes an error of the interpreter with `mlua::Error::RuntimeError`. Nothing is claimed of it:
/// it carries the text back into Lua.
#[verifier::external_body]
pub(crate) fn runtime_error(text: String) -> (r: mlua::Error) {
    mlua::Error::RuntimeError(text)
}

/// Asks the machine for its name with `hostname::get`; the error is its text. Nothing is claimed
/// of the name, which is up to the machine.
#[verifier::external_body]
fn machine_name() -> (r: Result<String, String>) {
    match hostname::get() {
        Ok(name) => Ok(name.to_string_lossy().into_owned()),
        Err(error) => Err(format!("{error}")),
    }
}

/// What is said where the hostname is not known.
pub fn hostname_failure(reason: &str) -> (r: String)
    ensures
        r@ == "porchetta.hostname: failed to get hostname: "@ + reason@,
{
    "porchetta.hostname: failed to get hostname: ".to_owned().concat(reason)
}

/// Return the current hostname.
///
/// Called from Lua as:
///
/// ```lua
/// local name = porchetta.hostname()
/// ```
pub fn hostname(lua: &mlua::Lua) -> (r: Result<mlua::LuaString, mlua::Error>)
    ensures
        is_hostname_answer(*lua, r),
{
    match machine_name() {
        Ok(name) => create_string(lua, name.as_str().as_bytes()),
        Err(reason) => Err(runtime_error(hostname_failure(reason.as_str()))),
    }
}

/// Whether `r` can be the hostname, handed to Lua.
pub closed spec fn is_hostname_answer(
    lua: mlua::Lua,
    r: Result<mlua::LuaString, mlua::Error>,
) -> bool {
    exists|name: Result<String, String>| #[trigger]
        call_ensures(machine_name, (), name) && match name {
            Ok(name) => exists|bytes: &[u8]|
                bytes@ == vstd::utf8::encode_utf8(name@) && #[trigger] call_ensures(
                    create_string,
                    (&lua, bytes),
                    r,
                ),
            Err(reason) => exists|text: String, error: mlua::Error|
                text@ == "porchetta.hostname: failed to get hostname: "@ + reason@
                    && #[trigger] call_ensures(runtime_error, (text,), error) && r == Err::<
                    mlua::LuaString,
                    mlua::Error,
                >(error),
        }
}

// ----------------------------------------------------------------------------
// Commands
// ----------------------------------------------------------------------------

/// A command to run.
#[derive(Debug)]
pub struct SystemCommand {
    pub program: String,
    pub args: Vec<String>,
}

/// What is said of an empty command.
pub open spec fn empty_command_text() -> Seq<char> {
    "porchetta.system: args table must not be empty"@
}

/// The command that a list of arguments stands for: the first is the program.
pub fn system_command(args: &Vec<String>) -> (r: Result<SystemCommand, String>)
    ensures
        match r {
            Ok(command) => args@.len() > 0 && command.program@ == args@[0]@ && views(command.args@)
                == views(args@).skip(1),
            Err(text) => args@.len() == 0 && text@ == empty_command_text(),
        },
{
    if args.len() == 0 {
        return Err("porchetta.system: args table must not be empty".to_owned());
    }
    let mut rest: Vec<String> = Vec::new();
    let mut i: usize = 1;
    assert(views(rest@) =~= views(args@).subrange(1, 1));
    while i < args.len()
        invariant
            1 <= i <= args@.len(),
            views(rest@) == views(args@).subrange(1, i as int),
        decreases args.len() - i,
    {
        let ghost before = rest@;
        rest.push(args[i].clone());
        assert(views(rest@) =~= views(before).push(args@[i as int]@));
        assert(views(args@).subrange(1, i + 1) =~= views(args@).subrange(1, i as int).push(
            views(args@)[i as int],
        ));
        i = i + 1;
    }
    assert(views(args@).subrange(1, args@.len() as int) =~= views(args@).skip(1));
    Ok(SystemCommand { program: args[0].clone(), args: rest })
}

/// What is said of a command that cannot be started.
pub fn spawn_failure(program: &str, reason: &str) -> (r: String)
    ensures
        r@ == "porchetta.system: failed to spawn '"@ + program@ + "': "@ + reason@,
{
    "porchetta.system: failed to spawn '".to_owned().concat(program).concat("': ").concat(reason)
}

/// What is said of a command that does not take its input.
pub fn stdin_failure(reason: &str) -> (r: String)
    ensures
        r@ == "porchetta.system: failed to write stdin: "@ + reason@,
{
    "porchetta.system: failed to write stdin: ".to_owned().concat(reason)
}

/// What is said of a command whose output cannot be read.
pub fn output_failure(reason: &str) -> (r: String)
    ensures
        r@ == "porchetta.system: failed to read output: "@ + reason@,
{
    "porchetta.system: failed to read output: ".to_owned().concat(reason)
}

/// A number in decimal, with a sign where it is negative.
pub open spec fn signed_decimal(n: int) -> Seq<char> {
    if n < 0 {
        "-"@ + decimal((-n) as nat)
    } else {
        decimal(n as nat)
    }
}

fn signed_decimal_of(n: i32) -> (r: String)
    ensures
        r@ == signed_decimal(n as int),
{
    let wide: i64 = n as i64;
    if wide < 0 {
        "-".to_owned().concat(crate::text::decimal_of((-wide) as usize).as_str())
    } else {
        crate::text::decimal_of(wide as usize)
    }
}

/// What is said of a command that fails. A command that was stopped by a signal has no code.
pub fn exit_failure(args: &Vec<String>, code: Option<i32>, written: &str) -> (r: String)
    ensures
        r@ == "porchetta.system: '"@ + joined(views(args@), " "@) + "' exited with code "@
            + signed_decimal(
            match code {
                Some(code) => code as int,
                None => -1,
            },
        ) + ": "@ + written@,
{
    let shown: i32 = match code {
        Some(code) => code,
        None => -1,
    };
    "porchetta.system: '".to_owned().concat(join(args, " ").as_str()).concat(
        "' exited with code ",
    ).concat(signed_decimal_of(shown).as_str()).concat(": ").concat(written)
}

// ----------------------------------------------------------------------------
// The table
// ----------------------------------------------------------------------------

/// Makes an empty table with `mlua::Lua::create_table`. Nothing is claimed of it, which the
/// interpreter holds.
#[verifier::external_body]
pub(crate) fn new_table(lua: &mlua::Lua) -> (r: Result<mlua::Table, mlua::Error>) {
    lua.create_table()
}

/// Puts [`hostname`] in a table, with `mlua::Lua::create_function` and `mlua::Table::set`. Where
/// the table is of another interpreter, by the `==` of `mlua::WeakLua`, an error comes back.
/// Nothing is claimed of the table, which the interpreter holds.
#[verifier::external_body]
fn set_hostname(lua: &mlua::Lua, table: &mlua::Table) -> (r: Result<(), mlua::Error>) {
    match *table.weak_lua() == lua.weak() {
        true => table.set("hostname", lua.create_function(|lua, ()| hostname(lua))?),
        false => Err(mlua::Error::CallbackDestructed),
    }
}

/// Puts a table in a table with `mlua::Table::set`. Where the two are of different interpreters,
/// by the `==` of `mlua::WeakLua`, or theirs is gone, by `mlua::WeakLua::try_upgrade`, an error
/// comes back. Nothing is claimed of the tables, which the interpreter holds.
#[verifier::external_body]
fn set_table(table: &mlua::Table, key: &str, value: mlua::Table) -> (r: Result<(), mlua::Error>) {
    match (table.weak_lua() == value.weak_lua(), table.weak_lua().try_upgrade()) {
        (true, Some(_lua)) => table.set(key, value),
        _other => Err(mlua::Error::CallbackDestructed),
    }
}

/// Whether `r` can be a table to which the hostname and the JSON functions were added, or the
/// error of the first step that fails.
pub closed spec fn is_porchetta_table(lua: mlua::Lua, r: Result<mlua::Table, mlua::Error>) -> bool {
    exists|made: Result<mlua::Table, mlua::Error>| #[trigger]
        call_ensures(new_table, (&lua,), made) && match (made, r) {
            (Err(error), Err(e)) => error == e,
            (Ok(table), Ok(t)) => table == t && has_hostname(lua, table) && exists|
                json: mlua::Table,
            |
                json::is_json_table(lua, Ok::<mlua::Table, mlua::Error>(json)) && #[trigger]
                    is_json_set(table, json, None),
            (Ok(table), Err(error)) => {
                ||| call_ensures(set_hostname, (&lua, &table), Err::<(), mlua::Error>(error))
                ||| json::is_json_table(lua, Err::<mlua::Table, mlua::Error>(error))
                ||| exists|json: mlua::Table|
                    json::is_json_table(lua, Ok::<mlua::Table, mlua::Error>(json)) && #[trigger]
                        is_json_set(table, json, Some(error))
            },
            _ => false,
        }
}

/// Whether the hostname can be in a table.
pub closed spec fn has_hostname(lua: mlua::Lua, table: mlua::Table) -> bool {
    exists|done: Result<(), mlua::Error>|
        done is Ok && #[trigger] call_ensures(set_hostname, (&lua, &table), done)
}

/// Whether the JSON functions can be put in a table, or this error can come of it.
pub closed spec fn is_json_set(
    table: mlua::Table,
    json: mlua::Table,
    error: Option<mlua::Error>,
) -> bool {
    exists|key: &str, done: Result<(), mlua::Error>|
        key@ == "json"@ && #[trigger] call_ensures(set_table, (&table, key, json), done) && match (
            done,
            error,
        ) {
            (Ok(_), None) => true,
            (Err(e), Some(error)) => e == error,
            _ => false,
        }
}

/// Create the `porchetta` Lua runtime table.
///
/// A program that lets manifests run commands adds the function `system` to it.
pub fn create_porchetta_table(lua: &mlua::Lua) -> (r: Result<mlua::Table, mlua::Error>)
    ensures
        is_porchetta_table(*lua, r),
{
    let table = match new_table(lua) {
        Ok(table) => table,
        Err(error) => {
            return Err(error);
        },
    };
    if let Err(error) = set_hostname(lua, &table) {
        return Err(error);
    }
    let json = match json::create_table(lua) {
        Ok(json) => json,
        Err(error) => {
            return Err(error);
        },
    };
    match set_table(&table, "json", json) {
        Ok(()) => {
            assert(is_json_set(table, json, None));
            Ok(table)
        },
        Err(error) => {
            assert(is_json_set(table, json, Some(error)));
            Err(error)
        },
    }
}

} // verus!
