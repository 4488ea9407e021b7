//! Values of Lua, and the calls into the interpreter.

use vstd::prelude::*;

verus! {

/// A state of the Lua interpreter.
#[verifier::external_type_specification]
#[verifier::external_body]
pub struct ExLua(mlua::Lua);

/// A Lua function.
#[verifier::external_type_specification]
#[verifier::external_body]
pub struct ExFunction(mlua::Function);

/// A Lua table.
#[verifier::external_type_specification]
#[verifier::external_body]
pub struct ExTable(mlua::Table);

/// A Lua string.
#[verifier::external_type_specification]
#[verifier::external_body]
pub struct ExLuaString(mlua::LuaString);

/// A Lua value.
#[verifier::external_type_specification]
#[verifier::external_body]
pub struct ExValue(mlua::Value);

/// An error of the Lua interpreter.
#[verifier::external_type_specification]
#[verifier::external_body]
pub struct ExError(mlua::Error);

/// A Lua value, as far as manifests look into values.
#[derive(Debug)]
pub enum LuaValue {
    Nil,
    Boolean(bool),
    LightUserData,
    Integer,
    Number,
    /// A string: its bytes, and its text with what is no valid UTF-8 replaced.
    Str { bytes: Vec<u8>, text: String },
    Table(mlua::Table),
    Function(mlua::Function),
    Thread,
    UserData,
    Error,
    Other,
}

impl LuaValue {
    /// The name of the kind of value.
    pub open spec fn kind_text(&self) -> Seq<char> {
        match self {
            LuaValue::Nil => "nil"@,
            LuaValue::Boolean(_) => "boolean"@,
            LuaValue::LightUserData => "lightuserdata"@,
            LuaValue::Integer => "integer"@,
            LuaValue::Number => "number"@,
            LuaValue::Str { .. } => "string"@,
            LuaValue::Table(_) => "table"@,
            LuaValue::Function(_) => "function"@,
            LuaValue::Thread => "thread"@,
            LuaValue::UserData => "userdata"@,
            LuaValue::Error => "error"@,
            LuaValue::Other => "other"@,
        }
    }

    /// Names the kind of value.
    pub fn kind_name(&self) -> (r: &'static str)
        ensures
            r@ == self.kind_text(),
    {
        match self {
            LuaValue::Nil => "nil",
            LuaValue::Boolean(_) => "boolean",
            LuaValue::LightUserData => "lightuserdata",
            LuaValue::Integer => "integer",
            LuaValue::Number => "number",
            LuaValue::Str { bytes: _, text: _ } => "string",
            LuaValue::Table(_) => "table",
            LuaValue::Function(_) => "function",
            LuaValue::Thread => "thread",
            LuaValue::UserData => "userdata",
            LuaValue::Error => "error",
            LuaValue::Other => "other",
        }
    }
}

/// Takes a `mlua::Value` apart, one variant for one. A string is read with
/// `mlua::LuaString::as_bytes` and `to_string_lossy`; where its interpreter is gone, by
/// `mlua::WeakLua::try_upgrade`, it cannot be read any more and comes out as `Other`. Nothing is
/// claimed of what comes out, which is what the interpreter holds in the value.
#[verifier::external_body]
pub(crate) fn take_apart(value: mlua::Value) -> (r: LuaValue) {
    match value {
        mlua::Value::Nil => LuaValue::Nil,
        mlua::Value::Boolean(b) => LuaValue::Boolean(b),
        mlua::Value::LightUserData(_) => LuaValue::LightUserData,
        mlua::Value::Integer(_) => LuaValue::Integer,
        mlua::Value::Number(_) => LuaValue::Number,
        mlua::Value::String(s) if s.weak_lua().try_upgrade().is_some() =>
            LuaValue::Str { bytes: s.as_bytes().to_vec(), text: s.to_string_lossy() },
        mlua::Value::Table(t) => LuaValue::Table(t),
        mlua::Value::Function(f) => LuaValue::Function(f),
        mlua::Value::Thread(_) => LuaValue::Thread,
        mlua::Value::UserData(_) => LuaValue::UserData,
        mlua::Value::Error(_) => LuaValue::Error,
        _other => LuaValue::Other,
    }
}

/// The bytes that a Lua string holds. They never change.
pub uninterp spec fn string_bytes(string: mlua::LuaString) -> Seq<u8>;

/// Makes a Lua string with `mlua::Lua::create_string`. The claim is that it holds these bytes,
/// which may be any. It fails where the interpreter has no memory left; nothing is claimed of
/// that.
#[verifier::external_body]
pub(crate) fn create_string(lua: &mlua::Lua, bytes: &[u8]) -> (r: Result<
    mlua::LuaString,
    mlua::Error,
>)
    ensures
        r matches Ok(string) ==> string_bytes(string) == bytes@,
{
    lua.create_string(bytes)
}

/// Calls a Lua function with `mlua::Function::call` on strings of these bytes, which are made in
/// the interpreter of the function. Where that is gone, by `mlua::WeakLua::try_upgrade`, the call
/// is not made and an error comes back. A handle of the interpreter comes with the answer, which
/// can be read as long as that is kept. What the function answers is up to its code, which may do
/// anything: nothing is claimed of it.
#[verifier::external_body]
fn call(func: &mlua::Function, args: Vec<Vec<u8>>) -> (r: Result<
    (mlua::Lua, mlua::Value),
    mlua::Error,
>) {
    let args = mlua::Variadic::from_iter(args.into_iter().map(mlua::BString::from));
    match func.weak_lua().try_upgrade() {
        Some(lua) => func.call(args).map(|value| (lua, value)),
        None => Err(mlua::Error::CallbackDestructed),
    }
}

/// Runs a chunk of Lua with `mlua::Chunk::eval`. What it answers is up to the chunk: nothing is
/// claimed of it.
#[verifier::external_body]
pub(crate) fn eval(lua: &mlua::Lua, chunk: &[u8]) -> (r: Result<mlua::Value, mlua::Error>) {
    lua.load(chunk).eval()
}

/// Reads a field of a table with `mlua::Table::get`, which may run code of the table: nothing is
/// claimed of the value. Where the interpreter of the table is gone, by
/// `mlua::WeakLua::try_upgrade`, an error comes back.
#[verifier::external_body]
pub(crate) fn get_field(table: &mlua::Table, key: &str) -> (r: Result<mlua::Value, mlua::Error>) {
    let _lua = table.weak_lua().try_upgrade().ok_or(mlua::Error::CallbackDestructed)?;
    table.get(key)
}

/// Reads the sequence part of a table as strings with `mlua::Table::sequence_values`, which may
/// run code of the table: nothing is claimed of the strings. Where the interpreter of the table is
/// gone, by `mlua::WeakLua::try_upgrade`, an error comes back.
#[verifier::external_body]
pub(crate) fn get_sequence(table: &mlua::Table) -> (r: Result<Vec<String>, mlua::Error>) {
    let _lua = table.weak_lua().try_upgrade().ok_or(mlua::Error::CallbackDestructed)?;
    table.sequence_values::<String>().collect()
}

/// Whether no two tables of a list have the same name.
pub open spec fn have_own_names(tables: Seq<(String, Vec<(String, mlua::Value)>)>) -> bool {
    forall|i: int, j: int|
        #![trigger tables[i], tables[j]]
        0 <= i < j < tables.len() ==> tables[i].0@ != tables[j].0@
}

/// Reads a table of tables, whose keys are strings, with `mlua::Table::get` into hash maps. Each
/// table comes as the list of its fields. The claim is that no two tables have the same name,
/// since a hash map has each key once. The order of the tables and of the fields is that of a
/// hash map, and nothing is claimed of it or of the values. Where the interpreter of the table is
/// gone, by `mlua::WeakLua::try_upgrade`, an error comes back.
#[verifier::external_body]
pub(crate) fn get_tables(table: &mlua::Table, key: &str) -> (r: Result<
    Vec<(String, Vec<(String, mlua::Value)>)>,
    mlua::Error,
>)
    ensures
        r matches Ok(tables) ==> have_own_names(tables@),
{
    let _lua = table.weak_lua().try_upgrade().ok_or(mlua::Error::CallbackDestructed)?;
    let tables: std::collections::HashMap<
        String,
        std::collections::HashMap<String, mlua::Value>,
    > = table.get(key)?;
    Ok(tables.into_iter().map(|(name, fields)| (name, fields.into_iter().collect())).collect())
}

/// The text of an error of the interpreter, by its `Display`. Nothing is claimed of it.
#[verifier::external_body]
fn error_text(error: &mlua::Error) -> (r: String) {
    format!("{error}")
}

/// Another handle of the same interpreter, with `mlua::Lua::clone`.
#[verifier::external_body]
fn clone_lua(lua: &mlua::Lua) -> (r: mlua::Lua) {
    lua.clone()
}

/// Whether `handle` can be another handle of the interpreter `lua`.
pub closed spec fn is_handle_of(handle: mlua::Lua, lua: mlua::Lua) -> bool {
    call_ensures(clone_lua, (&lua,), handle)
}

/// Another handle of the same interpreter.
pub fn handle_of(lua: &mlua::Lua) -> (r: mlua::Lua)
    ensures
        is_handle_of(r, *lua),
{
    clone_lua(lua)
}

/// The values of byte strings.
pub open spec fn byte_views(list: Seq<Vec<u8>>) -> Seq<Seq<u8>> {
    list.map_values(|bytes: Vec<u8>| bytes@)
}

/// Whether `answer` can be what `func` answers when it is called with strings of these bytes.
pub closed spec fn may_answer(
    func: mlua::Function,
    args: Seq<Seq<u8>>,
    answer: Result<LuaValue, mlua::Error>,
) -> bool {
    exists|given: Vec<Vec<u8>>, value: Result<(mlua::Lua, mlua::Value), mlua::Error>|
        byte_views(given@) == args && #[trigger] call_ensures(call, (&func, given), value)
            && match (value, answer) {
            (Ok((_, value)), Ok(answer)) => call_ensures(take_apart, (value,), answer),
            (Err(error), Err(answer)) => error == answer,
            _ => false,
        }
}

/// Whether `text` can be the text of an error.
pub closed spec fn is_error_text(error: mlua::Error, text: Seq<char>) -> bool {
    exists|written: String|
        written@ == text && #[trigger] call_ensures(error_text, (&error,), written)
}

/// The text of an error of the interpreter.
pub fn text_of_error(error: &mlua::Error) -> (r: String)
    ensures
        is_error_text(*error, r@),
{
    error_text(error)
}

/// Calls a Lua function with strings of these bytes. Its interpreter is kept until the answer is
/// read.
pub fn call_with(func: &mlua::Function, args: Vec<Vec<u8>>) -> (r: Result<LuaValue, mlua::Error>)
    ensures
        may_answer(*func, byte_views(args@), r),
{
    match call(func, args) {
        Ok((_lua, value)) => Ok(take_apart(value)),
        Err(error) => Err(error),
    }
}

} // verus!
