//! JSON for manifests.

use vstd::prelude::*;
use vstd::utf8::{
    decode_utf8, encode_utf8, encode_utf8_decode_utf8, encode_utf8_valid_utf8, valid_utf8,
};

use crate::lua::string_bytes;
use crate::lua_runtime::{new_table, runtime_error};

verus! {

/// A JSON value.
#[verifier::external_type_specification]
#[verifier::external_body]
pub struct ExJson(serde_json::Value);

/// What is wrong with a text as JSON; nothing where it is JSON.
pub uninterp spec fn json_problem(text: Seq<char>) -> Option<Seq<char>>;

/// Reads JSON with `serde_json::from_str`; an error is its text. The claim is that whether the
/// text is JSON, and what is said where it is not, depends on its characters alone. Nothing is
/// claimed of the value, which is opaque here.
#[verifier::external_body]
fn parse(text: &str) -> (r: Result<serde_json::Value, String>)
    ensures
        match r {
            Ok(_) => json_problem(text@) is None,
            Err(problem) => json_problem(text@) == Some(problem@),
        },
{
    serde_json::from_str(text).map_err(|error| format!("{error}"))
}

/// Makes a Lua value of a JSON value with `mlua::LuaSerdeExt::to_value`. Nothing is claimed of
/// the Lua value, which the interpreter holds.
#[verifier::external_body]
fn to_lua(lua: &mlua::Lua, value: &serde_json::Value) -> (r: Result<mlua::Value, mlua::Error>) {
    mlua::LuaSerdeExt::to_value(lua, value)
}

/// Makes a JSON value of a Lua value with `mlua::LuaSerdeExt::from_value`; an error is its text.
/// Where the interpreter of the value is gone, by `mlua::WeakLua::try_upgrade`, nothing is read
/// and an error comes back. Nothing is claimed of the result: the Lua value is what the
/// interpreter holds.
#[verifier::external_body]
fn from_lua(lua: &mlua::Lua, value: mlua::Value) -> (r: Result<serde_json::Value, String>) {
    match value.weak_lua().map(|weak| weak.try_upgrade()) {
        Some(None) => Err(format!("{}", mlua::Error::CallbackDestructed)),
        _alive => mlua::LuaSerdeExt::from_value(lua, value).map_err(|error| format!("{error}")),
    }
}

/// Writes JSON on one line with `serde_json::to_string`; an error is its text. Nothing is claimed
/// of the text: the value is opaque here.
#[verifier::external_body]
fn write_compact(value: &serde_json::Value) -> (r: Result<String, String>) {
    serde_json::to_string(value).map_err(|error| format!("{error}"))
}

/// Writes JSON on several lines with `serde_json::to_string_pretty`; an error is its text.
/// Nothing is claimed of the text: the value is opaque here.
#[verifier::external_body]
fn write_pretty(value: &serde_json::Value) -> (r: Result<String, String>) {
    serde_json::to_string_pretty(value).map_err(|error| format!("{error}"))
}

/// The text of a Lua string, by `mlua::LuaString::to_str`. The claim is that it is the text that
/// the bytes of the string encode. Where they are not valid UTF-8, or where the interpreter of
/// the string is gone, by `mlua::WeakLua::try_upgrade`, an error comes back; nothing is claimed
/// of it.
#[verifier::external_body]
fn string_text(content: &mlua::LuaString) -> (r: Result<String, mlua::Error>)
    ensures
        r matches Ok(text) ==> encode_utf8(text@) == string_bytes(*content),
{
    match content.weak_lua().try_upgrade() {
        Some(_lua) => content.to_str().map(|text| text.to_owned()),
        None => Err(mlua::Error::CallbackDestructed),
    }
}

/// What is said of text that cannot be read or of a value that cannot be written.
pub fn failure(context: &str, problem: &str) -> (r: String)
    ensures
        r@ == context@ + ": "@ + problem@,
{
    context.to_owned().concat(": ").concat(problem)
}

/// Whether `value` can be the value that a text writes.
pub closed spec fn is_parsed(text: Seq<char>, value: serde_json::Value) -> bool {
    exists|t: &str|
        t@ == text && #[trigger] call_ensures(
            parse,
            (t,),
            Ok::<serde_json::Value, String>(value),
        )
}

/// Reads JSON.
pub fn decode_text(text: &str) -> (r: Result<serde_json::Value, String>)
    ensures
        match r {
            Ok(value) => json_problem(text@) is None && is_parsed(text@, value),
            Err(message) => json_problem(text@) is Some && message@ == "porchetta.json.decode"@
                + ": "@ + json_problem(text@)->Some_0,
        },
{
    match parse(text) {
        Ok(value) => Ok(value),
        Err(problem) => Err(failure("porchetta.json.decode", problem.as_str())),
    }
}

/// Decode a JSON string into Lua tables and values.
///
/// JSON null is represented by `porchetta.json.null`.
pub fn decode(lua: &mlua::Lua, content: mlua::LuaString) -> (r: Result<mlua::Value, mlua::Error>)
    ensures
        is_decoded(*lua, content, r),
        !is_json(string_bytes(content)) ==> r is Err,
{
    let text = match string_text(&content) {
        Ok(text) => text,
        Err(error) => {
            return Err(error);
        },
    };
    proof {
        encode_utf8_valid_utf8(text@);
        encode_utf8_decode_utf8(text@);
    }
    let decoded = decode_text(text.as_str());
    assert(may_decode(text@, decoded));
    match decoded {
        Ok(value) => to_lua(lua, &value),
        Err(message) => Err(runtime_error(message)),
    }
}

/// Whether bytes are the text of a JSON value.
pub open spec fn is_json(bytes: Seq<u8>) -> bool {
    valid_utf8(bytes) && json_problem(decode_utf8(bytes)) is None
}

/// Whether `r` can be what a text comes to as JSON.
pub open spec fn may_decode(text: Seq<char>, r: Result<serde_json::Value, String>) -> bool {
    exists|t: &str| t@ == text && #[trigger] call_ensures(decode_text, (t,), r)
}

/// Whether `r` can be what a Lua string comes to as JSON: the Lua value of the JSON value that it
/// writes, or an error where it writes none.
pub closed spec fn is_decoded(
    lua: mlua::Lua,
    content: mlua::LuaString,
    r: Result<mlua::Value, mlua::Error>,
) -> bool {
    exists|text: Result<String, mlua::Error>| #[trigger]
        call_ensures(string_text, (&content,), text) && match text {
            Err(error) => r == Err::<mlua::Value, mlua::Error>(error),
            Ok(text) => exists|decoded: Result<serde_json::Value, String>| #[trigger]
                may_decode(text@, decoded) && match decoded {
                    Ok(value) => call_ensures(to_lua, (&lua, &value), r),
                    Err(message) => is_raised(message, r),
                },
        }
}

/// Whether `r` raises an error with this message.
pub closed spec fn is_raised(message: String, r: Result<mlua::Value, mlua::Error>) -> bool {
    r is Err && call_ensures(runtime_error, (message,), r->Err_0)
}

/// Encode a Lua value as compact JSON.
///
/// Use `porchetta.json.null` to encode JSON null.
pub fn encode(lua: &mlua::Lua, value: mlua::Value) -> (r: Result<String, mlua::Error>)
    ensures
        is_encoded(*lua, value, "porchetta.json.encode"@, false, r),
{
    encode_with(lua, value, "porchetta.json.encode", false)
}

/// Encode a Lua value as pretty-printed JSON.
///
/// Use `porchetta.json.null` to encode JSON null.
pub fn encode_pretty(lua: &mlua::Lua, value: mlua::Value) -> (r: Result<String, mlua::Error>)
    ensures
        is_encoded(*lua, value, "porchetta.json.encode_pretty"@, true, r),
{
    encode_with(lua, value, "porchetta.json.encode_pretty", true)
}

/// Whether `r` can be a Lua value written as JSON: it is made a JSON value, which is written; what
/// goes wrong is said behind `context`.
pub closed spec fn is_encoded(
    lua: mlua::Lua,
    value: mlua::Value,
    context: Seq<char>,
    pretty: bool,
    r: Result<String, mlua::Error>,
) -> bool {
    exists|json: Result<serde_json::Value, String>| #[trigger]
        call_ensures(from_lua, (&lua, value), json) && match json {
            Ok(json) => exists|text: Result<String, String>|
                #![trigger is_written(json, pretty, text)]
                is_written(json, pretty, text) && match text {
                    Ok(text) => r == Ok::<String, mlua::Error>(text),
                    Err(problem) => is_failure(context, problem@, r),
                },
            Err(problem) => is_failure(context, problem@, r),
        }
}

/// Whether `text` can be a JSON value, written.
pub closed spec fn is_written(
    json: serde_json::Value,
    pretty: bool,
    text: Result<String, String>,
) -> bool {
    if pretty {
        call_ensures(write_pretty, (&json,), text)
    } else {
        call_ensures(write_compact, (&json,), text)
    }
}

/// Whether `r` says what went wrong.
pub closed spec fn is_failure(
    context: Seq<char>,
    problem: Seq<char>,
    r: Result<String, mlua::Error>,
) -> bool {
    exists|message: String, error: mlua::Error|
        message@ == context + ": "@ + problem && #[trigger] call_ensures(
            runtime_error,
            (message,),
            error,
        ) && r == Err::<String, mlua::Error>(error)
}

fn encode_with(lua: &mlua::Lua, value: mlua::Value, context: &str, pretty: bool) -> (r: Result<
    String,
    mlua::Error,
>)
    ensures
        is_encoded(*lua, value, context@, pretty, r),
{
    let json = match from_lua(lua, value) {
        Ok(json) => json,
        Err(problem) => {
            let r = Err(runtime_error(failure(context, problem.as_str())));
            assert(is_failure(context@, problem@, r));
            return r;
        },
    };
    let text = if pretty { write_pretty(&json) } else { write_compact(&json) };
    assert(is_written(json, pretty, text));
    match text {
        Ok(text) => Ok(text),
        Err(problem) => {
            let r = Err(runtime_error(failure(context, problem.as_str())));
            assert(is_failure(context@, problem@, r));
            r
        },
    }
}

/// Puts [`decode`] in a table, with `mlua::Lua::create_function` and `mlua::Table::set`. Where the
/// table is of another interpreter, by the `==` of `mlua::WeakLua`, an error comes back. Nothing
/// is claimed of the table, which the interpreter holds.
#[verifier::external_body]
fn set_decode(lua: &mlua::Lua, table: &mlua::Table) -> (r: Result<(), mlua::Error>) {
    match *table.weak_lua() == lua.weak() {
        true => table.set("decode", lua.create_function(|lua, content| decode(lua, content))?),
        false => Err(mlua::Error::CallbackDestructed),
    }
}

/// Puts [`encode`] in a table, with `mlua::Lua::create_function` and `mlua::Table::set`. Where the
/// table is of another interpreter, by the `==` of `mlua::WeakLua`, an error comes back. Nothing
/// is claimed of the table, which the interpreter holds.
#[verifier::external_body]
fn set_encode(lua: &mlua::Lua, table: &mlua::Table) -> (r: Result<(), mlua::Error>) {
    match *table.weak_lua() == lua.weak() {
        true => table.set("encode", lua.create_function(|lua, value| encode(lua, value))?),
        false => Err(mlua::Error::CallbackDestructed),
    }
}

/// Puts [`encode_pretty`] in a table, with `mlua::Lua::create_function` and `mlua::Table::set`.
/// Where the table is of another interpreter, by the `==` of `mlua::WeakLua`, an error comes back.
/// Nothing is claimed of the table, which the interpreter holds.
#[verifier::external_body]
fn set_encode_pretty(lua: &mlua::Lua, table: &mlua::Table) -> (r: Result<(), mlua::Error>) {
    match *table.weak_lua() == lua.weak() {
        true => {
            table.set("encode_pretty", lua.create_function(|lua, value| encode_pretty(lua, value))?)
        }
        false => Err(mlua::Error::CallbackDestructed),
    }
}

/// Puts the value that stands for JSON null in a table, with `mlua::LuaSerdeExt::null` and
/// `mlua::Table::set`. Where the table is of another interpreter, by the `==` of
/// `mlua::WeakLua`, an error comes back. Nothing is claimed of the table, which the interpreter
/// holds.
#[verifier::external_body]
fn set_null(lua: &mlua::Lua, table: &mlua::Table) -> (r: Result<(), mlua::Error>) {
    match *table.weak_lua() == lua.weak() {
        true => table.set("null", mlua::LuaSerdeExt::null(lua)),
        false => Err(mlua::Error::CallbackDestructed),
    }
}

/// Whether `r` can be a table to which each of the four steps adds what it sets, or the error of
/// the first step that fails.
pub closed spec fn is_json_table(lua: mlua::Lua, r: Result<mlua::Table, mlua::Error>) -> bool {
    exists|made: Result<mlua::Table, mlua::Error>| #[trigger]
        call_ensures(new_table, (&lua,), made) && match (made, r) {
            (Err(error), Err(e)) => error == e,
            (Ok(table), Ok(t)) => {
                &&& table == t
                &&& exists|done: Result<(), mlua::Error>|
                    done is Ok && #[trigger] call_ensures(set_decode, (&lua, &table), done)
                &&& exists|done: Result<(), mlua::Error>|
                    done is Ok && #[trigger] call_ensures(set_encode, (&lua, &table), done)
                &&& exists|done: Result<(), mlua::Error>|
                    done is Ok && #[trigger] call_ensures(set_encode_pretty, (&lua, &table), done)
                &&& exists|done: Result<(), mlua::Error>|
                    done is Ok && #[trigger] call_ensures(set_null, (&lua, &table), done)
            },
            (Ok(table), Err(error)) => {
                ||| call_ensures(set_decode, (&lua, &table), Err::<(), mlua::Error>(error))
                ||| call_ensures(set_encode, (&lua, &table), Err::<(), mlua::Error>(error))
                ||| call_ensures(set_encode_pretty, (&lua, &table), Err::<(), mlua::Error>(error))
                ||| call_ensures(set_null, (&lua, &table), Err::<(), mlua::Error>(error))
            },
            _ => false,
        }
}

/// Create the `porchetta.json` Lua runtime table.
pub fn create_table(lua: &mlua::Lua) -> (r: Result<mlua::Table, mlua::Error>)
    ensures
        is_json_table(*lua, r),
{
    let table = match new_table(lua) {
        Ok(table) => table,
        Err(error) => {
            return Err(error);
        },
    };
    if let Err(error) = set_decode(lua, &table) {
        return Err(error);
    }
    if let Err(error) = set_encode(lua, &table) {
        return Err(error);
    }
    if let Err(error) = set_encode_pretty(lua, &table) {
        return Err(error);
    }
    if let Err(error) = set_null(lua, &table) {
        return Err(error);
    }
    Ok(table)
}

} // verus!
