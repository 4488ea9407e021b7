use porchetta::lua_runtime::json::{create_table, decode, decode_text, encode, failure};

fn json(text: &str) -> serde_json::Value {
    serde_json::from_str(text).unwrap()
}


fn lua_with_json() -> mlua::Lua {
    let lua = mlua::Lua::new();
    let porchetta = lua.create_table().unwrap();
    porchetta.set("json", create_table(&lua).unwrap()).unwrap();
    lua.globals().set("porchetta", porchetta).unwrap();
    lua
}

#[test]
fn test_decode_object() {
    let lua = lua_with_json();
    let result: String = lua
        .load(r#"local v = porchetta.json.decode('{"name":"porchetta"}'); return v.name"#)
        .eval()
        .unwrap();
    assert_eq!(result, "porchetta");
}

#[test]
fn test_decode_array() {
    let lua = lua_with_json();
    let result: i64 = lua
        .load(r"local v = porchetta.json.decode('[1,2,3]'); return v[2]")
        .eval()
        .unwrap();
    assert_eq!(result, 2);
}

#[test]
fn test_encode_modified_object() {
    let lua = lua_with_json();
    let result: String = lua
        .load(
            r#"
            local v = porchetta.json.decode('{"keep":true,"remove":"local"}')
            v.remove = nil
            v.added = "repo"
            return porchetta.json.encode(v)
            "#,
        )
        .eval()
        .unwrap();
    let value: serde_json::Value = serde_json::from_str(&result).unwrap();
    assert_eq!(value, json(r#"{"keep": true, "added": "repo"}"#));
}

#[test]
fn test_encode_pretty() {
    let lua = lua_with_json();
    let result: String = lua
        .load(r"return porchetta.json.encode_pretty({name = 'porchetta'})")
        .eval()
        .unwrap();
    assert!(result.contains('\n'));
    assert!(result.contains(r#""name": "porchetta""#));
}

#[test]
fn test_null_distinct_from_missing_key() {
    let lua = lua_with_json();
    let result: String = lua
        .load(
            r#"
            local v = porchetta.json.decode('{"present":null}')
            assert(v.present == porchetta.json.null)
            assert(v.missing == nil)
            v.missing = porchetta.json.null
            return porchetta.json.encode(v)
            "#,
        )
        .eval()
        .unwrap();
    let value: serde_json::Value = serde_json::from_str(&result).unwrap();
    assert_eq!(value, json(r#"{"present": null, "missing": null}"#));
}

#[test]
fn test_decoded_empty_array_round_trips_as_array() {
    let lua = lua_with_json();
    let result: String = lua
        .load(r"return porchetta.json.encode(porchetta.json.decode('[]'))")
        .eval()
        .unwrap();
    assert_eq!(result, "[]");
}

#[test]
fn test_decoded_empty_object_round_trips_as_object() {
    let lua = lua_with_json();
    let result: String = lua
        .load(r"return porchetta.json.encode(porchetta.json.decode('{}'))")
        .eval()
        .unwrap();
    assert_eq!(result, "{}");
}

#[test]
fn test_nested_empty_array_round_trips_as_array() {
    let lua = lua_with_json();
    let result: String = lua
        .load(
            r#"
            local v = porchetta.json.decode('{"items":[]}')
            return porchetta.json.encode(v)
            "#,
        )
        .eval()
        .unwrap();
    let value: serde_json::Value = serde_json::from_str(&result).unwrap();
    assert_eq!(value, json(r#"{"items": []}"#));
}

#[test]
fn test_decoded_array_round_trips_after_mutation() {
    let lua = lua_with_json();
    let result: String = lua
        .load(
            r"
            local v = porchetta.json.decode('[1,2]')
            v[3] = 3
            return porchetta.json.encode(v)
            ",
        )
        .eval()
        .unwrap();
    assert_eq!(result, "[1,2,3]");
}

#[test]
fn test_lua_created_empty_table_encodes_as_object() {
    let lua = lua_with_json();
    let result: String = lua
        .load(r"return porchetta.json.encode({})")
        .eval()
        .unwrap();
    assert_eq!(result, "{}");
}

#[test]
fn test_invalid_input_errors() {
    let lua = lua_with_json();
    let result: mlua::Result<mlua::Value> = lua.load(r"porchetta.json.decode('{')").eval();
    assert!(result.is_err());
    let err = result.unwrap_err().to_string();
    assert!(err.contains("porchetta.json.decode"));
}

#[test]
fn test_unsupported_lua_value_errors() {
    let lua = lua_with_json();
    let result: mlua::Result<String> = lua
        .load(r"porchetta.json.encode({callback = function() end})")
        .eval();
    assert!(result.is_err());
    let err = result.unwrap_err().to_string();
    assert!(err.contains("porchetta.json.encode"));
}

#[test]
fn texts_are_decoded_or_the_problem_is_told() {
    assert_eq!(decode_text("[1]").unwrap(), json("[1]"));
    let problem = decode_text("{").unwrap_err();
    assert!(problem.starts_with("porchetta.json.decode: EOF"));
    assert_eq!(failure("here", "there"), "here: there");
}

#[test]
fn values_of_a_closed_interpreter_are_refused() {
    let lua = mlua::Lua::new();
    let (table, string) = {
        let closed = mlua::Lua::new();
        (closed.create_table().unwrap(), closed.create_string("[1]").unwrap())
    };
    assert!(encode(&lua, mlua::Value::Table(table)).is_err());
    assert!(decode(&lua, string).is_err());
}

#[test]
fn values_of_another_interpreter_are_encoded() {
    let lua = mlua::Lua::new();
    let other = mlua::Lua::new();
    let list = other.create_sequence_from([1, 2]).unwrap();
    assert_eq!(encode(&lua, mlua::Value::Table(list)).unwrap(), "[1,2]");
    let decoded = decode(&lua, other.create_string("7").unwrap()).unwrap();
    assert_eq!(encode(&lua, decoded).unwrap(), "7");
}
