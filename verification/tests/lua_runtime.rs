use porchetta::lua_runtime::{
    create_porchetta_table, exit_failure, hostname_failure, output_failure, spawn_failure,
    stdin_failure, system_command,
};

fn json(text: &str) -> serde_json::Value {
    serde_json::from_str(text).unwrap()
}


fn lua_with_porchetta() -> mlua::Lua {
    let lua = mlua::Lua::new();
    lua.globals()
        .set("porchetta", create_porchetta_table(&lua).unwrap())
        .unwrap();
    lua
}

#[test]
fn test_hostname() {
    let lua = lua_with_porchetta();
    let result: String = lua.load(r#"porchetta.hostname()"#).eval().unwrap();
    assert!(!result.is_empty());
}

#[test]
fn test_json_decode_object() {
    let lua = lua_with_porchetta();
    let result: String = lua
        .load(r#"local v = porchetta.json.decode('{"name":"porchetta"}'); return v.name"#)
        .eval()
        .unwrap();
    assert_eq!(result, "porchetta");
}

#[test]
fn test_json_decode_array() {
    let lua = lua_with_porchetta();
    let result: i64 = lua
        .load(r#"local v = porchetta.json.decode('[1,2,3]'); return v[2]"#)
        .eval()
        .unwrap();
    assert_eq!(result, 2);
}

#[test]
fn test_json_encode_modified_object() {
    let lua = lua_with_porchetta();
    let result: String = lua
        .load(
            r#"
            local v = porchetta.json.decode('{"keep":true,"remove":"local"}')
            v.remove = nil
            v.added = "repo"
            return porchetta.json.encode(v)
            "#,
        )
        .eval()
        .unwrap();
    let value: serde_json::Value = serde_json::from_str(&result).unwrap();
    assert_eq!(value, json(r#"{"keep": true, "added": "repo"}"#));
}

#[test]
fn test_json_encode_pretty() {
    let lua = lua_with_porchetta();
    let result: String = lua
        .load(r#"return porchetta.json.encode_pretty({name = 'porchetta'})"#)
        .eval()
        .unwrap();
    assert!(result.contains('\n'));
    assert!(result.contains(r#""name": "porchetta""#));
}

#[test]
fn test_json_null_distinct_from_missing_key() {
    let lua = lua_with_porchetta();
    let result: String = lua
        .load(
            r#"
            local v = porchetta.json.decode('{"present":null}')
            assert(v.present == porchetta.json.null)
            assert(v.missing == nil)
            v.missing = porchetta.json.null
            return porchetta.json.encode(v)
            "#,
        )
        .eval()
        .unwrap();
    let value: serde_json::Value = serde_json::from_str(&result).unwrap();
    assert_eq!(value, json(r#"{"present": null, "missing": null}"#));
}

#[test]
fn test_json_invalid_input_errors() {
    let lua = lua_with_porchetta();
    let result: mlua::Result<mlua::Value> = lua.load(r#"porchetta.json.decode('{')"#).eval();
    assert!(result.is_err());
    let err = result.unwrap_err().to_string();
    assert!(err.contains("porchetta.json.decode"));
}

#[test]
fn test_json_unsupported_lua_value_errors() {
    let lua = lua_with_porchetta();
    let result: mlua::Result<String> = lua
        .load(r#"porchetta.json.encode({callback = function() end})"#)
        .eval();
    assert!(result.is_err());
    let err = result.unwrap_err().to_string();
    assert!(err.contains("porchetta.json.encode"));
}

fn args(list: &[&str]) -> Vec<String> {
    list.iter().map(|arg| (*arg).to_owned()).collect()
}

#[test]
fn commands_need_a_program() {
    let command = system_command(&args(&["echo", "hi", "there"])).unwrap();
    assert_eq!(command.program, "echo");
    assert_eq!(command.args, ["hi", "there"]);
    let error = system_command(&args(&[])).err().unwrap();
    assert_eq!(error, "porchetta.system: args table must not be empty");
}

#[test]
fn failures_of_commands_are_worded() {
    assert_eq!(spawn_failure("x", "gone"), "porchetta.system: failed to spawn 'x': gone");
    assert_eq!(stdin_failure("full"), "porchetta.system: failed to write stdin: full");
    assert_eq!(output_failure("cut"), "porchetta.system: failed to read output: cut");
    assert_eq!(
        exit_failure(&args(&["a", "b"]), Some(2), "no\n"),
        "porchetta.system: 'a b' exited with code 2: no\n"
    );
    assert_eq!(
        exit_failure(&args(&["a"]), None, ""),
        "porchetta.system: 'a' exited with code -1: "
    );
    assert_eq!(hostname_failure("no"), "porchetta.hostname: failed to get hostname: no");
}

#[test]
fn hostnames_are_those_of_the_machine() {
    let lua = lua_with_porchetta();
    let result: String = lua.load("porchetta.hostname()").eval().unwrap();
    assert_eq!(result, hostname::get().unwrap().to_string_lossy());
}
