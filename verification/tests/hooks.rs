use std::cell::RefCell;
use std::rc::Rc;

use porchetta::hooks::{
    chosen, manifest_chosen, rewritten, run_hook, run_manifest_should_include, run_should_include,
    HookError,
};
use porchetta::lua::LuaValue;


#[test]
fn test_run_hook_transforms_content() {
    let lua = mlua::Lua::new();
    let func = lua
        .load(r#"function(path, content) return content:gsub("hello", "goodbye") end"#)
        .eval::<mlua::Function>()
        .unwrap();
    let result = run_hook(&lua, "test", "to_repo", &func, "a.txt", b"hello world").unwrap();
    assert_eq!(result, b"goodbye world");
}

#[test]
fn test_run_hook_rejects_non_string_return() {
    let lua = mlua::Lua::new();
    let func = lua
        .load(r"function(path, content) return 42 end")
        .eval::<mlua::Function>()
        .unwrap();
    let result = run_hook(&lua, "test", "to_repo", &func, "a.txt", b"hello world");
    assert!(result.is_err());
    let err = result.unwrap_err().message();
    assert!(err.contains("must return a string"));
}

#[test]
fn test_run_should_include_true() {
    let lua = mlua::Lua::new();
    let func = lua
        .load(r"function(path) return true end")
        .eval::<mlua::Function>()
        .unwrap();
    let result = run_should_include(&lua, "test", &func, "a.txt").unwrap();
    assert!(result);
}

#[test]
fn test_run_should_include_false() {
    let lua = mlua::Lua::new();
    let func = lua
        .load(r"function(path) return false end")
        .eval::<mlua::Function>()
        .unwrap();
    let result = run_should_include(&lua, "test", &func, "a.txt").unwrap();
    assert!(!result);
}

#[test]
fn test_run_should_include_rejects_non_boolean_return() {
    let lua = mlua::Lua::new();
    let func = lua
        .load(r"function(path) return 'yes' end")
        .eval::<mlua::Function>()
        .unwrap();
    let result = run_should_include(&lua, "test", &func, "a.txt");
    assert!(result.is_err());
    let err = result.unwrap_err().message();
    assert!(err.contains("must return a boolean"));
}

#[test]
fn hooks_that_fail_are_reported() {
    let lua = mlua::Lua::new();
    let func = lua.load("function(path) error('broken') end").eval::<mlua::Function>().unwrap();
    let error = run_hook(&lua, "test", "to_repo", &func, "a.txt", b"x").unwrap_err();
    assert!(matches!(error, HookError::Failed { .. }));
    assert!(error.message().contains("to_repo hook for topic 'test' on 'a.txt' failed"));
    let error = run_should_include(&lua, "test", &func, "a.txt").unwrap_err();
    assert!(error.message().contains("should_include hook for topic 'test' on 'a.txt' failed"));
    let error = run_manifest_should_include(&func, "a.txt").unwrap_err();
    assert!(matches!(error, HookError::ManifestFailed { .. }));
}

#[test]
fn hooks_get_the_path_and_the_content() {
    let lua = mlua::Lua::new();
    let func =
        lua.load("function(path, content) return content .. path end").eval::<mlua::Function>().unwrap();
    let result = run_hook(&lua, "t", "to_system", &func, "p", &[0xff, 0x00]).unwrap();
    assert_eq!(result, [0xff, 0x00, b'p']);
}

#[test]
fn results_of_hooks_must_be_of_their_kind() {
    assert_eq!(rewritten("t", "to_repo", "p", LuaValue::Str { bytes: vec![1], text: String::new() }).unwrap(), [1]);
    let error = rewritten("t", "to_repo", "p", LuaValue::Nil).unwrap_err();
    assert_eq!(error.message(), "topic 't': to_repo for 'p' must return a string, got nil");
    assert!(chosen("t", "p", LuaValue::Boolean(true)).unwrap());
    let error = chosen("t", "p", LuaValue::Nil).unwrap_err();
    assert_eq!(error.message(), "topic 't': should_include for 'p' must return a boolean, got nil");
    assert!(!manifest_chosen("p", LuaValue::Boolean(false)).unwrap());
    assert!(matches!(
        manifest_chosen("p", LuaValue::Nil),
        Err(HookError::ManifestWrongReturn { .. })
    ));
}

#[test]
fn hooks_run_where_they_belong() {
    let other = mlua::Lua::new();
    let lua = mlua::Lua::new();
    let rewrite: mlua::Function = lua.load("function(p, c) return c .. p end").eval().unwrap();
    assert_eq!(run_hook(&other, "t", "to_repo", &rewrite, "a", b"x\xff").unwrap(), b"x\xffa");
    let choose: mlua::Function = lua.load("function(p) return p == 'a' end").eval().unwrap();
    assert!(run_should_include(&other, "t", &choose, "a").unwrap());
    assert!(!run_should_include(&other, "t", &choose, "b").unwrap());
}

#[test]
fn hooks_of_a_closed_interpreter_fail() {
    let lua = mlua::Lua::new();
    let func = {
        let closed = mlua::Lua::new();
        closed.load("function() return 'x' end").eval::<mlua::Function>().unwrap()
    };
    let error = run_hook(&lua, "t", "to_repo", &func, "a", b"x").unwrap_err();
    assert!(error.message().contains("to_repo hook for topic 't' on 'a' failed"));
    assert!(run_should_include(&lua, "t", &func, "a").is_err());
    assert!(run_manifest_should_include(&func, "a").is_err());
}

/// A function that closes its interpreter, but for the handles that a call holds, and answers.
fn closing(answer: &'static str) -> mlua::Function {
    let lua = mlua::Lua::new();
    let slot: Rc<RefCell<Option<mlua::Lua>>> = Rc::new(RefCell::new(None));
    let own = slot.clone();
    let func = lua
        .create_function(move |lua, _: mlua::MultiValue| {
            own.borrow_mut().take();
            lua.create_string(answer)
        })
        .unwrap();
    *slot.borrow_mut() = Some(lua);
    func
}

#[test]
fn answers_are_read_before_an_interpreter_closes() {
    let lua = mlua::Lua::new();
    assert_eq!(run_hook(&lua, "t", "to_repo", &closing("x"), "a", b"y").unwrap(), b"x");
    let error = run_should_include(&lua, "t", &closing("x"), "a").unwrap_err();
    assert!(error.message().contains("must return a boolean"));
    assert!(run_manifest_should_include(&closing("x"), "a").is_err());
    let func = closing("x");
    assert!(run_hook(&lua, "t", "to_repo", &func, "a", b"y").is_ok());
    assert!(run_hook(&lua, "t", "to_repo", &func, "a", b"y").is_err());
}
