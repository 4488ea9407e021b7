//! The hooks of a manifest: Lua functions that rewrite content and choose files.

use vstd::prelude::*;
use vstd::utf8::encode_utf8;

use crate::bytes::{bytes_of, slice_copy};
use crate::lua::{byte_views, call_with, is_error_text, may_answer, text_of_error, LuaValue};

verus! {

/// Why a hook gives no result.
#[derive(Debug)]
pub enum HookError {
    /// A hook of a topic failed, for this reason.
    Failed { topic: String, hook: String, path: String, reason: String },
    /// The filter of the manifest failed, for this reason.
    ManifestFailed { path: String, reason: String },
    /// A hook of a topic returned something else than it must.
    WrongReturn { topic: String, hook: String, path: String, expected: String, got: String },
    /// The filter of the manifest returned something else than it must.
    ManifestWrongReturn { path: String, got: String },
}

impl HookError {
    /// The text of the error.
    pub open spec fn text(&self) -> Seq<char> {
        match self {
            HookError::Failed { topic, hook, path, reason } => hook@ + " hook for topic '"@ + topic@
                + "' on '"@ + path@ + "' failed"@,
            HookError::ManifestFailed { path, reason } => "manifest-level should_include for '"@ + path@
                + "' failed"@,
            HookError::WrongReturn { topic, hook, path, expected, got } => "topic '"@ + topic@
                + "': "@ + hook@ + " for '"@ + path@ + "' must return a "@ + expected@ + ", got "@
                + got@,
            HookError::ManifestWrongReturn { path, got } => "manifest-level should_include for '"@
                + path@ + "' must return a boolean, got "@ + got@,
        }
    }

    /// The text of the error.
    pub fn message(&self) -> (r: String)
        ensures
            r@ == self.text(),
    {
        match self {
            HookError::Failed { topic, hook, path, reason: _ } => hook.clone().concat(
                " hook for topic '",
            ).concat(topic.as_str()).concat("' on '").concat(path.as_str()).concat("' failed"),
            HookError::ManifestFailed { path, reason: _ } =>
                "manifest-level should_include for '".to_owned().concat(path.as_str()).concat(
                    "' failed",
                ),
            HookError::WrongReturn { topic, hook, path, expected, got } =>
                "topic '".to_owned().concat(topic.as_str()).concat("': ").concat(
                    hook.as_str(),
                ).concat(" for '").concat(path.as_str()).concat("' must return a ").concat(
                    expected.as_str(),
                ).concat(", got ").concat(got.as_str()),
            HookError::ManifestWrongReturn { path, got } =>
                "manifest-level should_include for '".to_owned().concat(path.as_str()).concat(
                    "' must return a boolean, got ",
                ).concat(got.as_str()),
        }
    }
}

// ----------------------------------------------------------------------------
// What an answer comes to
// ----------------------------------------------------------------------------

/// Whether `error` says that a hook of a topic returned `value` where it must return `expected`.
pub open spec fn is_wrong_return(
    error: HookError,
    topic: Seq<char>,
    hook: Seq<char>,
    path: Seq<char>,
    expected: Seq<char>,
    value: LuaValue,
) -> bool {
    error matches HookError::WrongReturn { topic: t, hook: h, path: p, expected: e, got } && t@
        == topic && h@ == hook && p@ == path && e@ == expected && got@ == value.kind_text()
}

/// Whether `r` is what the answer of a rewriting hook comes to: its bytes where it is a string.
pub open spec fn is_rewritten(
    topic: Seq<char>,
    hook: Seq<char>,
    path: Seq<char>,
    value: LuaValue,
    r: Result<Vec<u8>, HookError>,
) -> bool {
    match value {
        LuaValue::Str { bytes, text } => r == Ok::<Vec<u8>, HookError>(bytes),
        _ => r matches Err(error) && is_wrong_return(error, topic, hook, path, "string"@, value),
    }
}

/// What the answer of a rewriting hook comes to.
pub fn rewritten(topic_name: &str, hook_name: &str, path: &str, value: LuaValue) -> (r: Result<
    Vec<u8>,
    HookError,
>)
    ensures
        is_rewritten(topic_name@, hook_name@, path@, value, r),
{
    let got = value.kind_name();
    match value {
        LuaValue::Str { bytes, text: _ } => Ok(bytes),
        _ => Err(
            HookError::WrongReturn {
                topic: topic_name.to_owned(),
                hook: hook_name.to_owned(),
                path: path.to_owned(),
                expected: "string".to_owned(),
                got: got.to_owned(),
            },
        ),
    }
}

/// Whether `r` is what the answer of a filter of a topic comes to: its value where it is a
/// boolean.
pub open spec fn is_chosen(
    topic: Seq<char>,
    path: Seq<char>,
    value: LuaValue,
    r: Result<bool, HookError>,
) -> bool {
    match value {
        LuaValue::Boolean(b) => r == Ok::<bool, HookError>(b),
        _ => r matches Err(error) && is_wrong_return(
            error,
            topic,
            "should_include"@,
            path,
            "boolean"@,
            value,
        ),
    }
}

/// What the answer of a filter of a topic comes to.
pub fn chosen(topic_name: &str, path: &str, value: LuaValue) -> (r: Result<bool, HookError>)
    ensures
        is_chosen(topic_name@, path@, value, r),
{
    match value {
        LuaValue::Boolean(b) => Ok(b),
        _ => Err(
            HookError::WrongReturn {
                topic: topic_name.to_owned(),
                hook: "should_include".to_owned(),
                path: path.to_owned(),
                expected: "boolean".to_owned(),
                got: value.kind_name().to_owned(),
            },
        ),
    }
}

/// Whether `r` is what the answer of the filter of a manifest comes to: its value where it is a
/// boolean.
pub open spec fn is_manifest_chosen(
    path: Seq<char>,
    value: LuaValue,
    r: Result<bool, HookError>,
) -> bool {
    match value {
        LuaValue::Boolean(b) => r == Ok::<bool, HookError>(b),
        _ => r matches Err(error) && error matches HookError::ManifestWrongReturn { path: p, got }
            && p@ == path && got@ == value.kind_text(),
    }
}

/// What the answer of the filter of a manifest comes to.
pub fn manifest_chosen(path: &str, value: LuaValue) -> (r: Result<bool, HookError>)
    ensures
        is_manifest_chosen(path@, value, r),
{
    match value {
        LuaValue::Boolean(b) => Ok(b),
        _ => Err(
            HookError::ManifestWrongReturn {
                path: path.to_owned(),
                got: value.kind_name().to_owned(),
            },
        ),
    }
}

// ----------------------------------------------------------------------------
// Calls
// ----------------------------------------------------------------------------

/// Whether an answer is one that the hook may give for a path and content.
pub open spec fn may_rewrite(
    func: mlua::Function,
    path: Seq<char>,
    content: Seq<u8>,
    answer: Result<LuaValue, mlua::Error>,
) -> bool {
    may_answer(func, seq![encode_utf8(path), content], answer)
}

/// Whether an answer is one that the filter may give for a path.
pub open spec fn may_choose(
    func: mlua::Function,
    path: Seq<char>,
    answer: Result<LuaValue, mlua::Error>,
) -> bool {
    may_answer(func, seq![encode_utf8(path)], answer)
}

/// Whether `r` can come of a rewriting hook of a topic: it is called with the path and the
/// content, and `r` is what its answer comes to.
pub open spec fn is_hook_run(
    topic: Seq<char>,
    hook: Seq<char>,
    func: mlua::Function,
    path: Seq<char>,
    content: Seq<u8>,
    r: Result<Vec<u8>, HookError>,
) -> bool {
    match r {
        Err(HookError::Failed { topic: t, hook: h, path: p, reason }) => t@ == topic && h@ == hook
            && p@ == path && exists|error: mlua::Error| #[trigger]
            may_rewrite(func, path, content, Err::<LuaValue, mlua::Error>(error)) && is_error_text(
                error,
                reason@,
            ),
        _ => exists|value: LuaValue| #[trigger]
            may_rewrite(func, path, content, Ok::<LuaValue, mlua::Error>(value)) && is_rewritten(
                topic,
                hook,
                path,
                value,
                r,
            ),
    }
}

/// Whether `r` can come of the filter of a topic: it is called with the path, and `r` is what its
/// answer comes to.
pub open spec fn is_filter_run(
    topic: Seq<char>,
    func: mlua::Function,
    path: Seq<char>,
    r: Result<bool, HookError>,
) -> bool {
    match r {
        Err(HookError::Failed { topic: t, hook: h, path: p, reason }) => t@ == topic && h@
            == "should_include"@ && p@ == path && exists|error: mlua::Error| #[trigger]
            may_choose(func, path, Err::<LuaValue, mlua::Error>(error)) && is_error_text(
                error,
                reason@,
            ),
        _ => exists|value: LuaValue| #[trigger]
            may_choose(func, path, Ok::<LuaValue, mlua::Error>(value)) && is_chosen(
                topic,
                path,
                value,
                r,
            ),
    }
}

/// Whether `r` can come of the filter of a manifest: it is called with the path, and `r` is what
/// its answer comes to.
pub open spec fn is_manifest_filter_run(
    func: mlua::Function,
    path: Seq<char>,
    r: Result<bool, HookError>,
) -> bool {
    match r {
        Err(HookError::ManifestFailed { path: p, reason }) => p@ == path && exists|
            error: mlua::Error,
        | #[trigger]
            may_choose(func, path, Err::<LuaValue, mlua::Error>(error)) && is_error_text(
                error,
                reason@,
            ),
        _ => exists|value: LuaValue| #[trigger]
            may_choose(func, path, Ok::<LuaValue, mlua::Error>(value)) && is_manifest_chosen(
                path,
                value,
                r,
            ),
    }
}

/// Calls a rewriting hook with a path and content.
fn call_rewrite(func: &mlua::Function, path: &str, content: &[u8]) -> (r: Result<
    LuaValue,
    mlua::Error,
>)
    ensures
        may_rewrite(*func, path@, content@, r),
{
    let mut args: Vec<Vec<u8>> = Vec::new();
    args.push(bytes_of(path));
    args.push(slice_copy(content));
    assert(byte_views(args@) =~= seq![encode_utf8(path@), content@]);
    call_with(func, args)
}

/// Calls a filter with a path.
fn call_filter(func: &mlua::Function, path: &str) -> (r: Result<LuaValue, mlua::Error>)
    ensures
        may_choose(*func, path@, r),
{
    let mut args: Vec<Vec<u8>> = Vec::new();
    args.push(bytes_of(path));
    assert(byte_views(args@) =~= seq![encode_utf8(path@)]);
    call_with(func, args)
}

/// Run a topic rewrite hook: it is called with the path and the content, and its answer is what
/// [`rewritten`] makes of it. The hook runs in the interpreter that it belongs to.
pub fn run_hook(
    _lua: &mlua::Lua,
    topic_name: &str,
    hook_name: &str,
    func: &mlua::Function,
    path: &str,
    content: &[u8],
) -> (r: Result<Vec<u8>, HookError>)
    ensures
        is_hook_run(topic_name@, hook_name@, *func, path@, content@, r),
{
    match call_rewrite(func, path, content) {
        Ok(value) => rewritten(topic_name, hook_name, path, value),
        Err(error) => Err(
            HookError::Failed {
                topic: topic_name.to_owned(),
                hook: hook_name.to_owned(),
                path: path.to_owned(),
                reason: text_of_error(&error),
            },
        ),
    }
}

/// Run a topic `should_include` hook: it is called with the path, and its answer is what
/// [`chosen`] makes of it. The hook runs in the interpreter that it belongs to.
pub fn run_should_include(
    _lua: &mlua::Lua,
    topic_name: &str,
    func: &mlua::Function,
    path: &str,
) -> (r: Result<bool, HookError>)
    ensures
        is_filter_run(topic_name@, *func, path@, r),
{
    match call_filter(func, path) {
        Ok(value) => chosen(topic_name, path, value),
        Err(error) => Err(
            HookError::Failed {
                topic: topic_name.to_owned(),
                hook: "should_include".to_owned(),
                path: path.to_owned(),
                reason: text_of_error(&error),
            },
        ),
    }
}

/// Run the manifest-level `should_include` hook: it is called with the path, and its answer is
/// what [`manifest_chosen`] makes of it.
pub fn run_manifest_should_include(func: &mlua::Function, path: &str) -> (r: Result<
    bool,
    HookError,
>)
    ensures
        is_manifest_filter_run(*func, path@, r),
{
    match call_filter(func, path) {
        Ok(value) => manifest_chosen(path, value),
        Err(error) => Err(
            HookError::ManifestFailed { path: path.to_owned(), reason: text_of_error(&error) },
        ),
    }
}

// ----------------------------------------------------------------------------
// Laws
// ----------------------------------------------------------------------------

/// Whether the only answer that a hook gives to these arguments is this one.
pub open spec fn answers(
    func: mlua::Function,
    args: Seq<Seq<u8>>,
    answer: Result<LuaValue, mlua::Error>,
) -> bool {
    forall|other: Result<LuaValue, mlua::Error>| #[trigger]
        may_answer(func, args, other) ==> other == answer
}

/// A rewriting hook is given the path and the content, in this order, and the string that it
/// answers with becomes the content, byte for byte. No other answer is taken for content.
pub proof fn law_hook_rewrites_content(
    lua: mlua::Lua,
    topic: &str,
    hook: &str,
    func: mlua::Function,
    path: &str,
    content: &[u8],
    answer: Result<LuaValue, mlua::Error>,
    r: Result<Vec<u8>, HookError>,
)
    requires
        answers(func, seq![encode_utf8(path@), content@], answer),
        call_ensures(run_hook, (&lua, topic, hook, &func, path, content), r),
    ensures
        answer is Ok && answer->Ok_0 is Str ==> r is Ok && r->Ok_0@
            == answer->Ok_0->Str_bytes@,
        answer is Ok && !(answer->Ok_0 is Str) ==> r is Err && r->Err_0 is WrongReturn,
        answer is Err ==> r is Err && r->Err_0 is Failed,
{
    assert(is_hook_run(topic@, hook@, func, path@, content@, r));
}

/// A filter is given the path, and the boolean that it answers with is its choice. No other answer
/// is taken for one. The filter of a manifest is heard like that of a topic.
pub proof fn law_filter_chooses(
    lua: mlua::Lua,
    topic: &str,
    func: mlua::Function,
    path: &str,
    answer: Result<LuaValue, mlua::Error>,
    r: Result<bool, HookError>,
    m: Result<bool, HookError>,
)
    requires
        answers(func, seq![encode_utf8(path@)], answer),
        call_ensures(run_should_include, (&lua, topic, &func, path), r),
        call_ensures(run_manifest_should_include, (&func, path), m),
    ensures
        answer is Ok && answer->Ok_0 is Boolean ==> r is Ok && m is Ok && r->Ok_0
            == answer->Ok_0->Boolean_0 && m->Ok_0 == answer->Ok_0->Boolean_0,
        answer is Ok && !(answer->Ok_0 is Boolean) ==> r is Err && r->Err_0 is WrongReturn && m is Err
            && m->Err_0 is ManifestWrongReturn,
        answer is Err ==> r is Err && r->Err_0 is Failed && m is Err && m->Err_0 is ManifestFailed,
{
    assert(is_filter_run(topic@, func, path@, r));
    assert(is_manifest_filter_run(func, path@, m));
}

/// An error of a hook says which hook of which topic it was, and for which path.
pub proof fn law_hook_errors_say_where(
    lua: mlua::Lua,
    topic: &str,
    hook: &str,
    func: mlua::Function,
    path: &str,
    content: &[u8],
    r: Result<Vec<u8>, HookError>,
)
    requires
        call_ensures(run_hook, (&lua, topic, hook, &func, path, content), r),
    ensures
        r matches Err(error) ==> match error {
            HookError::Failed { topic: t, hook: h, path: p, reason } => t@ == topic@ && h@ == hook@
                && p@ == path@,
            HookError::WrongReturn { topic: t, hook: h, path: p, expected, got } => t@ == topic@
                && h@ == hook@ && p@ == path@ && expected@ != got@,
            _ => false,
        },
{
    assert(is_hook_run(topic@, hook@, func, path@, content@, r));
    reveal_strlit("nil");
    reveal_strlit("boolean");
    reveal_strlit("lightuserdata");
    reveal_strlit("integer");
    reveal_strlit("number");
    reveal_strlit("string");
    reveal_strlit("table");
    reveal_strlit("function");
    reveal_strlit("thread");
    reveal_strlit("userdata");
    reveal_strlit("error");
    reveal_strlit("other");
    assert("string"@[0] == 's' && "number"@[0] == 'n' && "thread"@[0] == 't');
    assert("string"@.len() == 6);
}

} // verus!
