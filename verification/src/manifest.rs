//! The manifest: the topics, their paths and their hooks.

use vstd::prelude::*;
use vstd::utf8::encode_utf8;

use crate::bytes::slice_copy;
use crate::engine::capture::{normalize_line_endings, normalized};
use crate::hooks::{
    answers, is_filter_run, is_hook_run, is_manifest_filter_run, run_hook, run_manifest_should_include,
    run_should_include, HookError,
};
use crate::lua::{
    eval, get_field, get_sequence, get_tables, handle_of, have_own_names, is_error_text,
    is_handle_of, take_apart, text_of_error, LuaValue,
};
use crate::order::{in_order, keys, rising, sort, Keyed};
use crate::paths::{
    is_rooted, leads_up, lemma_dots_are_a_part, lemma_slash_is_a_root, may_be_below,
    may_be_rooted, may_have_parts, path_parts, portable, relative_to, starts_at_root, TargetPath,
};
use crate::text::{same, text_before, text_view};

verus! {

/// The topics of a user, with the filter that holds for all of them.
#[derive(Debug)]
pub struct Manifest {
    pub lua: mlua::Lua,
    pub topics: Vec<Topic>,
    pub should_include: Option<mlua::Function>,
}

/// A topic: its paths, relative to its root or to the home directory, and its hooks.
#[derive(Debug)]
pub struct Topic {
    pub name: String,
    pub enabled: bool,
    pub lua: mlua::Lua,
    pub root: Option<String>,
    pub paths: Vec<String>,
    pub to_repo: Option<mlua::Function>,
    pub to_system: Option<mlua::Function>,
    pub should_include: Option<mlua::Function>,
}

impl Keyed for Topic {
    type Key = Seq<char>;

    open spec fn key(&self) -> Seq<char> {
        self.name@
    }

    open spec fn precedes(a: Seq<char>, b: Seq<char>) -> bool {
        text_before(a, b)
    }

    fn is_before(&self, other: &Self) -> (r: bool) {
        crate::text::before(self.name.as_str(), other.name.as_str())
    }

    proof fn total(a: Seq<char>, b: Seq<char>) {
        crate::text::lemma_text_total(a, b);
    }

    proof fn transitive(a: Seq<char>, b: Seq<char>, c: Seq<char>) {
        crate::text::lemma_text_transitive(a, b, c);
    }
}

/// Why a manifest is refused.
#[derive(Debug)]
pub enum ManifestError {
    /// The interpreter failed, for this reason.
    Lua(String),
    NotATable,
    /// The filter of the manifest is no function.
    WrongFilter { got: String },
    MissingPaths,
    PathsNoSequence,
    /// A field of a topic has the wrong kind of value.
    WrongField { topic: String, field: String, expected: String, got: String },
    /// A path is not relative.
    NotRelative { label: String, path: String },
    /// A path leads upwards.
    ParentDir { label: String, path: String },
    /// A root is the home directory itself.
    DotRoot { label: String },
}

impl ManifestError {
    /// The text of the error.
    pub open spec fn text(&self) -> Seq<char> {
        match self {
            ManifestError::Lua(reason) => reason@,
            ManifestError::NotATable => "Manifest must be a table"@,
            ManifestError::WrongFilter { got } =>
                "Manifest field 'should_include' must be a function, got "@ + got@,
            ManifestError::MissingPaths => "Topic must have a 'paths' field"@,
            ManifestError::PathsNoSequence => "'paths' field must be a sequence"@,
            ManifestError::WrongField { topic, field, expected, got } => "Topic '"@ + topic@
                + "' field '"@ + field@ + "' must be a "@ + expected@ + ", got "@ + got@,
            ManifestError::NotRelative { label, path } => label@ + " '"@ + path@
                + "' must be relative"@,
            ManifestError::ParentDir { label, path } => label@ + " '"@ + path@
                + "' contains '..' which is not allowed"@,
            ManifestError::DotRoot { label } => label@ + " may not be '.'"@,
        }
    }

    /// The text of the error.
    pub fn message(&self) -> (r: String)
        ensures
            r@ == self.text(),
    {
        match self {
            ManifestError::Lua(reason) => reason.clone(),
            ManifestError::NotATable => "Manifest must be a table".to_owned(),
            ManifestError::WrongFilter { got } =>
                "Manifest field 'should_include' must be a function, got ".to_owned().concat(
                    got.as_str(),
                ),
            ManifestError::MissingPaths => "Topic must have a 'paths' field".to_owned(),
            ManifestError::PathsNoSequence => "'paths' field must be a sequence".to_owned(),
            ManifestError::WrongField { topic, field, expected, got } =>
                "Topic '".to_owned().concat(topic.as_str()).concat("' field '").concat(
                    field.as_str(),
                ).concat("' must be a ").concat(expected.as_str()).concat(", got ").concat(
                    got.as_str(),
                ),
            ManifestError::NotRelative { label, path } => label.clone().concat(" '").concat(
                path.as_str(),
            ).concat("' must be relative"),
            ManifestError::ParentDir { label, path } => label.clone().concat(" '").concat(
                path.as_str(),
            ).concat("' contains '..' which is not allowed"),
            ManifestError::DotRoot { label } => label.clone().concat(" may not be '.'"),
        }
    }
}

// ----------------------------------------------------------------------------
// Paths
// ----------------------------------------------------------------------------

/// What a path of a topic is for.
#[derive(Debug, Clone, Copy, PartialEq, Eq, Structural)]
pub enum PathKind {
    Root,
    Path,
}

/// Whether a path stays below where it is put: it is relative and does not lead upwards. A root
/// is moreover more than a dot.
pub open spec fn stays_below(rooted: bool, parts: Seq<Seq<char>>, kind: PathKind) -> bool {
    &&& !rooted
    &&& !parts.contains(".."@)
    &&& kind == PathKind::Root ==> parts != seq!["."@]
}

/// Whether `error` says what is wrong with a path.
pub open spec fn is_path_error(
    error: ManifestError,
    path: Seq<char>,
    label: Seq<char>,
    rooted: bool,
    parts: Seq<Seq<char>>,
    kind: PathKind,
) -> bool {
    match error {
        ManifestError::NotRelative { label: l, path: p } => rooted && l@ == label && p@ == path,
        ManifestError::ParentDir { label: l, path: p } => !rooted && parts.contains(".."@) && l@
            == label && p@ == path,
        ManifestError::DotRoot { label: l } => !rooted && kind == PathKind::Root && parts == seq![
            "."@,
        ] && l@ == label,
        _ => false,
    }
}

/// Checks that a path stays below where it is put, by whether it has a root and by its
/// components.
pub fn check_relative(
    path: &str,
    label: &str,
    rooted: bool,
    parts: &TargetPath,
    kind: PathKind,
) -> (r: Result<(), ManifestError>)
    ensures
        match r {
            Ok(()) => stays_below(rooted, parts@, kind),
            Err(error) => !stays_below(rooted, parts@, kind) && is_path_error(
                error,
                path@,
                label@,
                rooted,
                parts@,
                kind,
            ),
        },
{
    if rooted {
        return Err(
            ManifestError::NotRelative { label: label.to_owned(), path: path.to_owned() },
        );
    }
    if parts.has_part("..") {
        return Err(ManifestError::ParentDir { label: label.to_owned(), path: path.to_owned() });
    }
    let is_dot = parts.parts.len() == 1 && same(parts.parts[0].as_str(), ".");
    proof {
        let dot = seq!["."@];
        assert(parts@.len() == parts.parts@.len());
        if parts.parts@.len() == 1 {
            assert(parts@[0] == parts.parts@[0]@);
        }
        if is_dot {
            assert(parts@ =~= dot);
        } else if parts@ == dot {
            assert(parts@.len() == 1 && parts@[0] == "."@);
        }
        assert(is_dot == (parts@ == dot));
    }
    if kind == PathKind::Root && is_dot {
        return Err(ManifestError::DotRoot { label: label.to_owned() });
    }
    Ok(())
}

/// Whether a portable path stays below where it is put.
pub open spec fn is_relative(path: Seq<char>, kind: PathKind) -> bool {
    stays_below(starts_at_root(path), path_parts(path), kind)
}

/// Whether `error` says what is wrong with a portable path.
pub open spec fn is_relative_error(
    error: ManifestError,
    path: Seq<char>,
    label: Seq<char>,
    kind: PathKind,
) -> bool {
    is_path_error(error, path, label, starts_at_root(path), path_parts(path), kind)
}

/// Whether `problem` can be what is wrong with a path, by its root and its components where the
/// program runs.
pub open spec fn may_be_problem(
    path: Seq<char>,
    label: Seq<char>,
    kind: PathKind,
    problem: Option<ManifestError>,
) -> bool {
    exists|rooted: bool, parts: Seq<Seq<char>>| #[trigger]
        may_be_rooted(path, rooted) && #[trigger] may_have_parts(path, parts) && match problem {
            None => stays_below(rooted, parts, kind),
            Some(error) => !stays_below(rooted, parts, kind) && is_path_error(
                error,
                path,
                label,
                rooted,
                parts,
                kind,
            ),
        }
}

/// What is known of a path with which nothing is wrong, wherever the program runs: it does not
/// start with a slash, and does not lead upwards.
proof fn lemma_no_problem(path: Seq<char>, label: Seq<char>, kind: PathKind)
    requires
        may_be_problem(path, label, kind, None),
    ensures
        !starts_at_root(path),
        !leads_up(path),
        portable(path) ==> is_relative(path, kind),
{
    let (rooted, parts) = choose|rooted: bool, parts: Seq<Seq<char>>| #[trigger]
        may_be_rooted(path, rooted) && #[trigger] may_have_parts(path, parts) && stays_below(
            rooted,
            parts,
            kind,
        );
    lemma_slash_is_a_root(path, rooted);
    lemma_dots_are_a_part(path, parts);
}

/// What is known of what is wrong with a portable path.
proof fn lemma_problem(path: Seq<char>, label: Seq<char>, kind: PathKind, error: ManifestError)
    requires
        may_be_problem(path, label, kind, Some(error)),
    ensures
        error is NotRelative || error is ParentDir || error is DotRoot,
        starts_at_root(path) ==> error is NotRelative,
        portable(path) ==> !is_relative(path, kind) && is_relative_error(error, path, label, kind),
{
    let (rooted, parts) = choose|rooted: bool, parts: Seq<Seq<char>>| #[trigger]
        may_be_rooted(path, rooted) && #[trigger] may_have_parts(path, parts) && !stays_below(
            rooted,
            parts,
            kind,
        ) && is_path_error(error, path, label, rooted, parts, kind);
    lemma_slash_is_a_root(path, rooted);
    lemma_dots_are_a_part(path, parts);
}

/// What is wrong, where something is.
pub open spec fn problem_of(r: Result<(), ManifestError>) -> Option<ManifestError> {
    match r {
        Ok(_) => None,
        Err(error) => Some(error),
    }
}

/// Checks that a path stays below where it is put.
pub fn ensure_relative_path(path: &str, label: &str, kind: PathKind) -> (r: Result<
    (),
    ManifestError,
>)
    ensures
        may_be_problem(path@, label@, kind, problem_of(r)),
        portable(path@) ==> match r {
            Ok(()) => is_relative(path@, kind),
            Err(error) => !is_relative(path@, kind) && is_relative_error(
                error,
                path@,
                label@,
                kind,
            ),
        },
        starts_at_root(path@) ==> r is Err && r->Err_0 is NotRelative,
        leads_up(path@) ==> r is Err,
        r matches Err(error) ==> error is NotRelative || error is ParentDir || error is DotRoot,
{
    let rooted = is_rooted(path);
    let parts = TargetPath::from_text(path);
    let r = check_relative(path, label, rooted, &parts, kind);
    proof {
        assert(may_be_rooted(path@, rooted) && may_have_parts(path@, parts@));
        if r is Ok {
            lemma_no_problem(path@, label@, kind);
        } else {
            lemma_problem(path@, label@, kind, r->Err_0);
        }
    }
    r
}

/// The root that a rooted path below the home directory stands for: what it is below it, or none
/// where it is the home directory itself.
pub open spec fn below_home(root: Seq<char>, home: Seq<char>, r: Option<Seq<char>>) -> bool {
    let base = path_parts(home);
    let parts = path_parts(root);
    if starts_at_root(root) && base.is_prefix_of(parts) {
        match r {
            Some(rest) => parts.len() > base.len() && portable(rest) && path_parts(rest)
                == parts.skip(base.len() as int),
            None => parts == base,
        }
    } else {
        r == Some(root)
    }
}

/// Whether `r` can be a root, written relative to the home directory where it is rooted and below
/// it where the program runs; none where it is the home directory itself.
pub open spec fn may_be_normalized(
    root: Seq<char>,
    home: Seq<char>,
    r: Option<Seq<char>>,
) -> bool {
    ||| may_be_rooted(root, false) && r == Some(root)
    ||| may_be_rooted(root, true) && exists|rest: Option<Seq<char>>| #[trigger]
        may_be_below(root, home, rest) && r == match rest {
            None => Some(root),
            Some(rest) => if rest.len() == 0 {
                None
            } else {
                Some(rest)
            },
        }
}

/// If `root` is an absolute/rooted path under `home`, normalize it to relative.
pub fn normalize_root_under_home(root: Option<String>, home: Option<&str>) -> (r: Option<String>)
    ensures
        root is None ==> r is None,
        home is None ==> r == root,
        root is Some && home is Some ==> may_be_normalized(
            root->Some_0@,
            home->Some_0@,
            text_view(r),
        ),
        root is Some && home is Some && portable(root->Some_0@) && portable(home->Some_0@)
            ==> below_home(root->Some_0@, home->Some_0@, text_view(r)),
        root is Some && root->Some_0@.len() > 0 && r is Some ==> r->Some_0@.len() > 0,
{
    let text = match root {
        Some(text) => text,
        None => {
            return None;
        },
    };
    let home_dir = match home {
        Some(home_dir) => home_dir,
        None => {
            return Some(text);
        },
    };
    if !is_rooted(text.as_str()) {
        return Some(text);
    }
    let below = relative_to(text.as_str(), home_dir);
    assert(may_be_below(text@, home_dir@, text_view(below)));
    match below {
        Some(rest) => {
            proof {
                let base = path_parts(home_dir@);
                let parts = path_parts(text@);
                if portable(text@) && portable(home_dir@) {
                    assert(base =~= parts.take(base.len() as int));
                    assert(path_parts(rest@) =~= parts.skip(base.len() as int));
                    if rest@.len() == 0 {
                        assert(parts =~= base);
                    }
                }
            }
            if rest.as_str().is_empty() {
                None
            } else {
                Some(rest)
            }
        },
        None => Some(text),
    }
}

// ----------------------------------------------------------------------------
// Fields
// ----------------------------------------------------------------------------

/// A field of the table of a topic.
#[derive(Debug)]
pub struct Field {
    pub key: String,
    pub value: LuaValue,
}

/// The value of the first field of this name.
pub open spec fn field_of(fields: Seq<Field>, key: Seq<char>) -> Option<LuaValue>
    decreases fields.len(),
{
    if fields.len() == 0 {
        None
    } else if fields[0].key@ == key {
        Some(fields[0].value)
    } else {
        field_of(fields.skip(1), key)
    }
}

proof fn lemma_field_at(fields: Seq<Field>, i: int)
    requires
        0 <= i < fields.len(),
        forall|k: int| 0 <= k < i ==> (#[trigger] fields[k]).key@ != fields[i].key@,
    ensures
        field_of(fields, fields[i].key@) == Some(fields[i].value),
    decreases fields.len(),
{
    if i > 0 {
        assert(fields[0].key@ != fields[i].key@);
        let rest = fields.skip(1);
        assert forall|k: int| 0 <= k < i - 1 implies (#[trigger] rest[k]).key@ != rest[i
            - 1].key@ by {
            assert(rest[k] == fields[k + 1]);
        }
        lemma_field_at(rest, i - 1);
    }
}

proof fn lemma_no_field(fields: Seq<Field>, key: Seq<char>)
    requires
        forall|k: int| 0 <= k < fields.len() ==> (#[trigger] fields[k]).key@ != key,
    ensures
        field_of(fields, key) is None,
    decreases fields.len(),
{
    if fields.len() > 0 {
        let rest = fields.skip(1);
        assert forall|k: int| 0 <= k < rest.len() implies (#[trigger] rest[k]).key@ != key by {
            assert(rest[k] == fields[k + 1]);
        }
        assert(fields[0].key@ != key);
        lemma_no_field(rest, key);
    }
}

proof fn lemma_other_field(fields: Seq<Field>, i: int, key: Seq<char>)
    requires
        0 <= i < fields.len(),
        fields[i].key@ != key,
    ensures
        field_of(fields.remove(i), key) == field_of(fields, key),
    decreases fields.len(),
{
    let less = fields.remove(i);
    if i == 0 {
        assert(less =~= fields.skip(1));
    } else {
        assert(less[0] == fields[0]);
        assert(less.skip(1) =~= fields.skip(1).remove(i - 1));
        lemma_other_field(fields.skip(1), i - 1, key);
    }
}

/// Takes the first field of this name out of the fields.
fn take_field(fields: &mut Vec<Field>, key: &str) -> (r: Option<LuaValue>)
    ensures
        r == field_of(old(fields)@, key@),
        forall|other: Seq<char>|
            other != key@ ==> #[trigger] field_of(final(fields)@, other) == field_of(
                old(fields)@,
                other,
            ),
{
    let ghost before = fields@;
    let mut i: usize = 0;
    while i < fields.len()
        invariant
            fields@ == before,
            before == old(fields)@,
            i <= before.len(),
            forall|k: int| 0 <= k < i ==> (#[trigger] before[k]).key@ != key@,
        decreases before.len() - i,
    {
        if same(fields[i].key.as_str(), key) {
            proof {
                lemma_field_at(before, i as int);
                assert forall|other: Seq<char>| other != key@ implies #[trigger] field_of(
                    before.remove(i as int),
                    other,
                ) == field_of(before, other) by {
                    lemma_other_field(before, i as int, other);
                }
            }
            let field = fields.remove(i);
            return Some(field.value);
        }
        i = i + 1;
    }
    proof {
        lemma_no_field(before, key@);
    }
    None
}

/// Whether the value of a field can be a root.
pub open spec fn root_fits(value: Option<LuaValue>) -> bool {
    value is None || value->Some_0 is Nil || value->Some_0 is Str
}

/// The root that a value stands for: a string that is not empty.
pub open spec fn root_text(value: Option<LuaValue>) -> Option<Seq<char>> {
    match value {
        Some(LuaValue::Str { bytes, text }) => if text@.len() == 0 {
            None
        } else {
            Some(text@)
        },
        _ => None,
    }
}

/// Whether the value of a field can be a hook.
pub open spec fn hook_fits(value: Option<LuaValue>) -> bool {
    value is None || value->Some_0 is Nil || value->Some_0 is Function
}

/// The hook that a value stands for.
pub open spec fn hook_of(value: Option<LuaValue>) -> Option<mlua::Function> {
    match value {
        Some(LuaValue::Function(func)) => Some(func),
        _ => None,
    }
}

/// Whether the value of a field can say whether a topic is enabled.
pub open spec fn enabled_fits(value: Option<LuaValue>) -> bool {
    value is None || value->Some_0 is Nil || value->Some_0 is Boolean
}

/// Whether a topic is enabled, which it is unless it says otherwise.
pub open spec fn enabled_of(value: Option<LuaValue>) -> bool {
    match value {
        Some(LuaValue::Boolean(enabled)) => enabled,
        _ => true,
    }
}

/// The first field of a topic that has the wrong kind of value: its name, and the kind that it
/// must have.
pub open spec fn first_wrong(fields: Seq<Field>) -> Option<(Seq<char>, Seq<char>)> {
    if !root_fits(field_of(fields, "root"@)) {
        Some(("root"@, "string"@))
    } else if !hook_fits(field_of(fields, "to_repo"@)) {
        Some(("to_repo"@, "function"@))
    } else if !hook_fits(field_of(fields, "to_system"@)) {
        Some(("to_system"@, "function"@))
    } else if !enabled_fits(field_of(fields, "enabled"@)) {
        Some(("enabled"@, "boolean"@))
    } else if !hook_fits(field_of(fields, "should_include"@)) {
        Some(("should_include"@, "function"@))
    } else {
        None
    }
}

/// Whether `error` says that a field of a topic has a value of the wrong kind.
pub open spec fn is_wrong_field(
    error: ManifestError,
    topic: Seq<char>,
    field: Seq<char>,
    expected: Seq<char>,
    value: LuaValue,
) -> bool {
    error matches ManifestError::WrongField { topic: t, field: f, expected: e, got } && t@ == topic
        && f@ == field && e@ == expected && got@ == value.kind_text()
}

fn wrong_field(topic: &str, field: &str, expected: &str, value: &LuaValue) -> (r: ManifestError)
    ensures
        is_wrong_field(r, topic@, field@, expected@, *value),
{
    ManifestError::WrongField {
        topic: topic.to_owned(),
        field: field.to_owned(),
        expected: expected.to_owned(),
        got: value.kind_name().to_owned(),
    }
}

fn read_root(topic: &str, value: Option<LuaValue>) -> (r: Result<Option<String>, ManifestError>)
    ensures
        match r {
            Ok(root) => root_fits(value) && match root {
                Some(text) => root_text(value) == Some(text@),
                None => root_text(value) is None,
            },
            Err(error) => !root_fits(value) && is_wrong_field(
                error,
                topic@,
                "root"@,
                "string"@,
                value->Some_0,
            ),
        },
{
    match value {
        Some(LuaValue::Str { bytes: _, text }) => {
            if text.as_str().is_empty() {
                Ok(None)
            } else {
                Ok(Some(text))
            }
        },
        Some(LuaValue::Nil) | None => Ok(None),
        Some(other) => Err(wrong_field(topic, "root", "string", &other)),
    }
}

fn read_hook(topic: &str, field: &str, value: Option<LuaValue>) -> (r: Result<
    Option<mlua::Function>,
    ManifestError,
>)
    ensures
        match r {
            Ok(hook) => hook_fits(value) && hook == hook_of(value),
            Err(error) => !hook_fits(value) && is_wrong_field(
                error,
                topic@,
                field@,
                "function"@,
                value->Some_0,
            ),
        },
{
    match value {
        Some(LuaValue::Function(func)) => Ok(Some(func)),
        Some(LuaValue::Nil) | None => Ok(None),
        Some(other) => Err(wrong_field(topic, field, "function", &other)),
    }
}

fn read_enabled(topic: &str, value: Option<LuaValue>) -> (r: Result<bool, ManifestError>)
    ensures
        match r {
            Ok(enabled) => enabled_fits(value) && enabled == enabled_of(value),
            Err(error) => !enabled_fits(value) && is_wrong_field(
                error,
                topic@,
                "enabled"@,
                "boolean"@,
                value->Some_0,
            ),
        },
{
    match value {
        Some(LuaValue::Boolean(enabled)) => Ok(enabled),
        Some(LuaValue::Nil) | None => Ok(true),
        Some(other) => Err(wrong_field(topic, "enabled", "boolean", &other)),
    }
}

/// Whether `root` is the root of a topic whose field stands for `text`: below the home directory
/// it is written relative to it.
pub open spec fn is_root_of(
    root: Option<String>,
    text: Option<Seq<char>>,
    home: Option<&str>,
) -> bool {
    match (text, home) {
        (None, _) => root is None,
        (Some(text), None) => text_view(root) == Some(text),
        (Some(text), Some(home)) => {
            &&& may_be_normalized(text, home@, text_view(root))
            &&& portable(text) && portable(home@) ==> below_home(text, home@, text_view(root))
            &&& root is Some ==> root->Some_0@.len() > 0
        },
    }
}

/// Whether `r` is what the paths and the other fields of a topic come to.
pub open spec fn is_made_topic(
    lua: mlua::Lua,
    name: Seq<char>,
    paths: Seq<String>,
    fields: Seq<Field>,
    home: Option<&str>,
    r: Result<Topic, ManifestError>,
) -> bool {
    match r {
        Ok(topic) => {
            &&& first_wrong(fields) is None
            &&& topic.name@ == name
            &&& is_handle_of(topic.lua, lua)
            &&& topic.paths@ == paths
            &&& topic.enabled == enabled_of(field_of(fields, "enabled"@))
            &&& is_root_of(topic.root, root_text(field_of(fields, "root"@)), home)
            &&& topic.to_repo == hook_of(field_of(fields, "to_repo"@))
            &&& topic.to_system == hook_of(field_of(fields, "to_system"@))
            &&& topic.should_include == hook_of(field_of(fields, "should_include"@))
        },
        Err(error) => {
            &&& first_wrong(fields) is Some
            &&& is_wrong_field(
                error,
                name,
                first_wrong(fields)->Some_0.0,
                first_wrong(fields)->Some_0.1,
                field_of(fields, first_wrong(fields)->Some_0.0)->Some_0,
            )
        },
    }
}

/// Makes a topic of its paths and its other fields.
pub fn make_topic(
    lua: &mlua::Lua,
    name: &str,
    paths: Vec<String>,
    fields: Vec<Field>,
    home: Option<&str>,
) -> (r: Result<Topic, ManifestError>)
    ensures
        is_made_topic(*lua, name@, paths@, fields@, home, r),
{
    proof {
        reveal_strlit("root");
        reveal_strlit("to_repo");
        reveal_strlit("to_system");
        reveal_strlit("enabled");
        reveal_strlit("should_include");
        assert("root"@.len() == 4 && "to_repo"@.len() == 7 && "to_system"@.len() == 9
            && "enabled"@.len() == 7 && "should_include"@.len() == 14);
        assert("to_repo"@[0] == 't' && "enabled"@[0] == 'e');
    }
    let ghost all = fields@;
    let mut rest = fields;
    let root = match read_root(name, take_field(&mut rest, "root")) {
        Ok(root) => root,
        Err(error) => {
            return Err(error);
        },
    };
    let root = normalize_root_under_home(root, home);
    let to_repo = match read_hook(name, "to_repo", take_field(&mut rest, "to_repo")) {
        Ok(hook) => hook,
        Err(error) => {
            return Err(error);
        },
    };
    let to_system = match read_hook(name, "to_system", take_field(&mut rest, "to_system")) {
        Ok(hook) => hook,
        Err(error) => {
            return Err(error);
        },
    };
    let enabled = match read_enabled(name, take_field(&mut rest, "enabled")) {
        Ok(enabled) => enabled,
        Err(error) => {
            return Err(error);
        },
    };
    let should_include = match read_hook(
        name,
        "should_include",
        take_field(&mut rest, "should_include"),
    ) {
        Ok(hook) => hook,
        Err(error) => {
            return Err(error);
        },
    };
    Ok(
        Topic {
            name: name.to_owned(),
            enabled,
            lua: handle_of(lua),
            root,
            paths,
            to_repo,
            to_system,
            should_include,
        },
    )
}

// ----------------------------------------------------------------------------
// Topics
// ----------------------------------------------------------------------------

/// Whether the root and the paths of a topic mean the same on every platform.
pub open spec fn is_portable_topic(topic: Topic) -> bool {
    &&& topic.root matches Some(root) ==> portable(root@)
    &&& forall|i: int| 0 <= i < topic.paths@.len() ==> portable((#[trigger] topic.paths@[i])@)
}

/// Whether the root of a topic stays below the home directory.
pub open spec fn root_is_valid(topic: Topic) -> bool {
    topic.root matches Some(root) ==> is_relative(root@, PathKind::Root)
}

/// Whether the path of a topic at `i` stays below its root.
pub open spec fn path_is_valid(topic: Topic, i: int) -> bool {
    is_relative(topic.paths@[i]@, PathKind::Path)
}

/// Whether a topic stays below its root, and its root below the home directory.
pub open spec fn is_valid_topic(topic: Topic) -> bool {
    root_is_valid(topic) && forall|i: int|
        0 <= i < topic.paths@.len() ==> #[trigger] path_is_valid(topic, i)
}

/// Whether `error` says what is wrong with a topic: its root, or else the first path that leaves
/// it.
pub open spec fn is_topic_error(topic: Topic, error: ManifestError) -> bool {
    if !root_is_valid(topic) {
        is_relative_error(
            error,
            topic.root->Some_0@,
            "Topic '"@ + topic.name@ + "' root"@,
            PathKind::Root,
        )
    } else {
        exists|i: int|
            0 <= i < topic.paths@.len() && !#[trigger] path_is_valid(topic, i)
                && is_relative_error(
                error,
                topic.paths@[i]@,
                "Topic '"@ + topic.name@ + "' path"@,
                PathKind::Path,
            ) && forall|k: int| 0 <= k < i ==> #[trigger] path_is_valid(topic, k)
    }
}

/// What the root of a topic is called where it is refused.
pub open spec fn root_label(topic: Topic) -> Seq<char> {
    "Topic '"@ + topic.name@ + "' root"@
}

/// What a path of a topic is called where it is refused.
pub open spec fn path_label(topic: Topic) -> Seq<char> {
    "Topic '"@ + topic.name@ + "' path"@
}

/// Whether nothing can be wrong with the root of a topic, where the program runs.
pub open spec fn root_may_pass(topic: Topic) -> bool {
    topic.root matches Some(root) ==> may_be_problem(
        root@,
        root_label(topic),
        PathKind::Root,
        None,
    )
}

/// Whether nothing can be wrong with the path of a topic at `i`, where the program runs.
pub open spec fn path_may_pass(topic: Topic, i: int) -> bool {
    may_be_problem(topic.paths@[i]@, path_label(topic), PathKind::Path, None)
}

/// Whether this can be wrong with the path of a topic at `i`, where the program runs.
pub open spec fn path_may_fail(topic: Topic, i: int, error: ManifestError) -> bool {
    may_be_problem(topic.paths@[i]@, path_label(topic), PathKind::Path, Some(error))
}

/// Whether a topic can be accepted, where the program runs.
pub open spec fn may_pass(topic: Topic) -> bool {
    root_may_pass(topic) && forall|i: int|
        0 <= i < topic.paths@.len() ==> #[trigger] path_may_pass(topic, i)
}

/// Whether a topic can be refused with this error, where the program runs: for its root, or else
/// for the first path that is.
pub open spec fn may_be_refused(topic: Topic, error: ManifestError) -> bool {
    ||| topic.root is Some && may_be_problem(
        topic.root->Some_0@,
        root_label(topic),
        PathKind::Root,
        Some(error),
    )
    ||| root_may_pass(topic) && exists|i: int|
        0 <= i < topic.paths@.len() && #[trigger] path_may_fail(topic, i, error) && forall|k: int|
            0 <= k < i ==> #[trigger] path_may_pass(topic, k)
}

/// Whether a path stays below where it is put, as far as that can be told without knowing where
/// the program runs: it neither starts with a slash nor leads upwards, and where it means the same
/// on every platform, it stays there.
pub open spec fn keeps_inside(path: Seq<char>, kind: PathKind) -> bool {
    &&& !starts_at_root(path)
    &&& !leads_up(path)
    &&& portable(path) ==> is_relative(path, kind)
}

/// Whether each path of a topic stays below its root, and its root below the home directory, as
/// far as that can be told without knowing where the program runs.
pub open spec fn is_accepted(topic: Topic) -> bool {
    &&& topic.root matches Some(root) ==> keeps_inside(root@, PathKind::Root)
    &&& forall|i: int|
        0 <= i < topic.paths@.len() ==> keeps_inside(
            (#[trigger] topic.paths@[i])@,
            PathKind::Path,
        )
}

proof fn lemma_accepted(topic: Topic)
    requires
        may_pass(topic),
    ensures
        is_accepted(topic),
        is_portable_topic(topic) ==> is_valid_topic(topic),
{
    if let Some(root) = topic.root {
        lemma_no_problem(root@, root_label(topic), PathKind::Root);
    }
    assert forall|i: int| 0 <= i < topic.paths@.len() implies keeps_inside(
        (#[trigger] topic.paths@[i])@,
        PathKind::Path,
    ) by {
        assert(path_may_pass(topic, i));
        lemma_no_problem(topic.paths@[i]@, path_label(topic), PathKind::Path);
    }
}

impl Topic {
    /// Checks that the topic stays below its root, and its root below the home directory.
    pub fn validate(&self) -> (r: Result<(), ManifestError>)
        ensures
            match r {
                Ok(()) => may_pass(*self) && is_accepted(*self),
                Err(error) => may_be_refused(*self, error),
            },
            is_portable_topic(*self) ==> match r {
                Ok(()) => is_valid_topic(*self),
                Err(error) => !is_valid_topic(*self) && is_topic_error(*self, error),
            },
            r matches Err(error) ==> error is NotRelative || error is ParentDir || error is DotRoot,
    {
        if let Some(root) = &self.root {
            let label = "Topic '".to_owned().concat(self.name.as_str()).concat("' root");
            match ensure_relative_path(root.as_str(), label.as_str(), PathKind::Root) {
                Ok(()) => {},
                Err(error) => {
                    return Err(error);
                },
            }
        }
        for i in 0..self.paths.len()
            invariant
                root_may_pass(*self),
                forall|k: int| 0 <= k < i ==> #[trigger] path_may_pass(*self, k),
                is_portable_topic(*self) ==> root_is_valid(*self),
                is_portable_topic(*self) ==> forall|k: int|
                    0 <= k < i ==> #[trigger] path_is_valid(*self, k),
        {
            let label = "Topic '".to_owned().concat(self.name.as_str()).concat("' path");
            let path = self.paths[i].as_str();
            assert(path@ == self.paths@[i as int]@);
            match ensure_relative_path(path, label.as_str(), PathKind::Path) {
                Ok(()) => {
                    assert(path_may_pass(*self, i as int));
                    assert(is_portable_topic(*self) ==> path_is_valid(*self, i as int));
                },
                Err(error) => {
                    assert(path_may_fail(*self, i as int, error));
                    assert(is_portable_topic(*self) ==> !path_is_valid(*self, i as int));
                    return Err(error);
                },
            }
        }
        proof {
            lemma_accepted(*self);
        }
        Ok(())
    }

    /// Run the `to_repo` hook, returning transformed content.
    pub fn to_repo(&self, path: &str, content: &[u8]) -> (r: Result<Vec<u8>, HookError>)
        ensures
            is_repo_content(*self, path@, content@, r),
    {
        match &self.to_repo {
            Some(func) => run_hook(&self.lua, self.name.as_str(), "to_repo", func, path, content),
            None => Ok(slice_copy(content)),
        }
    }

    /// Run the `to_system` hook, returning transformed content.
    pub fn to_system(&self, path: &str, content: &[u8]) -> (r: Result<Vec<u8>, HookError>)
        ensures
            is_system_content(*self, path@, content@, r),
    {
        match &self.to_system {
            Some(func) => run_hook(&self.lua, self.name.as_str(), "to_system", func, path, content),
            None => Ok(slice_copy(content)),
        }
    }

    /// Run the `should_include` hook, returning whether a path should be included.
    pub fn should_include(&self, path: &str) -> (r: Result<bool, HookError>)
        ensures
            self.should_include is None ==> r == Ok::<bool, HookError>(true),
            self.should_include is Some ==> is_filter_result(
                *self,
                self.should_include->Some_0,
                path@,
                r,
            ),
    {
        match &self.should_include {
            Some(func) => run_should_include(&self.lua, self.name.as_str(), func, path),
            None => Ok(true),
        }
    }
}

/// Whether `r` can come of a rewriting hook of a topic.
pub open spec fn is_hook_result(
    topic: Topic,
    func: mlua::Function,
    hook: Seq<char>,
    path: Seq<char>,
    content: Seq<u8>,
    r: Result<Vec<u8>, HookError>,
) -> bool {
    is_hook_run(topic.name@, hook, func, path, content, r)
}

/// Whether `r` can come of the filter of a topic.
pub open spec fn is_filter_result(
    topic: Topic,
    func: mlua::Function,
    path: Seq<char>,
    r: Result<bool, HookError>,
) -> bool {
    is_filter_run(topic.name@, func, path, r)
}

/// Whether `r` can come of the filter of a manifest.
pub open spec fn is_manifest_filter_result(
    manifest: Manifest,
    func: mlua::Function,
    path: Seq<char>,
    r: Result<bool, HookError>,
) -> bool {
    is_manifest_filter_run(func, path, r)
}

// ----------------------------------------------------------------------------
// Manifests
// ----------------------------------------------------------------------------

/// Whether every topic of a list means the same on every platform.
pub open spec fn are_portable_topics(topics: Seq<Topic>) -> bool {
    forall|i: int| 0 <= i < topics.len() ==> is_portable_topic(#[trigger] topics[i])
}

/// Whether `sorted` are these topics, in the order of their names.
pub open spec fn are_sorted_topics(sorted: Seq<Topic>, topics: Seq<Topic>) -> bool {
    &&& in_order(sorted)
    &&& sorted.to_multiset() == topics.to_multiset()
    &&& keys(sorted).to_multiset() == keys(topics).to_multiset()
}

/// Whether the topic at `i` is the first that can be refused, with this error.
pub open spec fn is_first_refused(sorted: Seq<Topic>, i: int, error: ManifestError) -> bool {
    &&& 0 <= i < sorted.len()
    &&& may_be_refused(sorted[i], error)
    &&& forall|k: int| 0 <= k < i ==> may_pass(#[trigger] sorted[k])
}

/// Whether `r` is the manifest of these topics, or says which of them is not valid: the first, in
/// the order of their names.
pub open spec fn is_manifest_of(
    lua: mlua::Lua,
    topics: Seq<Topic>,
    should_include: Option<mlua::Function>,
    r: Result<Manifest, ManifestError>,
) -> bool {
    match r {
        Ok(manifest) => {
            &&& manifest.is_well_formed()
            &&& are_sorted_topics(manifest.topics@, topics)
            &&& forall|i: int|
                0 <= i < manifest.topics@.len() ==> may_pass(#[trigger] manifest.topics@[i])
            &&& manifest.should_include == should_include
            &&& manifest.lua == lua
        },
        Err(error) => {
            &&& exists|sorted: Seq<Topic>, i: int|
                are_sorted_topics(sorted, topics) && #[trigger] is_first_refused(sorted, i, error)
            &&& are_portable_topics(topics) ==> exists|sorted: Seq<Topic>, i: int|
                in_order(sorted) && sorted.to_multiset() == topics.to_multiset() && 0 <= i
                    < sorted.len() && !is_valid_topic(#[trigger] sorted[i]) && is_topic_error(
                    sorted[i],
                    error,
                ) && forall|k: int| 0 <= k < i ==> is_valid_topic(#[trigger] sorted[k])
        },
    }
}

impl Manifest {
    /// Run the manifest-level `should_include` hook, returning whether a path should be included.
    pub fn should_include(&self, path: &str) -> (r: Result<bool, HookError>)
        ensures
            self.should_include is None ==> r == Ok::<bool, HookError>(true),
            self.should_include is Some ==> is_manifest_filter_result(
                *self,
                self.should_include->Some_0,
                path@,
                r,
            ),
    {
        match &self.should_include {
            Some(func) => run_manifest_should_include(func, path),
            None => Ok(true),
        }
    }

    /// Makes a manifest of its topics, in the order of their names, where all of them are valid.
    pub fn from_topics(
        lua: mlua::Lua,
        topics: Vec<Topic>,
        should_include: Option<mlua::Function>,
    ) -> (r: Result<Manifest, ManifestError>)
        ensures
            is_manifest_of(lua, topics@, should_include, r),
    {
        let ghost given = topics@;
        let sorted = sort(topics);
        proof {
            lemma_portable_sorted(given, sorted@);
        }
        for i in 0..sorted.len()
            invariant
                given == topics@,
                are_sorted_topics(sorted@, given),
                are_portable_topics(given) ==> are_portable_topics(sorted@),
                forall|k: int|
                    0 <= k < i ==> may_pass(#[trigger] sorted@[k]) && is_accepted(sorted@[k]),
        {
            match sorted[i].validate() {
                Ok(()) => {},
                Err(error) => {
                    assert(is_first_refused(sorted@, i as int, error));
                    assert(are_portable_topics(given) ==> is_portable_topic(sorted@[i as int]));
                    return Err(error);
                },
            }
        }
        Ok(Manifest { lua, topics: sorted, should_include })
    }
}

proof fn lemma_portable_sorted(given: Seq<Topic>, sorted: Seq<Topic>)
    requires
        sorted.to_multiset() == given.to_multiset(),
    ensures
        are_portable_topics(given) ==> are_portable_topics(sorted),
{
    broadcast use vstd::seq_lib::group_to_multiset_ensures;

    if are_portable_topics(given) {
        assert forall|i: int| 0 <= i < sorted.len() implies is_portable_topic(
            #[trigger] sorted[i],
        ) by {
            assert(sorted.contains(sorted[i]));
            assert(sorted.to_multiset().count(sorted[i]) > 0);
            assert(given.contains(sorted[i]));
        }
    }
}

/// The filter that the value of the manifest's field stands for.
pub fn read_filter(value: LuaValue) -> (r: Result<Option<mlua::Function>, ManifestError>)
    ensures
        match value {
            LuaValue::Function(func) => r == Ok::<Option<mlua::Function>, ManifestError>(
                Some(func),
            ),
            LuaValue::Nil => r == Ok::<Option<mlua::Function>, ManifestError>(None),
            _ => r matches Err(error) && error matches ManifestError::WrongFilter { got } && got@
                == value.kind_text(),
        },
{
    match value {
        LuaValue::Function(func) => Ok(Some(func)),
        LuaValue::Nil => Ok(None),
        other => Err(ManifestError::WrongFilter { got: other.kind_name().to_owned() }),
    }
}

/// The table that holds the paths of a topic.
pub fn paths_table(value: Option<LuaValue>) -> (r: Result<mlua::Table, ManifestError>)
    ensures
        match value {
            Some(LuaValue::Table(table)) => r == Ok::<mlua::Table, ManifestError>(table),
            Some(_) => r == Err::<mlua::Table, ManifestError>(ManifestError::PathsNoSequence),
            None => r == Err::<mlua::Table, ManifestError>(ManifestError::MissingPaths),
        },
{
    match value {
        Some(LuaValue::Table(table)) => Ok(table),
        Some(_) => Err(ManifestError::PathsNoSequence),
        None => Err(ManifestError::MissingPaths),
    }
}

/// The table that a manifest is.
pub fn manifest_table(value: LuaValue) -> (r: Result<mlua::Table, ManifestError>)
    ensures
        match value {
            LuaValue::Table(table) => r == Ok::<mlua::Table, ManifestError>(table),
            _ => r == Err::<mlua::Table, ManifestError>(ManifestError::NotATable),
        },
{
    match value {
        LuaValue::Table(table) => Ok(table),
        _ => Err(ManifestError::NotATable),
    }
}

/// Whether `problem` tells of an error of the interpreter.
pub open spec fn tells_of(problem: ManifestError, error: mlua::Error) -> bool {
    problem is Lua && is_error_text(error, problem->Lua_0@)
}

fn lua_error(error: mlua::Error) -> (r: ManifestError)
    ensures
        tells_of(r, error),
{
    ManifestError::Lua(text_of_error(&error))
}

/// Whether `fields` can be the fields of the table of a topic, taken apart.
pub closed spec fn are_fields(raw: Seq<(String, mlua::Value)>, fields: Seq<Field>) -> bool {
    fields.len() == raw.len() && forall|i: int|
        0 <= i < fields.len() ==> (#[trigger] fields[i]).key == raw[i].0 && call_ensures(
            take_apart,
            (raw[i].1,),
            fields[i].value,
        )
}

/// Takes the fields of a topic apart.
fn read_fields(raw: Vec<(String, mlua::Value)>) -> (r: Vec<Field>)
    ensures
        are_fields(raw@, r@),
{
    let mut fields: Vec<Field> = Vec::new();
    let mut rest = raw;
    let ghost all = raw@;
    while rest.len() > 0
        invariant
            fields@.len() + rest@.len() == all.len(),
            forall|i: int|
                0 <= i < fields@.len() ==> (#[trigger] fields@[i]).key == all[i].0 && call_ensures(
                    take_apart,
                    (all[i].1,),
                    fields@[i].value,
                ),
            forall|i: int| 0 <= i < rest@.len() ==> #[trigger] rest@[i] == all[fields@.len() + i],
        decreases rest.len(),
    {
        assert(rest@[0] == all[fields@.len() as int]);
        let (key, value) = rest.remove(0);
        fields.push(Field { key, value: take_apart(value) });
    }
    fields
}

/// Whether `r` is what the fields of the table of a topic come to.
pub closed spec fn is_read_topic(
    lua: mlua::Lua,
    name: Seq<char>,
    fields: Seq<Field>,
    home: Option<&str>,
    r: Result<Topic, ManifestError>,
) -> bool {
    match field_of(fields, "paths"@) {
        None => r == Err::<Topic, ManifestError>(ManifestError::MissingPaths),
        Some(LuaValue::Table(table)) => exists|paths: Result<Vec<String>, mlua::Error>| #[trigger]
            call_ensures(get_sequence, (&table,), paths) && match paths {
                Ok(paths) => is_made_topic(lua, name, paths@, fields, home, r),
                Err(error) => r is Err && tells_of(r->Err_0, error),
            },
        Some(_) => r == Err::<Topic, ManifestError>(ManifestError::PathsNoSequence),
    }
}

/// Makes a topic of the fields of its table.
fn read_topic(lua: &mlua::Lua, name: &str, fields: Vec<Field>, home: Option<&str>) -> (r: Result<
    Topic,
    ManifestError,
>)
    ensures
        is_read_topic(*lua, name@, fields@, home, r),
{
    proof {
        reveal_strlit("paths");
        reveal_strlit("root");
        reveal_strlit("to_repo");
        reveal_strlit("to_system");
        reveal_strlit("enabled");
        reveal_strlit("should_include");
        assert("paths"@.len() == 5 && "root"@.len() == 4 && "to_repo"@.len() == 7
            && "to_system"@.len() == 9 && "enabled"@.len() == 7 && "should_include"@.len() == 14);
    }
    let ghost all = fields@;
    let mut rest = fields;
    let table = match paths_table(take_field(&mut rest, "paths")) {
        Ok(table) => table,
        Err(error) => {
            return Err(error);
        },
    };
    proof {
        assert(field_of(rest@, "root"@) == field_of(all, "root"@));
        assert(field_of(rest@, "to_repo"@) == field_of(all, "to_repo"@));
        assert(field_of(rest@, "to_system"@) == field_of(all, "to_system"@));
        assert(field_of(rest@, "enabled"@) == field_of(all, "enabled"@));
        assert(field_of(rest@, "should_include"@) == field_of(all, "should_include"@));
        assert(first_wrong(rest@) == first_wrong(all));
    }
    match get_sequence(&table) {
        Ok(paths) => make_topic(lua, name, paths, rest, home),
        Err(error) => Err(lua_error(error)),
    }
}

/// Whether `topics` can be the topics of the first tables of a list.
pub closed spec fn are_read_topics(
    lua: mlua::Lua,
    tables: Seq<(String, Vec<(String, mlua::Value)>)>,
    home: Option<&str>,
    topics: Seq<Topic>,
) -> bool {
    topics.len() <= tables.len() && forall|i: int|
        0 <= i < topics.len() ==> is_topic_of_table(
            lua,
            tables[i],
            home,
            Ok::<Topic, ManifestError>(#[trigger] topics[i]),
        )
}

/// Whether `r` can be what the table of a topic comes to.
pub closed spec fn is_topic_of_table(
    lua: mlua::Lua,
    table: (String, Vec<(String, mlua::Value)>),
    home: Option<&str>,
    r: Result<Topic, ManifestError>,
) -> bool {
    exists|fields: Seq<Field>| #[trigger]
        are_fields(table.1@, fields) && is_read_topic(lua, table.0@, fields, home, r)
}

/// Whether `r` can be what the tables of all topics come to: the manifest of their topics, or the
/// error of the first that is no topic.
pub closed spec fn is_manifest_of_tables(
    lua: mlua::Lua,
    tables: Seq<(String, Vec<(String, mlua::Value)>)>,
    should_include: Option<mlua::Function>,
    home: Option<&str>,
    r: Result<Manifest, ManifestError>,
) -> bool {
    exists|topics: Seq<Topic>| #[trigger]
        are_read_topics(lua, tables, home, topics) && if topics.len() == tables.len() {
            is_manifest_of(lua, topics, should_include, r)
        } else {
            r is Err && is_topic_of_table(
                lua,
                tables[topics.len() as int],
                home,
                Err::<Topic, ManifestError>(r->Err_0),
            )
        }
}

/// Whether `r` can be what the table of a manifest comes to: its filter, then its topics.
pub closed spec fn is_manifest_of_table(
    lua: mlua::Lua,
    table: mlua::Table,
    home: Option<&str>,
    r: Result<Manifest, ManifestError>,
) -> bool {
    exists|field: &str, value: Result<mlua::Value, mlua::Error>|
        field@ == "should_include"@ && #[trigger] call_ensures(get_field, (&table, field), value)
            && match value {
            Err(error) => r is Err && tells_of(r->Err_0, error),
            Ok(value) => exists|filter: LuaValue| #[trigger]
                call_ensures(take_apart, (value,), filter) && match filter {
                    LuaValue::Function(func) => is_manifest_with_filter(
                        lua,
                        table,
                        Some(func),
                        home,
                        r,
                    ),
                    LuaValue::Nil => is_manifest_with_filter(lua, table, None, home, r),
                    _ => r matches Err(error) && error matches ManifestError::WrongFilter { got }
                        && got@ == filter.kind_text(),
                },
        }
}

/// Whether `r` can be what the table of a manifest with this filter comes to.
pub closed spec fn is_manifest_with_filter(
    lua: mlua::Lua,
    table: mlua::Table,
    should_include: Option<mlua::Function>,
    home: Option<&str>,
    r: Result<Manifest, ManifestError>,
) -> bool {
    exists|
        field: &str,
        tables: Result<Vec<(String, Vec<(String, mlua::Value)>)>, mlua::Error>,
    |
        field@ == "topics"@ && #[trigger] call_ensures(get_tables, (&table, field), tables)
            && match tables {
            Err(error) => r is Err && tells_of(r->Err_0, error),
            Ok(tables) => is_manifest_of_tables(lua, tables@, should_include, home, r),
        }
}

/// Whether `r` can be what the content of a manifest comes to, by what the interpreter answers:
/// the content is run, and what comes of it is read as the table of a manifest.
pub closed spec fn is_loaded(
    lua: mlua::Lua,
    content: &[u8],
    home: Option<&str>,
    r: Result<Manifest, ManifestError>,
) -> bool {
    exists|value: Result<mlua::Value, mlua::Error>| #[trigger]
        call_ensures(eval, (&lua, content), value) && match value {
            Err(error) => r is Err && tells_of(r->Err_0, error),
            Ok(value) => exists|apart: LuaValue| #[trigger]
                call_ensures(take_apart, (value,), apart) && match apart {
                    LuaValue::Table(table) => is_manifest_of_table(lua, table, home, r),
                    _ => r == Err::<Manifest, ManifestError>(ManifestError::NotATable),
                },
        }
}

/// Makes a manifest of the tables of its topics.
fn read_tables(
    lua: mlua::Lua,
    tables: Vec<(String, Vec<(String, mlua::Value)>)>,
    should_include: Option<mlua::Function>,
    home: Option<&str>,
) -> (r: Result<Manifest, ManifestError>)
    ensures
        is_manifest_of_tables(lua, tables@, should_include, home, r),
{
    let mut topics: Vec<Topic> = Vec::new();
    let mut rest = tables;
    let ghost all = tables@;
    while rest.len() > 0
        invariant
            all == tables@,
            are_read_topics(lua, all, home, topics@),
            topics@.len() + rest@.len() == all.len(),
            forall|i: int| 0 <= i < rest@.len() ==> #[trigger] rest@[i] == all[topics@.len() + i],
        decreases rest.len(),
    {
        assert(rest@[0] == all[topics@.len() as int]);
        let (name, raw) = rest.remove(0);
        let fields = read_fields(raw);
        assert(are_fields(raw@, fields@));
        match read_topic(&lua, name.as_str(), fields, home) {
            Ok(topic) => {
                assert(is_topic_of_table(
                    lua,
                    all[topics@.len() as int],
                    home,
                    Ok::<Topic, ManifestError>(topic),
                ));
                topics.push(topic);
            },
            Err(error) => {
                assert(is_topic_of_table(
                    lua,
                    all[topics@.len() as int],
                    home,
                    Err::<Topic, ManifestError>(error),
                ));
                return Err(error);
            },
        }
    }
    Manifest::from_topics(lua, topics, should_include)
}

/// Makes a manifest of its table.
fn read_table(lua: mlua::Lua, table: mlua::Table, home: Option<&str>) -> (r: Result<
    Manifest,
    ManifestError,
>)
    ensures
        is_manifest_of_table(lua, table, home, r),
{
    let filter = match get_field(&table, "should_include") {
        Ok(value) => take_apart(value),
        Err(error) => {
            return Err(lua_error(error));
        },
    };
    let should_include = match read_filter(filter) {
        Ok(should_include) => should_include,
        Err(error) => {
            return Err(error);
        },
    };
    match get_tables(&table, "topics") {
        Ok(tables) => {
            let r = read_tables(lua, tables, should_include, home);
            assert(is_manifest_with_filter(lua, table, should_include, home, r));
            r
        },
        Err(error) => {
            let r = Err(lua_error(error));
            assert(is_manifest_with_filter(lua, table, should_include, home, r));
            r
        },
    }
}

impl Manifest {
    /// Loads a manifest from the given manifest content.
    pub fn load(lua: mlua::Lua, manifest_content: &[u8]) -> (r: Result<Manifest, ManifestError>)
        ensures
            is_loaded(lua, manifest_content, None, r),
            r matches Ok(manifest) ==> manifest.is_well_formed() && manifest.has_own_topics(),
    {
        Self::load_with_home(lua, manifest_content, None)
    }

    /// Loads a manifest with an optional home directory for normalizing absolute roots.
    ///
    /// `lua` is the interpreter that runs the manifest, with the functions that manifests may
    /// call.
    ///
    /// When `home` is provided, any absolute `root` path that falls under the home directory
    /// is normalized to a relative path. Absolute roots outside the home directory are still
    /// rejected during validation. Individual topic `paths` are never normalized: they must
    /// always be relative.
    pub fn load_with_home(
        lua: mlua::Lua,
        manifest_content: &[u8],
        home: Option<&str>,
    ) -> (r: Result<Manifest, ManifestError>)
        ensures
            is_loaded(lua, manifest_content, home, r),
            r matches Ok(manifest) ==> manifest.is_well_formed() && manifest.has_own_topics(),
    {
        let value = match eval(&lua, manifest_content) {
            Ok(value) => value,
            Err(error) => {
                return Err(lua_error(error));
            },
        };
        let table = match manifest_table(take_apart(value)) {
            Ok(table) => table,
            Err(error) => {
                return Err(error);
            },
        };
        let r = read_table(lua, table, home);
        proof {
            if r is Ok {
                lemma_loaded(lua, table, home, r->Ok_0);
            }
        }
        r
    }

    /// No two topics have the same name, so that the names rise strictly, and no root is empty.
    pub open spec fn has_own_topics(&self) -> bool {
        &&& rising(self.topics@)
        &&& forall|i: int|
            0 <= i < self.topics@.len() && (#[trigger] self.topics@[i]).root is Some
                ==> self.topics@[i].root->Some_0@.len() > 0
    }

    /// The topics are in the order of their names, and each of them stays below its root and its
    /// root below the home directory.
    pub open spec fn is_well_formed(&self) -> bool {
        &&& in_order(self.topics@)
        &&& forall|i: int| 0 <= i < self.topics@.len() ==> is_accepted(#[trigger] self.topics@[i])
    }
}

// ----------------------------------------------------------------------------
// Content and files
// ----------------------------------------------------------------------------

/// Why it is not known whether a path is included.
#[derive(Debug)]
pub enum IncludeError {
    /// The filter of the manifest gave no result.
    Manifest { path: String, error: HookError },
    /// The filter of the topic gave no result.
    Topic { path: String, error: HookError },
}

impl IncludeError {
    /// The text of the error.
    pub open spec fn text(&self) -> Seq<char> {
        match self {
            IncludeError::Manifest { path, error } =>
                "manifest-level should_include failed for '"@ + path@ + "'"@,
            IncludeError::Topic { path, error } => "topic-level should_include failed for '"@
                + path@ + "'"@,
        }
    }

    /// The text of the error.
    pub fn message(&self) -> (r: String)
        ensures
            r@ == self.text(),
    {
        match self {
            IncludeError::Manifest { path, error: _ } =>
                "manifest-level should_include failed for '".to_owned().concat(
                    path.as_str(),
                ).concat("'"),
            IncludeError::Topic { path, error: _ } =>
                "topic-level should_include failed for '".to_owned().concat(path.as_str()).concat(
                    "'",
                ),
        }
    }
}

/// Whether `r` can come of the filter of a manifest, or of its absence.
pub open spec fn is_manifest_inclusion(
    manifest: Manifest,
    path: Seq<char>,
    r: Result<bool, HookError>,
) -> bool {
    match manifest.should_include {
        Some(func) => is_manifest_filter_result(manifest, func, path, r),
        None => r == Ok::<bool, HookError>(true),
    }
}

/// Whether `r` can come of the filter of a topic, or of its absence.
pub open spec fn is_topic_inclusion(
    topic: Topic,
    path: Seq<char>,
    r: Result<bool, HookError>,
) -> bool {
    match topic.should_include {
        Some(func) => is_filter_result(topic, func, path, r),
        None => r == Ok::<bool, HookError>(true),
    }
}

/// Whether a path is included: both the manifest and the topic must include it. The topic is only
/// asked where the manifest does.
pub fn is_included(manifest: &Manifest, topic: &Topic, path: &str) -> (r: Result<
    bool,
    IncludeError,
>)
    ensures
        manifest.should_include is None && topic.should_include is None ==> r == Ok::<
            bool,
            IncludeError,
        >(true),
        exists|first: Result<bool, HookError>| #[trigger]
            is_manifest_inclusion(*manifest, path@, first) && match first {
                Err(cause) => r matches Err(error) && error matches IncludeError::Manifest {
                    path: p,
                    error: e,
                } && p@ == path@ && e == cause,
                Ok(false) => r == Ok::<bool, IncludeError>(false),
                Ok(true) => exists|second: Result<bool, HookError>| #[trigger]
                    is_topic_inclusion(*topic, path@, second) && match second {
                        Err(cause) => r matches Err(error) && error matches IncludeError::Topic {
                            path: p,
                            error: e,
                        } && p@ == path@ && e == cause,
                        Ok(included) => r == Ok::<bool, IncludeError>(included),
                    },
            },
{
    let first = manifest.should_include(path);
    assert(is_manifest_inclusion(*manifest, path@, first));
    match first {
        Err(error) => Err(IncludeError::Manifest { path: path.to_owned(), error }),
        Ok(false) => Ok(false),
        Ok(true) => {
            let second = topic.should_include(path);
            assert(is_topic_inclusion(*topic, path@, second));
            match second {
                Err(error) => Err(IncludeError::Topic { path: path.to_owned(), error }),
                Ok(included) => Ok(included),
            }
        },
    }
}

/// Whether `r` can be what a topic makes of content that goes to the repository.
pub open spec fn is_repo_content(
    topic: Topic,
    path: Seq<char>,
    content: Seq<u8>,
    r: Result<Vec<u8>, HookError>,
) -> bool {
    match topic.to_repo {
        Some(func) => is_hook_result(topic, func, "to_repo"@, path, content, r),
        None => r is Ok && r->Ok_0@ == content,
    }
}

/// Whether `r` can be what a topic makes of stored content that goes to the system.
pub open spec fn is_system_content(
    topic: Topic,
    path: Seq<char>,
    content: Seq<u8>,
    r: Result<Vec<u8>, HookError>,
) -> bool {
    match topic.to_system {
        Some(func) => is_hook_result(topic, func, "to_system"@, path, content, r),
        None => r is Ok && r->Ok_0@ == content,
    }
}

/// What is stored of the content of a file: what the topic makes of it, with its line endings
/// normalized.
pub fn captured_content(topic: &Topic, path: &str, content: &[u8]) -> (r: Result<
    Vec<u8>,
    HookError,
>)
    ensures
        topic.to_repo is None ==> r is Ok && r->Ok_0@ == normalized(content@),
        exists|rewritten: Result<Vec<u8>, HookError>| #[trigger]
            is_repo_content(*topic, path@, content@, rewritten) && match rewritten {
                Ok(bytes) => r is Ok && r->Ok_0@ == normalized(bytes@),
                Err(error) => r == Err::<Vec<u8>, HookError>(error),
            },
{
    let rewritten = topic.to_repo(path, content);
    assert(is_repo_content(*topic, path@, content@, rewritten));
    match rewritten {
        Ok(bytes) => Ok(normalize_line_endings(bytes)),
        Err(error) => Err(error),
    }
}

proof fn lemma_topic_of_table(
    lua: mlua::Lua,
    table: (String, Vec<(String, mlua::Value)>),
    home: Option<&str>,
    topic: Topic,
)
    requires
        is_topic_of_table(lua, table, home, Ok::<Topic, ManifestError>(topic)),
    ensures
        topic.name@ == table.0@,
        topic.root matches Some(root) ==> root@.len() > 0,
{
    let r = Ok::<Topic, ManifestError>(topic);
    let fields = choose|fields: Seq<Field>| #[trigger]
        are_fields(table.1@, fields) && is_read_topic(lua, table.0@, fields, home, r);
    assert(is_read_topic(lua, table.0@, fields, home, r));
}

proof fn lemma_topics_have_own_names(
    lua: mlua::Lua,
    tables: Seq<(String, Vec<(String, mlua::Value)>)>,
    should_include: Option<mlua::Function>,
    home: Option<&str>,
    manifest: Manifest,
)
    requires
        have_own_names(tables),
        is_manifest_of_tables(
            lua,
            tables,
            should_include,
            home,
            Ok::<Manifest, ManifestError>(manifest),
        ),
    ensures
        manifest.is_well_formed(),
        manifest.has_own_topics(),
{
    broadcast use vstd::seq_lib::group_to_multiset_ensures;

    let r = Ok::<Manifest, ManifestError>(manifest);
    let topics = choose|topics: Seq<Topic>| #[trigger]
        are_read_topics(lua, tables, home, topics) && if topics.len() == tables.len() {
            is_manifest_of(lua, topics, should_include, r)
        } else {
            r is Err && is_topic_of_table(
                lua,
                tables[topics.len() as int],
                home,
                Err::<Topic, ManifestError>(r->Err_0),
            )
        };
    assert(is_manifest_of(lua, topics, should_include, r));
    let sorted = manifest.topics@;
    let names = keys(topics);
    assert forall|i: int, j: int| 0 <= i < j < names.len() implies names[i] != names[j] by {
        assert(is_topic_of_table(lua, tables[i], home, Ok::<Topic, ManifestError>(topics[i])));
        assert(is_topic_of_table(lua, tables[j], home, Ok::<Topic, ManifestError>(topics[j])));
        lemma_topic_of_table(lua, tables[i], home, topics[i]);
        lemma_topic_of_table(lua, tables[j], home, topics[j]);
    }
    names.lemma_multiset_has_no_duplicates();
    keys(sorted).lemma_multiset_has_no_duplicates_conv();
    assert forall|i: int, j: int| 0 <= i < j < sorted.len() implies Topic::precedes(
        #[trigger] sorted[i].key(),
        #[trigger] sorted[j].key(),
    ) by {
        assert(keys(sorted)[i] != keys(sorted)[j]);
        Topic::total(sorted[i].key(), sorted[j].key());
    }
    assert forall|i: int|
        0 <= i < sorted.len() && (#[trigger] sorted[i]).root
            is Some implies sorted[i].root->Some_0@.len() > 0 by {
        assert(sorted.contains(sorted[i]));
        assert(topics.to_multiset().count(sorted[i]) > 0);
        assert(topics.contains(sorted[i]));
        let k = choose|k: int| 0 <= k < topics.len() && topics[k] == sorted[i];
        assert(is_topic_of_table(lua, tables[k], home, Ok::<Topic, ManifestError>(topics[k])));
        lemma_topic_of_table(lua, tables[k], home, topics[k]);
    }
}

proof fn lemma_loaded(
    lua: mlua::Lua,
    table: mlua::Table,
    home: Option<&str>,
    manifest: Manifest,
)
    requires
        is_manifest_of_table(lua, table, home, Ok::<Manifest, ManifestError>(manifest)),
    ensures
        manifest.is_well_formed(),
        manifest.has_own_topics(),
{
    let r = Ok::<Manifest, ManifestError>(manifest);
    let should_include = choose|should_include: Option<mlua::Function>| #[trigger]
        is_manifest_with_filter(lua, table, should_include, home, r);
    assert(is_manifest_with_filter(lua, table, should_include, home, r));
    let (field, tables) = choose|
        field: &str,
        tables: Result<Vec<(String, Vec<(String, mlua::Value)>)>, mlua::Error>,
    |
        field@ == "topics"@ && #[trigger] call_ensures(get_tables, (&table, field), tables)
            && match tables {
            Err(error) => r is Err && tells_of(r->Err_0, error),
            Ok(tables) => is_manifest_of_tables(lua, tables@, should_include, home, r),
        };
    lemma_topics_have_own_names(lua, tables->Ok_0@, should_include, home, manifest);
}

// ----------------------------------------------------------------------------
// Laws
// ----------------------------------------------------------------------------

/// A root that is written relative to the home directory leads to the same place: below the home
/// directory it has the components that it had.
pub proof fn law_normalized_root_is_the_same_place(
    root: Seq<char>,
    home: Seq<char>,
    r: Option<Seq<char>>,
)
    requires
        below_home(root, home, r),
        starts_at_root(root),
        path_parts(home).is_prefix_of(path_parts(root)),
    ensures
        match r {
            Some(rest) => path_parts(home) + path_parts(rest) == path_parts(root),
            None => path_parts(home) == path_parts(root),
        },
{
    let base = path_parts(home);
    let parts = path_parts(root);
    if r is Some {
        assert(base + parts.skip(base.len() as int) =~= parts);
    }
}

/// A path of a valid topic never leads out of its root: it has no component that leads upwards,
/// and does not start at the root of the file system.
pub proof fn law_valid_topics_stay_below(topic: Topic, i: int, k: int)
    requires
        is_valid_topic(topic),
        0 <= i < topic.paths@.len(),
        0 <= k < path_parts(topic.paths@[i]@).len(),
    ensures
        path_parts(topic.paths@[i]@)[k] != ".."@,
        !starts_at_root(topic.paths@[i]@),
        topic.root matches Some(root) ==> !starts_at_root(root@) && !path_parts(root@).contains(
            ".."@,
        ),
{
    assert(path_is_valid(topic, i));
    if path_parts(topic.paths@[i]@)[k] == ".."@ {
        assert(path_parts(topic.paths@[i]@).contains(".."@));
    }
}

/// Whether the only choice that a filter makes about a path is this one; where there is no filter,
/// every path is included.
pub open spec fn chooses(filter: Option<mlua::Function>, path: Seq<char>, choice: bool) -> bool {
    match filter {
        Some(func) => answers(
            func,
            seq![encode_utf8(path)],
            Ok::<LuaValue, mlua::Error>(LuaValue::Boolean(choice)),
        ),
        None => choice,
    }
}

/// A path is included exactly where both the manifest and the topic include it. What the manifest
/// excludes, no topic brings back.
pub proof fn law_both_filters_must_agree(
    manifest: Manifest,
    topic: Topic,
    path: &str,
    first: bool,
    second: bool,
    r: Result<bool, IncludeError>,
)
    requires
        chooses(manifest.should_include, path@, first),
        first ==> chooses(topic.should_include, path@, second),
        call_ensures(is_included, (&manifest, &topic, path), r),
    ensures
        r is Ok,
        r->Ok_0 == (first && second),
{
    let m = choose|m: Result<bool, HookError>| #[trigger]
        is_manifest_inclusion(manifest, path@, m) && match m {
            Err(cause) => r matches Err(error) && error matches IncludeError::Manifest {
                path: p,
                error: e,
            } && p@ == path@ && e == cause,
            Ok(false) => r == Ok::<bool, IncludeError>(false),
            Ok(true) => exists|t: Result<bool, HookError>| #[trigger]
                is_topic_inclusion(topic, path@, t) && match t {
                    Err(cause) => r matches Err(error) && error matches IncludeError::Topic {
                        path: p,
                        error: e,
                    } && p@ == path@ && e == cause,
                    Ok(included) => r == Ok::<bool, IncludeError>(included),
                },
        };
    assert(m == Ok::<bool, HookError>(first));
    if first {
        let t = choose|t: Result<bool, HookError>| #[trigger]
            is_topic_inclusion(topic, path@, t) && match t {
                Err(cause) => r matches Err(error) && error matches IncludeError::Topic {
                    path: p,
                    error: e,
                } && p@ == path@ && e == cause,
                Ok(included) => r == Ok::<bool, IncludeError>(included),
            };
        assert(t == Ok::<bool, HookError>(second));
    }
}

/// Whether the only content that a hook makes of this is `made`; where there is no hook, the
/// content stays as it is.
pub open spec fn makes(
    hook: Option<mlua::Function>,
    path: Seq<char>,
    content: Seq<u8>,
    made: LuaValue,
) -> bool {
    &&& made is Str
    &&& match hook {
        Some(func) => answers(
            func,
            seq![encode_utf8(path), content],
            Ok::<LuaValue, mlua::Error>(made),
        ),
        None => made->Str_bytes@ == content,
    }
}

/// What is stored of a file is what the `to_repo` hook makes of it, with plain line ends; what is
/// written to the system is what the `to_system` hook makes of what is stored, byte for byte.
pub proof fn law_hooks_make_the_content(
    topic: Topic,
    path: &str,
    content: &[u8],
    stored: LuaValue,
    written: LuaValue,
    captured: Result<Vec<u8>, HookError>,
    applied: Result<Vec<u8>, HookError>,
)
    requires
        makes(topic.to_repo, path@, content@, stored),
        makes(topic.to_system, path@, content@, written),
        call_ensures(captured_content, (&topic, path, content), captured),
        call_ensures(Topic::to_system, (&topic, path, content), applied),
    ensures
        captured is Ok,
        captured->Ok_0@ == normalized(stored->Str_bytes@),
        applied is Ok,
        applied->Ok_0@ == written->Str_bytes@,
{
    let bytes = choose|bytes: Result<Vec<u8>, HookError>| #[trigger]
        is_repo_content(topic, path@, content@, bytes) && match bytes {
            Ok(bytes) => captured is Ok && captured->Ok_0@ == normalized(bytes@),
            Err(error) => captured == Err::<Vec<u8>, HookError>(error),
        };
    assert(bytes is Ok && bytes->Ok_0@ == stored->Str_bytes@);
    assert(is_system_content(topic, path@, content@, applied));
}

/// Whether no two fields have the same name.
pub open spec fn have_own_keys(fields: Seq<Field>) -> bool {
    forall|i: int, j: int|
        0 <= i < j < fields.len() ==> (#[trigger] fields[i]).key@ != (#[trigger] fields[j]).key@
}

/// A field of a topic means what its name says, wherever it stands among the fields: a topic is
/// enabled unless a field says otherwise, and has the hooks that the fields give. A field with a
/// value of another kind is refused.
pub proof fn law_fields_mean_what_they_say(
    lua: mlua::Lua,
    name: &str,
    paths: Vec<String>,
    fields: Vec<Field>,
    home: Option<&str>,
    r: Result<Topic, ManifestError>,
    i: int,
)
    requires
        call_ensures(make_topic, (&lua, name, paths, fields, home), r),
        have_own_keys(fields@),
        0 <= i < fields@.len(),
    ensures
        r matches Ok(topic) ==> {
            let key = fields@[i].key@;
            let value = fields@[i].value;
            &&& topic.name@ == name@ && topic.paths@ == paths@
            &&& key == "enabled"@ ==> (value is Boolean && topic.enabled == value->Boolean_0) || (
            value is Nil && topic.enabled)
            &&& key == "to_repo"@ ==> (value is Function && topic.to_repo == Some(
                value->Function_0,
            )) || (value is Nil && topic.to_repo is None)
            &&& key == "to_system"@ ==> (value is Function && topic.to_system == Some(
                value->Function_0,
            )) || (value is Nil && topic.to_system is None)
            &&& key == "should_include"@ ==> (value is Function && topic.should_include == Some(
                value->Function_0,
            )) || (value is Nil && topic.should_include is None)
            &&& key == "root"@ && home is None ==> (value is Str && text_view(topic.root) == (
            if value->text@.len() == 0 {
                None
            } else {
                Some(value->text@)
            })) || (value is Nil && topic.root is None)
            &&& key == "root"@ ==> value is Str || value is Nil
        },
{
    assert(is_made_topic(lua, name@, paths@, fields@, home, r));
    lemma_field_at(fields@, i);
}

/// Fields of a topic that are not there leave it enabled, without root and without hooks.
pub proof fn law_missing_fields_mean_nothing(
    lua: mlua::Lua,
    name: &str,
    paths: Vec<String>,
    fields: Vec<Field>,
    home: Option<&str>,
    r: Result<Topic, ManifestError>,
)
    requires
        call_ensures(make_topic, (&lua, name, paths, fields, home), r),
    ensures
        (forall|i: int| 0 <= i < fields@.len() ==> (#[trigger] fields@[i]).key@ != "enabled"@) && r
            is Ok ==> r->Ok_0.enabled,
        (forall|i: int| 0 <= i < fields@.len() ==> (#[trigger] fields@[i]).key@ != "to_repo"@) && r
            is Ok ==> r->Ok_0.to_repo is None,
        (forall|i: int| 0 <= i < fields@.len() ==> (#[trigger] fields@[i]).key@ != "to_system"@)
            && r is Ok ==> r->Ok_0.to_system is None,
        (forall|i: int|
            0 <= i < fields@.len() ==> (#[trigger] fields@[i]).key@ != "should_include"@) && r
            is Ok ==> r->Ok_0.should_include is None,
        (forall|i: int| 0 <= i < fields@.len() ==> (#[trigger] fields@[i]).key@ != "root"@) && r
            is Ok ==> r->Ok_0.root is None,
        fields@.len() == 0 ==> r is Ok,
{
    assert(is_made_topic(lua, name@, paths@, fields@, home, r));
    let all = fields@;
    if forall|i: int| 0 <= i < all.len() ==> (#[trigger] all[i]).key@ != "enabled"@ {
        lemma_no_field(all, "enabled"@);
    }
    if forall|i: int| 0 <= i < all.len() ==> (#[trigger] all[i]).key@ != "to_repo"@ {
        lemma_no_field(all, "to_repo"@);
    }
    if forall|i: int| 0 <= i < all.len() ==> (#[trigger] all[i]).key@ != "to_system"@ {
        lemma_no_field(all, "to_system"@);
    }
    if forall|i: int| 0 <= i < all.len() ==> (#[trigger] all[i]).key@ != "should_include"@ {
        lemma_no_field(all, "should_include"@);
    }
    if forall|i: int| 0 <= i < all.len() ==> (#[trigger] all[i]).key@ != "root"@ {
        lemma_no_field(all, "root"@);
    }
}

/// Whether a path leads out of where it is put: it starts at the root of the file system, or goes
/// up.
pub open spec fn leads_out(path: Seq<char>) -> bool {
    starts_at_root(path) || exists|k: int|
        0 <= k < path_parts(path).len() && #[trigger] path_parts(path)[k] == ".."@
}

/// A topic is accepted exactly where no path of it leads out, its root does not either, and its
/// root is more than a dot.
pub proof fn law_which_topics_are_accepted(topic: Topic, r: Result<(), ManifestError>, i: int)
    requires
        call_ensures(Topic::validate, (&topic,), r),
        is_portable_topic(topic),
    ensures
        0 <= i < topic.paths@.len() && leads_out(topic.paths@[i]@) ==> r is Err,
        topic.root is Some && (leads_out(topic.root->Some_0@) || path_parts(topic.root->Some_0@)
            == seq!["."@]) ==> r is Err,
        (forall|k: int| 0 <= k < topic.paths@.len() ==> !leads_out((#[trigger] topic.paths@[k])@))
            && (topic.root is Some ==> !leads_out(topic.root->Some_0@) && path_parts(
            topic.root->Some_0@,
        ) != seq!["."@]) ==> r is Ok,
{
    if r is Ok {
        if 0 <= i < topic.paths@.len() {
            assert(path_is_valid(topic, i));
            lemma_leads_out(topic.paths@[i]@, PathKind::Path);
        }
        if topic.root is Some {
            lemma_leads_out(topic.root->Some_0@, PathKind::Root);
        }
    } else {
        if root_is_valid(topic) {
            let k = choose|k: int|
                0 <= k < topic.paths@.len() && !#[trigger] path_is_valid(topic, k);
            lemma_leads_out(topic.paths@[k]@, PathKind::Path);
        } else {
            lemma_leads_out(topic.root->Some_0@, PathKind::Root);
        }
    }
}

proof fn lemma_leads_out(path: Seq<char>, kind: PathKind)
    ensures
        is_relative(path, kind) <==> !leads_out(path) && (kind == PathKind::Root ==> path_parts(
            path,
        ) != seq!["."@]),
{
    let parts = path_parts(path);
    if parts.contains(".."@) {
        let k = choose|k: int| 0 <= k < parts.len() && parts[k] == ".."@;
        assert(path_parts(path)[k] == ".."@);
    }
    if exists|k: int| 0 <= k < parts.len() && #[trigger] path_parts(path)[k] == ".."@ {
        let k = choose|k: int| 0 <= k < parts.len() && #[trigger] path_parts(path)[k] == ".."@;
        assert(parts.contains(parts[k]));
    }
}

/// A manifest has all its topics and no others, in the order of their names. One topic that is not
/// accepted makes it fail, and nothing else does.
pub proof fn law_manifest_has_all_topics(
    lua: mlua::Lua,
    topics: Vec<Topic>,
    should_include: Option<mlua::Function>,
    r: Result<Manifest, ManifestError>,
    topic: Topic,
)
    requires
        call_ensures(Manifest::from_topics, (lua, topics, should_include), r),
    ensures
        r matches Ok(manifest) ==> {
            &&& manifest.topics@.contains(topic) <==> topics@.contains(topic)
            &&& manifest.topics@.len() == topics@.len()
            &&& manifest.should_include == should_include
            &&& forall|i: int, j: int|
                0 <= i < j < manifest.topics@.len() ==> !text_before(
                    (#[trigger] manifest.topics@[j]).name@,
                    (#[trigger] manifest.topics@[i]).name@,
                )
        },
        are_portable_topics(topics@) && topics@.contains(topic) && !is_valid_topic(topic) ==> r
            is Err,
        are_portable_topics(topics@) && (forall|k: int|
            0 <= k < topics@.len() ==> is_valid_topic(#[trigger] topics@[k])) ==> r is Ok,
{
    broadcast use vstd::seq_lib::group_to_multiset_ensures;

    assert(is_manifest_of(lua, topics@, should_include, r));
    if let Ok(manifest) = r {
        let sorted = manifest.topics@;
        assert(sorted.contains(topic) <==> sorted.to_multiset().count(topic) > 0);
        assert(topics@.contains(topic) <==> topics@.to_multiset().count(topic) > 0);
        assert(sorted.to_multiset().len() == topics@.to_multiset().len());
        if are_portable_topics(topics@) && topics@.contains(topic) {
            let k = choose|k: int| 0 <= k < sorted.len() && sorted[k] == topic;
            lemma_portable_sorted(topics@, sorted);
            assert(may_pass(sorted[k]));
            lemma_accepted(topic);
        }
        assert forall|i: int, j: int| 0 <= i < j < sorted.len() implies !text_before(
            (#[trigger] sorted[j]).name@,
            (#[trigger] sorted[i]).name@,
        ) by {
            assert(!Topic::precedes(sorted[j].key(), sorted[i].key()));
        }
    } else if are_portable_topics(topics@) {
        let error = r->Err_0;
        let (sorted, i) = choose|sorted: Seq<Topic>, i: int|
            in_order(sorted) && sorted.to_multiset() == topics@.to_multiset() && 0 <= i
                < sorted.len() && !is_valid_topic(#[trigger] sorted[i]) && is_topic_error(
                sorted[i],
                error,
            ) && forall|k: int| 0 <= k < i ==> is_valid_topic(#[trigger] sorted[k]);
        assert(sorted.contains(sorted[i]));
        assert(sorted.to_multiset().count(sorted[i]) > 0);
        assert(topics@.contains(sorted[i]));
        let k = choose|k: int| 0 <= k < topics@.len() && topics@[k] == sorted[i];
        assert(!is_valid_topic(topics@[k]));
    }
}

/// A root that does not start at the root of the file system, or is not below the home directory,
/// stays as it is.
pub proof fn law_other_roots_are_kept(root: String, home: &str, r: Option<String>)
    requires
        call_ensures(normalize_root_under_home, (Some(root), Some(home)), r),
        portable(root@),
        portable(home@),
    ensures
        !starts_at_root(root@) || !path_parts(home@).is_prefix_of(path_parts(root@)) ==> text_view(
            r,
        ) == Some(root@),
        starts_at_root(root@) && path_parts(root@) == path_parts(home@) ==> r is None,
{
    if path_parts(root@) == path_parts(home@) {
        let parts = path_parts(home@);
        assert(parts =~= parts.take(parts.len() as int));
    }
}

/// A topic needs paths: without them, or with something else than a table in their place, it is
/// refused.
pub proof fn law_topics_need_paths(
    lua: mlua::Lua,
    name: Seq<char>,
    fields: Seq<Field>,
    home: Option<&str>,
    r: Result<Topic, ManifestError>,
    i: int,
)
    requires
        is_read_topic(lua, name, fields, home, r),
    ensures
        (forall|k: int| 0 <= k < fields.len() ==> (#[trigger] fields[k]).key@ != "paths"@) ==> r
            is Err && r->Err_0 is MissingPaths,
        have_own_keys(fields) && 0 <= i < fields.len() && fields[i].key@ == "paths"@ && !(
        fields[i].value is Table) ==> r is Err && r->Err_0 is PathsNoSequence,
        r matches Ok(topic) ==> topic.name@ == name,
{
    if forall|k: int| 0 <= k < fields.len() ==> (#[trigger] fields[k]).key@ != "paths"@ {
        lemma_no_field(fields, "paths"@);
    }
    if have_own_keys(fields) && 0 <= i < fields.len() {
        lemma_field_at(fields, i);
    }
}

} // verus!
