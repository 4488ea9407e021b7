//! The attributes that chezmoi writes into the names of its source files.

use vstd::prelude::*;

use crate::text::{
    contains, ends_with, is_one_of, last_index, occurs, starts_with, strip_front, stripped,
};

verus! {

/// What a source file stands for.
#[derive(Debug, Clone, Copy, PartialEq, Eq, Structural)]
pub enum FileKind {
    Regular,
    Create,
    Script,
    Symlink,
    Modify,
    Remove,
}

/// The attributes of a source directory.
#[derive(Debug, Clone)]
pub struct DirAttr {
    pub target_name: String,
    pub exact: bool,
    pub external: bool,
    pub private: bool,
    pub read_only: bool,
    pub remove: bool,
}

/// The attributes of a source file.
#[derive(Debug, Clone)]
pub struct FileAttr {
    pub target_name: String,
    pub kind: FileKind,
    pub template: bool,
    pub encrypted: bool,
    pub executable: bool,
    pub private: bool,
    pub read_only: bool,
    pub empty: bool,
}

/// Why a name has no attributes.
#[derive(Debug, Clone)]
pub enum NameError {
    EmptyDirectoryName,
    InvalidDirectoryName(String),
    EmptyFileName,
    InvalidFileName(String),
}

impl NameError {
    /// The text of the error.
    pub open spec fn text(&self) -> Seq<char> {
        match self {
            NameError::EmptyDirectoryName => "empty directory name"@,
            NameError::InvalidDirectoryName(name) => name@ + ": invalid directory name"@,
            NameError::EmptyFileName => "empty filename"@,
            NameError::InvalidFileName(name) => name@ + ": invalid filename"@,
        }
    }

    /// The text of the error.
    pub fn message(&self) -> (r: String)
        ensures
            r@ == self.text(),
    {
        match self {
            NameError::EmptyDirectoryName => "empty directory name".to_owned(),
            NameError::InvalidDirectoryName(name) => name.clone().concat(": invalid directory name"),
            NameError::EmptyFileName => "empty filename".to_owned(),
            NameError::InvalidFileName(name) => name.clone().concat(": invalid filename"),
        }
    }
}

// ----------------------------------------------------------------------------
// Prefixes
// ----------------------------------------------------------------------------

/// `s` without `prefix`, where it starts with it; else `s` itself.
pub open spec fn without(s: Seq<char>, prefix: Seq<char>) -> Seq<char> {
    match stripped(s, prefix) {
        Some(rest) => rest,
        None => s,
    }
}

/// Takes `prefix` off `s`. Says whether it was there.
pub fn strip_prefix<'a>(s: &'a str, prefix: &str) -> (r: (bool, &'a str))
    ensures
        r.0 == prefix@.is_prefix_of(s@),
        r.1@ == without(s@, prefix@),
{
    match strip_front(s, prefix) {
        Some(rest) => (true, rest),
        None => (false, s),
    }
}

fn strip_encrypted(name: &str) -> (r: &str)
    ensures
        r@ == without(name@, "encrypted_"@),
{
    strip_prefix(name, "encrypted_").1
}

fn strip_private(name: &str) -> (r: &str)
    ensures
        r@ == without(name@, "private_"@),
{
    strip_prefix(name, "private_").1
}

fn strip_readonly(name: &str) -> (r: &str)
    ensures
        r@ == without(name@, "readonly_"@),
{
    strip_prefix(name, "readonly_").1
}

fn strip_empty(name: &str) -> (r: &str)
    ensures
        r@ == without(name@, "empty_"@),
{
    strip_prefix(name, "empty_").1
}

fn strip_executable(name: &str) -> (r: &str)
    ensures
        r@ == without(name@, "executable_"@),
{
    strip_prefix(name, "executable_").1
}

/// `s` without the first of the two prefixes that it starts with.
pub open spec fn without_either(s: Seq<char>, first: Seq<char>, second: Seq<char>) -> Seq<char> {
    match stripped(s, first) {
        Some(rest) => rest,
        None => without(s, second),
    }
}

fn strip_script_condition(name: &str) -> (r: &str)
    ensures
        r@ == without_either(name@, "once_"@, "onchange_"@),
{
    if let Some(rest) = strip_front(name, "once_") {
        return rest;
    }
    strip_prefix(name, "onchange_").1
}

fn strip_script_order(name: &str) -> (r: &str)
    ensures
        r@ == without_either(name@, "before_"@, "after_"@),
{
    if let Some(rest) = strip_front(name, "before_") {
        return rest;
    }
    strip_prefix(name, "after_").1
}

/// What a `dot_` stands for in front of a target name.
pub open spec fn leading_dot(s: Seq<char>) -> Seq<char> {
    if "dot_"@.is_prefix_of(s) {
        "."@
    } else {
        ""@
    }
}

/// The target name without what `dot_` stands for.
pub open spec fn undotted(s: Seq<char>) -> Seq<char> {
    without_either(s, "dot_"@, "literal_"@)
}

/// Splits a `dot_` or `literal_` off `name`: what stands in its place, and the rest.
fn split_dot(name: &str) -> (r: (&'static str, &str))
    ensures
        r.0@ == leading_dot(name@),
        r.1@ == undotted(name@),
{
    if let Some(rest) = strip_front(name, "dot_") {
        (".", rest)
    } else if let Some(rest) = strip_front(name, "literal_") {
        ("", rest)
    } else {
        ("", name)
    }
}

// ----------------------------------------------------------------------------
// Directories
// ----------------------------------------------------------------------------

/// `name` without a leading `remove_`.
pub open spec fn dir_past_remove(name: Seq<char>) -> Seq<char> {
    without(name, "remove_"@)
}

/// `name` without a leading `remove_` and `external_`, in this order.
pub open spec fn dir_past_external(name: Seq<char>) -> Seq<char> {
    without(dir_past_remove(name), "external_"@)
}

/// `name` without the attributes up to `exact_`.
pub open spec fn dir_past_exact(name: Seq<char>) -> Seq<char> {
    without(dir_past_external(name), "exact_"@)
}

/// `name` without the attributes up to `private_`.
pub open spec fn dir_past_private(name: Seq<char>) -> Seq<char> {
    without(dir_past_exact(name), "private_"@)
}

/// `name` without its attributes.
pub open spec fn dir_past_attributes(name: Seq<char>) -> Seq<char> {
    without(dir_past_private(name), "readonly_"@)
}

/// Whether a source directory of this name has a target.
pub open spec fn dir_name_valid(name: Seq<char>) -> bool {
    name.len() > 0 && undotted(dir_past_attributes(name)).len() > 0
}

/// The target name of a source directory.
pub open spec fn dir_target(name: Seq<char>) -> Seq<char> {
    leading_dot(dir_past_attributes(name)) + undotted(dir_past_attributes(name))
}

/// Reads the attributes of a source directory off its name.
pub fn parse_dir_name(name: &str) -> (r: Result<DirAttr, NameError>)
    ensures
        r is Ok <==> dir_name_valid(name@),
        match r {
            Ok(attr) => {
                &&& attr.target_name@ == dir_target(name@)
                &&& attr.remove == "remove_"@.is_prefix_of(name@)
                &&& attr.external == "external_"@.is_prefix_of(dir_past_remove(name@))
                &&& attr.exact == "exact_"@.is_prefix_of(dir_past_external(name@))
                &&& attr.private == "private_"@.is_prefix_of(dir_past_exact(name@))
                &&& attr.read_only == "readonly_"@.is_prefix_of(dir_past_private(name@))
            },
            Err(NameError::EmptyDirectoryName) => name@.len() == 0,
            Err(NameError::InvalidDirectoryName(original)) => {
                name@.len() > 0 && original@ == name@
            },
            Err(_) => false,
        },
{
    if name.is_empty() {
        return Err(NameError::EmptyDirectoryName);
    }
    let original = name;
    let (remove, name) = strip_prefix(name, "remove_");
    let (external, name) = strip_prefix(name, "external_");
    let (exact, name) = strip_prefix(name, "exact_");
    let (private, name) = strip_prefix(name, "private_");
    let (read_only, name) = strip_prefix(name, "readonly_");
    let (name_prefix, name) = split_dot(name);
    if name.is_empty() {
        return Err(NameError::InvalidDirectoryName(original.to_owned()));
    }
    Ok(
        DirAttr {
            target_name: name_prefix.to_owned().concat(name),
            exact,
            external,
            private,
            read_only,
            remove,
        },
    )
}

// ----------------------------------------------------------------------------
// Files
// ----------------------------------------------------------------------------

/// The kind of a source file, by the first of these prefixes that its name starts with.
pub open spec fn file_kind(name: Seq<char>) -> FileKind {
    if "create_"@.is_prefix_of(name) {
        FileKind::Create
    } else if "remove_"@.is_prefix_of(name) {
        FileKind::Remove
    } else if "run_"@.is_prefix_of(name) {
        FileKind::Script
    } else if "symlink_"@.is_prefix_of(name) {
        FileKind::Symlink
    } else if "modify_"@.is_prefix_of(name) {
        FileKind::Modify
    } else {
        FileKind::Regular
    }
}

/// `s` without a leading `encrypted_`, `private_` and `readonly_`, in this order.
pub open spec fn past_access(s: Seq<char>) -> Seq<char> {
    without(without(without(s, "encrypted_"@), "private_"@), "readonly_"@)
}

/// `name` without the prefix of its kind and the attributes that this kind has.
pub open spec fn file_past_attributes(name: Seq<char>) -> Seq<char> {
    match file_kind(name) {
        FileKind::Create => without(
            without(past_access(without(name, "create_"@)), "empty_"@),
            "executable_"@,
        ),
        FileKind::Remove => without(name, "remove_"@),
        FileKind::Script => without_either(
            without_either(without(name, "run_"@), "once_"@, "onchange_"@),
            "before_"@,
            "after_"@,
        ),
        FileKind::Symlink => without(name, "symlink_"@),
        FileKind::Modify => without(past_access(without(name, "modify_"@)), "executable_"@),
        FileKind::Regular => without(without(past_access(name), "empty_"@), "executable_"@),
    }
}

/// `s` up to its last dot; all of `s` where it has none.
pub open spec fn before_last_dot(s: Seq<char>) -> Seq<char> {
    if s.contains('.') {
        up_to_last_dot(s)
    } else {
        s
    }
}

/// `s` up to its last dot; empty where it has none.
pub open spec fn up_to_last_dot(s: Seq<char>) -> Seq<char>
    decreases s.len(),
{
    if s.len() == 0 {
        s
    } else if s.last() == '.' {
        s.drop_last()
    } else {
        up_to_last_dot(s.drop_last())
    }
}

/// `s` without `suffix`, where it ends with it; else `s` itself.
pub open spec fn without_suffix(s: Seq<char>, suffix: Seq<char>) -> Seq<char> {
    if suffix.is_suffix_of(s) {
        s.take(s.len() - suffix.len())
    } else {
        s
    }
}

/// Whether the name, read up to its suffix, marks a template.
pub open spec fn is_template(s: Seq<char>) -> bool {
    !".literal"@.is_suffix_of(s) && ".tmpl"@.is_suffix_of(s)
}

/// The name without a `.literal` or `.tmpl` suffix. Behind a `.tmpl` a `.literal` goes too.
pub open spec fn past_suffix(s: Seq<char>) -> Seq<char> {
    if ".literal"@.is_suffix_of(s) {
        without_suffix(s, ".literal"@)
    } else {
        without_suffix(without_suffix(s, ".tmpl"@), ".literal"@)
    }
}

/// Whether a source file of this name is encrypted.
pub open spec fn is_encrypted(name: Seq<char>) -> bool {
    occurs(name, "encrypted_"@)
}

/// The name behind its attributes and `dot_`, without the extension of the encryption tool.
pub open spec fn file_stem(name: Seq<char>) -> Seq<char> {
    let rest = undotted(file_past_attributes(name));
    if is_encrypted(name) {
        before_last_dot(rest)
    } else {
        rest
    }
}

/// Whether a source file of this name has a target.
pub open spec fn file_name_valid(name: Seq<char>) -> bool {
    name.len() > 0 && past_suffix(file_stem(name)).len() > 0
}

/// The target name of a source file.
pub open spec fn file_target(name: Seq<char>) -> Seq<char> {
    leading_dot(file_past_attributes(name)) + past_suffix(file_stem(name))
}

proof fn lemma_up_to_last_dot(s: Seq<char>, at: int)
    requires
        crate::text::is_last_index(s, '.', at),
    ensures
        up_to_last_dot(s) == s.take(at),
    decreases s.len(),
{
    if at == s.len() - 1 {
        assert(s.drop_last() == s.take(at));
    } else {
        assert(s.last() != '.');
        lemma_up_to_last_dot(s.drop_last(), at);
        assert(s.drop_last().take(at) == s.take(at));
    }
}

/// Cuts `name` at its last dot.
fn cut_last_dot(name: &str) -> (r: &str)
    ensures
        r@ == before_last_dot(name@),
{
    match last_index(name, '.') {
        Some(at) => {
            proof {
                lemma_up_to_last_dot(name@, at as int);
                assert(name@.contains(name@[at as int]));
            }
            let cut = name.substring_char(0, at);
            assert(cut@ =~= name@.take(at as int));
            cut
        },
        None => name,
    }
}

/// Takes `suffix` off `name`, where it ends with it.
fn strip_back<'a>(name: &'a str, suffix: &str) -> (r: &'a str)
    ensures
        r@ == without_suffix(name@, suffix@),
{
    if ends_with(name, suffix) {
        let cut = name.substring_char(0, name.unicode_len() - suffix.unicode_len());
        assert(cut@ =~= name@.take(name@.len() - suffix@.len()));
        cut
    } else {
        name
    }
}

/// Reads the attributes of a source file off its name.
pub fn parse_file_name(name: &str) -> (r: Result<FileAttr, NameError>)
    ensures
        r is Ok <==> file_name_valid(name@),
        match r {
            Ok(attr) => {
                &&& attr.target_name@ == file_target(name@)
                &&& attr.kind == file_kind(name@)
                &&& attr.template == is_template(file_stem(name@))
                &&& attr.encrypted == is_encrypted(name@)
                &&& attr.executable == occurs(name@, "executable_"@)
                &&& attr.private == occurs(name@, "private_"@)
                &&& attr.read_only == occurs(name@, "readonly_"@)
                &&& attr.empty == occurs(name@, "empty_"@)
            },
            Err(NameError::EmptyFileName) => name@.len() == 0,
            Err(NameError::InvalidFileName(original)) => name@.len() > 0 && original@ == name@,
            Err(_) => false,
        },
{
    if name.is_empty() {
        return Err(NameError::EmptyFileName);
    }
    let original = name;
    let kind: FileKind;
    let bare: &str;
    if let Some(rest) = strip_front(name, "create_") {
        kind = FileKind::Create;
        let rest = strip_readonly(strip_private(strip_encrypted(rest)));
        bare = strip_executable(strip_empty(rest));
    } else if let Some(rest) = strip_front(name, "remove_") {
        kind = FileKind::Remove;
        bare = rest;
    } else if let Some(rest) = strip_front(name, "run_") {
        kind = FileKind::Script;
        bare = strip_script_order(strip_script_condition(rest));
    } else if let Some(rest) = strip_front(name, "symlink_") {
        kind = FileKind::Symlink;
        bare = rest;
    } else if let Some(rest) = strip_front(name, "modify_") {
        kind = FileKind::Modify;
        bare = strip_executable(strip_readonly(strip_private(strip_encrypted(rest))));
    } else {
        kind = FileKind::Regular;
        let rest = strip_readonly(strip_private(strip_encrypted(name)));
        bare = strip_executable(strip_empty(rest));
    }
    let (name_prefix, rest) = split_dot(bare);
    let encrypted = contains(original, "encrypted_");
    let stem = if encrypted {
        cut_last_dot(rest)
    } else {
        rest
    };
    let template: bool;
    let target: &str;
    if ends_with(stem, ".literal") {
        template = false;
        target = strip_back(stem, ".literal");
    } else if ends_with(stem, ".tmpl") {
        template = true;
        target = strip_back(strip_back(stem, ".tmpl"), ".literal");
    } else {
        template = false;
        target = stem;
    }
    if target.is_empty() {
        return Err(NameError::InvalidFileName(original.to_owned()));
    }
    Ok(
        FileAttr {
            target_name: name_prefix.to_owned().concat(target),
            kind,
            template,
            encrypted,
            executable: contains(original, "executable_"),
            private: contains(original, "private_"),
            read_only: contains(original, "readonly_"),
            empty: contains(original, "empty_"),
        },
    )
}

// ----------------------------------------------------------------------------
// Names that chezmoi keeps for itself
// ----------------------------------------------------------------------------

/// The files that chezmoi reads for itself.
pub open spec fn special_files() -> Seq<Seq<char>> {
    seq![
        ".chezmoiignore"@,
        ".chezmoiremove"@,
        ".chezmoiversion"@,
        ".chezmoiroot"@,
        ".chezmoi.json.tmpl"@,
        ".chezmoi.toml.tmpl"@,
        ".chezmoi.yaml.tmpl"@,
        ".chezmoidata.json"@,
        ".chezmoidata.toml"@,
        ".chezmoidata.yaml"@,
        ".chezmoiexternal.json"@,
        ".chezmoiexternal.toml"@,
        ".chezmoiexternal.yaml"@,
        ".chezmoiexternal.json.tmpl"@,
        ".chezmoiexternal.toml.tmpl"@,
        ".chezmoiexternal.yaml.tmpl"@,
        ".chezmoiignore.tmpl"@,
        ".chezmoiremove.tmpl"@,
    ]
}

/// The directories that chezmoi reads for itself.
pub open spec fn special_dirs() -> Seq<Seq<char>> {
    seq![
        ".chezmoitemplates"@,
        ".chezmoiscripts"@,
        ".chezmoidata"@,
        ".chezmoiexternals"@,
    ]
}

/// Whether chezmoi reads a file of this name for itself.
pub fn is_special_chezmoi_file(name: &str) -> (r: bool)
    ensures
        r == (".chezmoi"@.is_prefix_of(name@) && special_files().contains(name@)),
{
    if !starts_with(name, ".chezmoi") {
        return false;
    }
    let known = [
        ".chezmoiignore",
        ".chezmoiremove",
        ".chezmoiversion",
        ".chezmoiroot",
        ".chezmoi.json.tmpl",
        ".chezmoi.toml.tmpl",
        ".chezmoi.yaml.tmpl",
        ".chezmoidata.json",
        ".chezmoidata.toml",
        ".chezmoidata.yaml",
        ".chezmoiexternal.json",
        ".chezmoiexternal.toml",
        ".chezmoiexternal.yaml",
        ".chezmoiexternal.json.tmpl",
        ".chezmoiexternal.toml.tmpl",
        ".chezmoiexternal.yaml.tmpl",
        ".chezmoiignore.tmpl",
        ".chezmoiremove.tmpl",
    ];
    proof {
        let all = special_files();
        assert forall|i: int| 0 <= i < 18 implies #[trigger] known@[i]@ == all[i] by {}
        if all.contains(name@) {
            let i = choose|i: int| 0 <= i < all.len() && all[i] == name@;
            assert(known@[i]@ == name@);
        }
    }
    is_one_of(name, &known)
}

/// Whether chezmoi reads a directory of this name for itself.
pub fn is_special_chezmoi_dir(name: &str) -> (r: bool)
    ensures
        r == special_dirs().contains(name@),
{
    let known = [".chezmoitemplates", ".chezmoiscripts", ".chezmoidata", ".chezmoiexternals"];
    proof {
        let all = special_dirs();
        assert forall|i: int| 0 <= i < 4 implies #[trigger] known@[i]@ == all[i] by {}
        if all.contains(name@) {
            let i = choose|i: int| 0 <= i < all.len() && all[i] == name@;
            assert(known@[i]@ == name@);
        }
    }
    is_one_of(name, &known)
}

// ----------------------------------------------------------------------------
// Laws
// ----------------------------------------------------------------------------

/// How chezmoi writes the name of a target: a leading dot as `dot_`, and one that looks like an
/// attribute behind `literal_`.
pub enum Form {
    Dot,
    Literal,
    Plain,
}

/// The name of a target as chezmoi writes it.
pub open spec fn formed(form: Form, rest: Seq<char>) -> Seq<char> {
    match form {
        Form::Dot => "dot_"@ + rest,
        Form::Literal => "literal_"@ + rest,
        Form::Plain => rest,
    }
}

/// The name of the target that is written so.
pub open spec fn meant(form: Form, rest: Seq<char>) -> Seq<char> {
    match form {
        Form::Dot => "."@ + rest,
        _ => rest,
    }
}

/// `s` behind an attribute, where it has it.
pub open spec fn marked(has: bool, attribute: Seq<char>, s: Seq<char>) -> Seq<char> {
    if has {
        attribute + s
    } else {
        s
    }
}

/// Whether text starts with no attribute and no `dot_` or `literal_`.
pub open spec fn is_unmarked(s: Seq<char>) -> bool {
    &&& !"remove_"@.is_prefix_of(s)
    &&& !"external_"@.is_prefix_of(s)
    &&& !"exact_"@.is_prefix_of(s)
    &&& !"encrypted_"@.is_prefix_of(s)
    &&& !"private_"@.is_prefix_of(s)
    &&& !"readonly_"@.is_prefix_of(s)
    &&& !"empty_"@.is_prefix_of(s)
    &&& !"executable_"@.is_prefix_of(s)
    &&& !"create_"@.is_prefix_of(s)
    &&& !"run_"@.is_prefix_of(s)
    &&& !"symlink_"@.is_prefix_of(s)
    &&& !"modify_"@.is_prefix_of(s)
    &&& !"dot_"@.is_prefix_of(s)
    &&& !"literal_"@.is_prefix_of(s)
}

/// Whether the name of a target can be read as it is written.
pub open spec fn is_well_formed(form: Form, rest: Seq<char>) -> bool {
    rest.len() > 0 && (form is Plain ==> is_unmarked(rest))
}

proof fn lemma_apart(p: Seq<char>, q: Seq<char>, t: Seq<char>, i: int)
    requires
        0 <= i < p.len(),
        i < q.len(),
        p[i] != q[i],
    ensures
        !p.is_prefix_of(q + t),
{
    if p.is_prefix_of(q + t) {
        assert((q + t).subrange(0, p.len() as int)[i] == (q + t)[i]);
    }
}

proof fn lemma_marked(has: bool, attribute: Seq<char>, s: Seq<char>)
    requires
        !attribute.is_prefix_of(s),
    ensures
        attribute.is_prefix_of(marked(has, attribute, s)) == has,
        without(marked(has, attribute, s), attribute) == s,
        stripped(marked(true, attribute, s), attribute) == Some(s),
{
    assert((attribute + s).subrange(0, attribute.len() as int) =~= attribute);
    assert((attribute + s).skip(attribute.len() as int) =~= s);
}

proof fn lemma_formed(form: Form, rest: Seq<char>)
    requires
        is_well_formed(form, rest),
    ensures
        leading_dot(formed(form, rest)) + undotted(formed(form, rest)) == meant(form, rest),
        leading_dot(formed(form, rest)) == (match form {
            Form::Dot => "."@,
            _ => ""@,
        }),
        undotted(formed(form, rest)) == rest,
        forall|attribute: Seq<char>| #[trigger]
            is_attribute(attribute) ==> !attribute.is_prefix_of(formed(form, rest)),
{
    lemma_attributes();
    reveal_strlit("dot_");
    reveal_strlit("literal_");
    reveal_strlit("");
    let s = formed(form, rest);
    assert(("dot_"@ + rest).subrange(0, 4) =~= "dot_"@);
    assert(("dot_"@ + rest).skip(4) =~= rest);
    assert(("literal_"@ + rest).subrange(0, 8) =~= "literal_"@);
    assert(("literal_"@ + rest).skip(8) =~= rest);
    if form is Literal {
        lemma_apart("dot_"@, "literal_"@, rest, 0);
    }
    assert(""@ + rest =~= rest);
    assert forall|attribute: Seq<char>| #[trigger]
        is_attribute(attribute) implies !attribute.is_prefix_of(s) by {
        match form {
            Form::Dot => lemma_apart(attribute, "dot_"@, rest, 0),
            Form::Literal => lemma_apart(attribute, "literal_"@, rest, 0),
            Form::Plain => {},
        }
    }
}

/// Whether text is one of the attributes.
spec fn is_attribute(s: Seq<char>) -> bool {
    ||| s == "remove_"@
    ||| s == "external_"@
    ||| s == "exact_"@
    ||| s == "encrypted_"@
    ||| s == "private_"@
    ||| s == "readonly_"@
    ||| s == "empty_"@
    ||| s == "executable_"@
    ||| s == "create_"@
    ||| s == "run_"@
    ||| s == "symlink_"@
    ||| s == "modify_"@
}

/// No attribute starts another, nor with the letter of `dot_` or `literal_`.
proof fn lemma_attributes()
    ensures
        forall|s: Seq<char>| #[trigger]
            is_attribute(s) ==> s.len() > 0 && s[0] != 'd' && s[0] != 'l',
        forall|a: Seq<char>, b: Seq<char>, t: Seq<char>|
            #![trigger is_attribute(a), is_attribute(b), b + t]
            is_attribute(a) && is_attribute(b) && a != b ==> !a.is_prefix_of(b + t),
{
    reveal_strlit("remove_");
    reveal_strlit("external_");
    reveal_strlit("exact_");
    reveal_strlit("encrypted_");
    reveal_strlit("private_");
    reveal_strlit("readonly_");
    reveal_strlit("empty_");
    reveal_strlit("executable_");
    reveal_strlit("create_");
    reveal_strlit("run_");
    reveal_strlit("symlink_");
    reveal_strlit("modify_");
    assert forall|a: Seq<char>, b: Seq<char>, t: Seq<char>|
        #![trigger is_attribute(a), is_attribute(b), b + t]
        is_attribute(a) && is_attribute(b) && a != b implies !a.is_prefix_of(b + t) by {
        if a[0] != b[0] {
            lemma_apart(a, b, t, 0);
        } else if a[1] != b[1] {
            lemma_apart(a, b, t, 1);
        } else if a[2] != b[2] {
            lemma_apart(a, b, t, 2);
        } else {
            lemma_apart(a, b, t, 3);
        }
    }
}

/// A marked name starts with no attribute that neither it nor what it marks starts with.
proof fn lemma_no_other(has: bool, attribute: Seq<char>, s: Seq<char>, other: Seq<char>)
    requires
        is_attribute(attribute),
        is_attribute(other),
        attribute != other,
        !other.is_prefix_of(s),
    ensures
        !other.is_prefix_of(marked(has, attribute, s)),
{
    lemma_attributes();
    assert(!other.is_prefix_of(attribute + s));
}

/// The name of a source directory with these attributes.
pub open spec fn dir_source(
    remove: bool,
    external: bool,
    exact: bool,
    private: bool,
    read_only: bool,
    form: Form,
    rest: Seq<char>,
) -> Seq<char> {
    marked(
        remove,
        "remove_"@,
        marked(
            external,
            "external_"@,
            marked(
                exact,
                "exact_"@,
                marked(private, "private_"@, marked(read_only, "readonly_"@, formed(form, rest))),
            ),
        ),
    )
}

/// The name of a source directory reads back to the attributes and the target that it is written
/// for.
pub proof fn law_directory_names_read_back(
    remove: bool,
    external: bool,
    exact: bool,
    private: bool,
    read_only: bool,
    form: Form,
    rest: Seq<char>,
)
    requires
        is_well_formed(form, rest),
    ensures
        ({
            let name = dir_source(remove, external, exact, private, read_only, form, rest);
            &&& dir_name_valid(name)
            &&& dir_target(name) == meant(form, rest)
            &&& "remove_"@.is_prefix_of(name) == remove
            &&& "external_"@.is_prefix_of(dir_past_remove(name)) == external
            &&& "exact_"@.is_prefix_of(dir_past_external(name)) == exact
            &&& "private_"@.is_prefix_of(dir_past_exact(name)) == private
            &&& "readonly_"@.is_prefix_of(dir_past_private(name)) == read_only
        }),
{
    lemma_attributes();
    lemma_formed(form, rest);
    reveal_strlit("remove_");
    reveal_strlit("external_");
    reveal_strlit("exact_");
    reveal_strlit("private_");
    reveal_strlit("readonly_");
    let (m, x, e, p, r) = ("remove_"@, "external_"@, "exact_"@, "private_"@, "readonly_"@);
    assert(m[0] != x[0] && m[0] != e[0] && m[0] != p[0] && m[2] != r[2]);
    assert(x[2] != e[2] && x[0] != p[0] && x[0] != r[0]);
    assert(e[0] != p[0] && e[0] != r[0] && p[0] != r[0]);
    let s0 = formed(form, rest);
    assert(is_attribute(m) && is_attribute(x) && is_attribute(e) && is_attribute(p)
        && is_attribute(r));
    let s1 = marked(read_only, r, s0);
    lemma_marked(read_only, r, s0);
    lemma_no_other(read_only, r, s0, p);
    lemma_no_other(read_only, r, s0, e);
    lemma_no_other(read_only, r, s0, x);
    lemma_no_other(read_only, r, s0, m);
    let s2 = marked(private, p, s1);
    lemma_marked(private, p, s1);
    lemma_no_other(private, p, s1, e);
    lemma_no_other(private, p, s1, x);
    lemma_no_other(private, p, s1, m);
    let s3 = marked(exact, e, s2);
    lemma_marked(exact, e, s2);
    lemma_no_other(exact, e, s2, x);
    lemma_no_other(exact, e, s2, m);
    let s4 = marked(external, x, s3);
    lemma_marked(external, x, s3);
    lemma_no_other(external, x, s3, m);
    lemma_marked(remove, m, s4);
}

/// The attribute of a kind of source file.
pub open spec fn kind_mark(kind: FileKind) -> Seq<char> {
    match kind {
        FileKind::Create => "create_"@,
        FileKind::Remove => "remove_"@,
        FileKind::Script => "run_"@,
        FileKind::Symlink => "symlink_"@,
        FileKind::Modify => "modify_"@,
        FileKind::Regular => ""@,
    }
}

/// The name of a source file with these attributes, as far as its kind has them, up to its suffix.
pub open spec fn file_source(
    kind: FileKind,
    encrypted: bool,
    private: bool,
    read_only: bool,
    empty: bool,
    executable: bool,
    form: Form,
    rest: Seq<char>,
) -> Seq<char> {
    kind_mark(kind) + file_body(
        encrypted,
        private,
        read_only,
        empty,
        executable,
        formed(form, rest),
    )
}

/// Whether a kind of source file has these attributes: a file that modifies another is not
/// empty, and what is removed, run or linked has none.
pub open spec fn has_attributes(
    kind: FileKind,
    encrypted: bool,
    private: bool,
    read_only: bool,
    empty: bool,
    executable: bool,
) -> bool {
    &&& kind is Modify ==> !empty
    &&& kind is Remove || kind is Script || kind is Symlink ==> !encrypted && !private && !read_only
        && !empty && !executable
}

/// The attributes of a source file, behind that of its kind.
pub open spec fn file_body(
    encrypted: bool,
    private: bool,
    read_only: bool,
    empty: bool,
    executable: bool,
    s: Seq<char>,
) -> Seq<char> {
    marked(
        encrypted,
        "encrypted_"@,
        marked(
            private,
            "private_"@,
            marked(
                read_only,
                "readonly_"@,
                marked(empty, "empty_"@, marked(executable, "executable_"@, s)),
            ),
        ),
    )
}

proof fn lemma_file_body(
    encrypted: bool,
    private: bool,
    read_only: bool,
    empty: bool,
    executable: bool,
    s0: Seq<char>,
)
    requires
        forall|attribute: Seq<char>| #[trigger]
            is_attribute(attribute) ==> !attribute.is_prefix_of(s0),
    ensures
        ({
            let s = file_body(encrypted, private, read_only, empty, executable, s0);
            &&& without(without(past_access(s), "empty_"@), "executable_"@) == s0
            &&& !empty ==> without(past_access(s), "executable_"@) == s0
            &&& forall|kind: FileKind| !(kind is Regular) ==> !(
            #[trigger] kind_mark(kind)).is_prefix_of(s)
        }),
{
    reveal_strlit("encrypted_");
    reveal_strlit("private_");
    reveal_strlit("readonly_");
    reveal_strlit("empty_");
    reveal_strlit("executable_");
    let (n, p, r, y, x) = (
        "encrypted_"@,
        "private_"@,
        "readonly_"@,
        "empty_"@,
        "executable_"@,
    );
    assert(n[0] != p[0] && n[0] != r[0] && n[1] != y[1] && n[1] != x[1]);
    assert(p[0] != r[0] && p[0] != y[0] && p[0] != x[0]);
    assert(r[0] != y[0] && r[0] != x[0] && y[1] != x[1]);
    assert(is_attribute(n) && is_attribute(p) && is_attribute(r) && is_attribute(y)
        && is_attribute(x));
    let s1 = marked(executable, x, s0);
    lemma_marked(executable, x, s0);
    lemma_no_other(executable, x, s0, y);
    lemma_no_other(executable, x, s0, r);
    lemma_no_other(executable, x, s0, p);
    lemma_no_other(executable, x, s0, n);
    let s2 = marked(empty, y, s1);
    lemma_marked(empty, y, s1);
    lemma_no_other(empty, y, s1, r);
    lemma_no_other(empty, y, s1, p);
    lemma_no_other(empty, y, s1, n);
    let s3 = marked(read_only, r, s2);
    lemma_marked(read_only, r, s2);
    lemma_no_other(read_only, r, s2, p);
    lemma_no_other(read_only, r, s2, n);
    let s4 = marked(private, p, s3);
    lemma_marked(private, p, s3);
    lemma_no_other(private, p, s3, n);
    let s5 = marked(encrypted, n, s4);
    lemma_marked(encrypted, n, s4);
    assert forall|kind: FileKind| !(kind is Regular) implies !(
    #[trigger] kind_mark(kind)).is_prefix_of(s5) by {
        let k = kind_mark(kind);
        lemma_kind_mark(kind);
        lemma_no_other(executable, x, s0, k);
        lemma_no_other(empty, y, s1, k);
        lemma_no_other(read_only, r, s2, k);
        lemma_no_other(private, p, s3, k);
        lemma_no_other(encrypted, n, s4, k);
    }
}

/// The attribute of a kind is none of the others.
proof fn lemma_kind_mark(kind: FileKind)
    requires
        !(kind is Regular),
    ensures
        is_attribute(kind_mark(kind)),
        kind_mark(kind) != "encrypted_"@,
        kind_mark(kind) != "private_"@,
        kind_mark(kind) != "readonly_"@,
        kind_mark(kind) != "empty_"@,
        kind_mark(kind) != "executable_"@,
        forall|other: FileKind|
            other != kind && !(other is Regular) ==> #[trigger] kind_mark(other) != kind_mark(kind),
{
    reveal_strlit("encrypted_");
    reveal_strlit("private_");
    reveal_strlit("readonly_");
    reveal_strlit("empty_");
    reveal_strlit("executable_");
    reveal_strlit("create_");
    reveal_strlit("remove_");
    reveal_strlit("run_");
    reveal_strlit("symlink_");
    reveal_strlit("modify_");
    let k = kind_mark(kind);
    assert(k[0] != "encrypted_"@[0] && k[0] != "private_"@[0]);
    assert(k[0] != "empty_"@[0] && k[0] != "executable_"@[0]);
    assert(k[0] != "readonly_"@[0] || k[1] != "readonly_"@[1] || k[2] != "readonly_"@[2]);
    assert forall|other: FileKind| other != kind && !(other is Regular) implies #[trigger] kind_mark(
        other,
    ) != kind_mark(kind) by {
        let o = kind_mark(other);
        assert(o[0] != k[0] || o[1] != k[1]);
    }
}

proof fn lemma_kind(kind: FileKind, s: Seq<char>)
    requires
        forall|other: FileKind| !(other is Regular) ==> !(#[trigger] kind_mark(other)).is_prefix_of(
            s,
        ),
    ensures
        file_kind(kind_mark(kind) + s) == kind,
        kind is Regular ==> kind_mark(kind) + s == s,
        !(kind is Regular) ==> without(kind_mark(kind) + s, kind_mark(kind)) == s,
{
    let name = kind_mark(kind) + s;
    if kind is Regular {
        reveal_strlit("");
        assert(name =~= s);
    } else {
        lemma_marked(true, kind_mark(kind), s);
        lemma_attributes();
        lemma_kind_mark(kind);
        assert forall|other: FileKind| other != kind && !(other is Regular) implies !(
        #[trigger] kind_mark(other)).is_prefix_of(name) by {
            lemma_kind_mark(other);
            assert(kind_mark(other) != kind_mark(kind));
            assert(is_attribute(kind_mark(other)) && is_attribute(kind_mark(kind)));
        }
    }
    assert(kind_mark(FileKind::Create) == "create_"@);
    assert(kind_mark(FileKind::Remove) == "remove_"@);
    assert(kind_mark(FileKind::Script) == "run_"@);
    assert(kind_mark(FileKind::Symlink) == "symlink_"@);
    assert(kind_mark(FileKind::Modify) == "modify_"@);
}

proof fn lemma_no_condition(form: Form, rest: Seq<char>)
    requires
        form is Plain ==> !"once_"@.is_prefix_of(rest) && !"onchange_"@.is_prefix_of(rest)
            && !"before_"@.is_prefix_of(rest) && !"after_"@.is_prefix_of(rest),
    ensures
        without_either(
            without_either(formed(form, rest), "once_"@, "onchange_"@),
            "before_"@,
            "after_"@,
        ) == formed(form, rest),
{
    reveal_strlit("once_");
    reveal_strlit("onchange_");
    reveal_strlit("before_");
    reveal_strlit("after_");
    reveal_strlit("dot_");
    reveal_strlit("literal_");
    match form {
        Form::Dot => {
            lemma_apart("once_"@, "dot_"@, rest, 0);
            lemma_apart("onchange_"@, "dot_"@, rest, 0);
            lemma_apart("before_"@, "dot_"@, rest, 0);
            lemma_apart("after_"@, "dot_"@, rest, 0);
        },
        Form::Literal => {
            lemma_apart("once_"@, "literal_"@, rest, 0);
            lemma_apart("onchange_"@, "literal_"@, rest, 0);
            lemma_apart("before_"@, "literal_"@, rest, 0);
            lemma_apart("after_"@, "literal_"@, rest, 0);
        },
        Form::Plain => {},
    }
}

/// The name of a source file is read up to its target: its kind is that of its first attribute,
/// and behind the attributes stands the name of the target.
pub proof fn law_file_names_read_back(
    kind: FileKind,
    encrypted: bool,
    private: bool,
    read_only: bool,
    empty: bool,
    executable: bool,
    form: Form,
    rest: Seq<char>,
)
    requires
        is_well_formed(form, rest),
        has_attributes(kind, encrypted, private, read_only, empty, executable),
        kind is Script && form is Plain ==> !"once_"@.is_prefix_of(rest) && !"onchange_"@.is_prefix_of(
            rest,
        ) && !"before_"@.is_prefix_of(rest) && !"after_"@.is_prefix_of(rest),
    ensures
        ({
            let name = file_source(
                kind,
                encrypted,
                private,
                read_only,
                empty,
                executable,
                form,
                rest,
            );
            &&& file_kind(name) == kind
            &&& leading_dot(file_past_attributes(name)) == (match form {
                Form::Dot => "."@,
                _ => ""@,
            })
            &&& undotted(file_past_attributes(name)) == rest
        }),
{
    let s0 = formed(form, rest);
    let s = file_body(encrypted, private, read_only, empty, executable, s0);
    lemma_formed(form, rest);
    lemma_file_body(encrypted, private, read_only, empty, executable, s0);
    lemma_kind(kind, s);
    if kind is Script {
        lemma_no_condition(form, rest);
    }
}

/// What is left of a name without its suffix: behind a name that ends in neither, a `.tmpl` marks
/// a template and is no part of the target, and a `.literal` is neither.
pub proof fn law_suffixes_are_read(stem: Seq<char>)
    requires
        !".tmpl"@.is_suffix_of(stem),
        !".literal"@.is_suffix_of(stem),
    ensures
        past_suffix(stem) == stem && !is_template(stem),
        past_suffix(stem + ".tmpl"@) == stem && is_template(stem + ".tmpl"@),
        past_suffix(stem + ".literal"@) == stem && !is_template(stem + ".literal"@),
{
    reveal_strlit(".tmpl");
    reveal_strlit(".literal");
    let (t, l) = (".tmpl"@, ".literal"@);
    let a = stem + t;
    let b = stem + l;
    assert(a.subrange(a.len() - t.len(), a.len() as int) =~= t);
    assert(b.subrange(b.len() - l.len(), b.len() as int) =~= l);
    assert(a.take(a.len() - t.len()) =~= stem);
    assert(b.take(b.len() - l.len()) =~= stem);
    if l.is_suffix_of(a) {
        assert(a.subrange(a.len() - l.len(), a.len() as int)[7] == a[a.len() - 1]);
        assert(a[a.len() - 1] == 'l' && t[4] == 'l');
        assert(a.subrange(a.len() - l.len(), a.len() as int)[6] == a[a.len() - 2]);
        assert(false);
    }
}

/// The extension of the encryption tool is no part of the target.
pub proof fn law_encryption_extension_is_cut(stem: Seq<char>, extension: Seq<char>)
    requires
        !extension.contains('.'),
    ensures
        before_last_dot(stem + seq!['.'] + extension) == stem,
        !stem.contains('.') ==> before_last_dot(stem) == stem,
    decreases extension.len(),
{
    let s = stem + seq!['.'] + extension;
    assert(s[stem.len() as int] == '.');
    assert(s.contains('.'));
    assert forall|k: int| stem.len() < k < s.len() implies s[k] != '.' by {
        assert(s[k] == extension[k - stem.len() - 1]);
    }
    lemma_up_to_last_dot(s, stem.len() as int);
    assert(s.take(stem.len() as int) =~= stem);
}

/// The end of the name of a source file: its target, the suffix of a template, and the extension
/// of the encryption tool.
pub open spec fn file_end(
    target: Seq<char>,
    template: bool,
    encrypted: bool,
    extension: Seq<char>,
) -> Seq<char> {
    let stem = if template {
        target + ".tmpl"@
    } else {
        target
    };
    if encrypted {
        stem + seq!['.'] + extension
    } else {
        stem
    }
}

/// The target of a source file is the name that it was written for, with its dot, without any
/// attribute, suffix or extension; and whether it is a template is read too.
pub proof fn law_file_targets_are_read(
    kind: FileKind,
    encrypted: bool,
    private: bool,
    read_only: bool,
    empty: bool,
    executable: bool,
    form: Form,
    target: Seq<char>,
    template: bool,
    extension: Seq<char>,
)
    requires
        target.len() > 0,
        !".tmpl"@.is_suffix_of(target),
        !".literal"@.is_suffix_of(target),
        !extension.contains('.'),
        is_well_formed(form, file_end(target, template, encrypted, extension)),
        has_attributes(kind, encrypted, private, read_only, empty, executable),
        !(kind is Script),
        occurs(
            file_source(
                kind,
                encrypted,
                private,
                read_only,
                empty,
                executable,
                form,
                file_end(target, template, encrypted, extension),
            ),
            "encrypted_"@,
        ) == encrypted,
    ensures
        ({
            let name = file_source(
                kind,
                encrypted,
                private,
                read_only,
                empty,
                executable,
                form,
                file_end(target, template, encrypted, extension),
            );
            &&& file_name_valid(name)
            &&& file_kind(name) == kind
            &&& file_target(name) == meant(form, target)
            &&& is_template(file_stem(name)) == template
            &&& is_encrypted(name) == encrypted
        }),
{
    let rest = file_end(target, template, encrypted, extension);
    law_file_names_read_back(
        kind,
        encrypted,
        private,
        read_only,
        empty,
        executable,
        form,
        rest,
    );
    law_suffixes_are_read(target);
    law_encryption_extension_is_cut(target, extension);
    law_encryption_extension_is_cut(target + ".tmpl"@, extension);
    reveal_strlit("");
    assert(""@ + target =~= target);
    let name = file_source(kind, encrypted, private, read_only, empty, executable, form, rest);
    assert(name.len() > 0) by {
        reveal_strlit("dot_");
        reveal_strlit("literal_");
        assert(formed(form, rest).len() > 0);
    }
}

/// A directory of a source is read as what its name was put together of: its attributes, and the
/// name of its target.
pub proof fn law_parsed_directory_names(
    name: &str,
    r: Result<DirAttr, NameError>,
    remove: bool,
    external: bool,
    exact: bool,
    private: bool,
    read_only: bool,
    form: Form,
    rest: Seq<char>,
)
    requires
        call_ensures(parse_dir_name, (name,), r),
        name@ == dir_source(remove, external, exact, private, read_only, form, rest),
        is_well_formed(form, rest),
    ensures
        r matches Ok(attr) && attr.target_name@ == meant(form, rest) && attr.remove == remove
            && attr.external == external && attr.exact == exact && attr.private == private
            && attr.read_only == read_only,
{
    law_directory_names_read_back(remove, external, exact, private, read_only, form, rest);
}

/// A file of a source is read as what its name was put together of: its kind, the name of its
/// target, and whether it is a template or encrypted.
pub proof fn law_parsed_file_names(
    name: &str,
    r: Result<FileAttr, NameError>,
    kind: FileKind,
    encrypted: bool,
    private: bool,
    read_only: bool,
    empty: bool,
    executable: bool,
    form: Form,
    target: Seq<char>,
    template: bool,
    extension: Seq<char>,
)
    requires
        call_ensures(parse_file_name, (name,), r),
        name@ == file_source(
            kind,
            encrypted,
            private,
            read_only,
            empty,
            executable,
            form,
            file_end(target, template, encrypted, extension),
        ),
        target.len() > 0,
        !".tmpl"@.is_suffix_of(target),
        !".literal"@.is_suffix_of(target),
        !extension.contains('.'),
        is_well_formed(form, file_end(target, template, encrypted, extension)),
        has_attributes(kind, encrypted, private, read_only, empty, executable),
        !(kind is Script),
        occurs(name@, "encrypted_"@) == encrypted,
    ensures
        r matches Ok(attr) && attr.target_name@ == meant(form, target) && attr.kind == kind
            && attr.template == template && attr.encrypted == encrypted && attr.private == occurs(
            name@,
            "private_"@,
        ) && attr.executable == occurs(name@, "executable_"@) && attr.read_only == occurs(
            name@,
            "readonly_"@,
        ) && attr.empty == occurs(name@, "empty_"@),
{
    law_file_targets_are_read(
        kind,
        encrypted,
        private,
        read_only,
        empty,
        executable,
        form,
        target,
        template,
        extension,
    );
}

/// What chezmoi reads for itself is told from what it manages: its data, externals and
/// configuration in each of its formats, the lists of what it ignores and removes, as they are or
/// as templates, and nothing whose name does not start as these do.
pub proof fn law_special_files_are_known(name: &str, format: Seq<char>, r: bool)
    requires
        call_ensures(is_special_chezmoi_file, (name,), r),
        format == "json"@ || format == "toml"@ || format == "yaml"@,
    ensures
        name@ == ".chezmoidata."@ + format ==> r,
        name@ == ".chezmoiexternal."@ + format ==> r,
        name@ == ".chezmoiexternal."@ + format + ".tmpl"@ ==> r,
        name@ == ".chezmoi."@ + format + ".tmpl"@ ==> r,
        name@ == ".chezmoiignore"@ || name@ == ".chezmoiignore"@ + ".tmpl"@ ==> r,
        name@ == ".chezmoiremove"@ || name@ == ".chezmoiremove"@ + ".tmpl"@ ==> r,
        name@ == ".chezmoiversion"@ || name@ == ".chezmoiroot"@ ==> r,
        r ==> ".chezmoi"@.is_prefix_of(name@),
{
    reveal_strlit("json");
    reveal_strlit("toml");
    reveal_strlit("yaml");
    reveal_strlit(".tmpl");
    reveal_strlit(".chezmoi");
    reveal_strlit(".chezmoi.");
    reveal_strlit(".chezmoidata.");
    reveal_strlit(".chezmoiexternal.");
    reveal_strlit(".chezmoiignore");
    reveal_strlit(".chezmoiremove");
    reveal_strlit(".chezmoiversion");
    reveal_strlit(".chezmoiroot");
    reveal_strlit(".chezmoi.json.tmpl");
    reveal_strlit(".chezmoi.toml.tmpl");
    reveal_strlit(".chezmoi.yaml.tmpl");
    reveal_strlit(".chezmoidata.json");
    reveal_strlit(".chezmoidata.toml");
    reveal_strlit(".chezmoidata.yaml");
    reveal_strlit(".chezmoiexternal.json");
    reveal_strlit(".chezmoiexternal.toml");
    reveal_strlit(".chezmoiexternal.yaml");
    reveal_strlit(".chezmoiexternal.json.tmpl");
    reveal_strlit(".chezmoiexternal.toml.tmpl");
    reveal_strlit(".chezmoiexternal.yaml.tmpl");
    reveal_strlit(".chezmoiignore.tmpl");
    reveal_strlit(".chezmoiremove.tmpl");
    let all = special_files();
    assert(".chezmoi."@ + "json"@ + ".tmpl"@ =~= all[4]);
    assert(".chezmoi."@ + "toml"@ + ".tmpl"@ =~= all[5]);
    assert(".chezmoi."@ + "yaml"@ + ".tmpl"@ =~= all[6]);
    assert(".chezmoidata."@ + "json"@ =~= all[7]);
    assert(".chezmoidata."@ + "toml"@ =~= all[8]);
    assert(".chezmoidata."@ + "yaml"@ =~= all[9]);
    assert(".chezmoiexternal."@ + "json"@ =~= all[10]);
    assert(".chezmoiexternal."@ + "toml"@ =~= all[11]);
    assert(".chezmoiexternal."@ + "yaml"@ =~= all[12]);
    assert(".chezmoiexternal."@ + "json"@ + ".tmpl"@ =~= all[13]);
    assert(".chezmoiexternal."@ + "toml"@ + ".tmpl"@ =~= all[14]);
    assert(".chezmoiexternal."@ + "yaml"@ + ".tmpl"@ =~= all[15]);
    assert(".chezmoiignore"@ + ".tmpl"@ =~= all[16]);
    assert(".chezmoiremove"@ + ".tmpl"@ =~= all[17]);
    assert(all[0] == ".chezmoiignore"@ && all[1] == ".chezmoiremove"@);
    assert(all[2] == ".chezmoiversion"@ && all[3] == ".chezmoiroot"@);
    assert(name@ == ".chezmoi."@ + format + ".tmpl"@ || name@ == ".chezmoidata."@ + format || name@
        == ".chezmoiexternal."@ + format || name@ == ".chezmoiexternal."@ + format + ".tmpl"@ || name@
        == ".chezmoiignore"@ || name@ == ".chezmoiignore"@ + ".tmpl"@ || name@ == ".chezmoiremove"@
        || name@ == ".chezmoiremove"@ + ".tmpl"@ || name@ == ".chezmoiversion"@ || name@
        == ".chezmoiroot"@ ==> name@.subrange(0, 8) =~= ".chezmoi"@);
}

/// The directories that chezmoi reads for itself are known by their names.
pub proof fn law_special_directories_are_known(name: &str, r: bool)
    requires
        call_ensures(is_special_chezmoi_dir, (name,), r),
    ensures
        r <==> name@ == ".chezmoitemplates"@ || name@ == ".chezmoiscripts"@ || name@
            == ".chezmoidata"@ || name@ == ".chezmoiexternals"@,
{
    let all = special_dirs();
    assert(all[0] == ".chezmoitemplates"@ && all[1] == ".chezmoiscripts"@ && all[2]
        == ".chezmoidata"@ && all[3] == ".chezmoiexternals"@);
}

} // verus!
