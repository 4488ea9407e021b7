//! The text of a migrated manifest.

use vstd::prelude::*;
use vstd::utf8::encode_utf8;

use crate::bytes::bytes_of;
use crate::chezmoi::topics::MigratedTopic;
use crate::manifest::{
    field_of, is_loaded, is_made_topic, is_manifest_of, is_portable_topic, is_relative,
    is_valid_topic, path_is_valid, root_text, Field, Manifest, ManifestError, PathKind, Topic,
};
use crate::order::in_order;
use crate::paths::{
    is_plain, law_written_paths_read_back, path_parts, portable, TargetPath,
};
use crate::text::{
    chars_of, digit, digit_char, joined, replace_char, same, text_view, with_char_replaced,
};

verus! {

// ----------------------------------------------------------------------------
// Literals
// ----------------------------------------------------------------------------

/// Whether `c` is a control character.
pub open spec fn is_control(c: char) -> bool {
    (c as u32) < 0x20 || 0x7f <= (c as u32) < 0xa0
}

/// How `c` is written in a Lua literal between double quotes.
pub open spec fn escaped_char(c: char) -> Seq<char> {
    if c == '\\' {
        seq!['\\', '\\']
    } else if c == '"' {
        seq!['\\', '"']
    } else if c == '\n' {
        seq!['\\', 'n']
    } else if c == '\r' {
        seq!['\\', 'r']
    } else if c == '\t' {
        seq!['\\', 't']
    } else if is_control(c) {
        seq![
            '\\',
            'u',
            '{',
            '0',
            '0',
            digit((c as u32 / 16) as nat),
            digit((c as u32 % 16) as nat),
            '}',
        ]
    } else {
        seq![c]
    }
}

/// How `s` is written in a Lua literal between double quotes.
pub open spec fn escaped(s: Seq<char>) -> Seq<char>
    decreases s.len(),
{
    if s.len() == 0 {
        Seq::empty()
    } else {
        escaped(s.drop_last()) + escaped_char(s.last())
    }
}

/// Adds `c` to `out` as it is written in a Lua literal.
fn push_escaped(out: &mut String, c: char)
    ensures
        final(out)@ == old(out)@ + escaped_char(c),
{
    let ghost before = out@;
    if c == '\\' || c == '"' {
        out.push('\\');
        out.push(c);
    } else if c == '\n' {
        out.push('\\');
        out.push('n');
    } else if c == '\r' {
        out.push('\\');
        out.push('r');
    } else if c == '\t' {
        out.push('\\');
        out.push('t');
    } else {
        let code: u32 = c as u32;
        if code < 0x20 || (0x7f <= code && code < 0xa0) {
            out.push('\\');
            out.push('u');
            out.push('{');
            out.push('0');
            out.push('0');
            out.push(digit_char(code / 16));
            out.push(digit_char(code % 16));
            out.push('}');
        } else {
            out.push(c);
        }
    }
    assert(out@ =~= before + escaped_char(c));
}

/// Escapes a string for a Lua literal between double quotes.
pub fn escape_lua_string(s: &str) -> (r: String)
    ensures
        r@ == escaped(s@),
{
    let chars = crate::text::chars_of(s);
    let mut out = String::new();
    assert(s@.take(0) =~= Seq::<char>::empty());
    for i in 0..chars.len()
        invariant
            chars@ == s@,
            out@ == escaped(s@.take(i as int)),
    {
        push_escaped(&mut out, chars[i]);
        assert(s@.take(i + 1).drop_last() =~= s@.take(i as int));
    }
    assert(s@.take(s@.len() as int) =~= s@);
    out
}

// ----------------------------------------------------------------------------
// What a literal stands for
// ----------------------------------------------------------------------------

/// The value of a hexadecimal digit.
pub open spec fn hex_value(c: char) -> Option<nat> {
    if '0' <= c && c <= '9' {
        Some((c as u32 - '0' as u32) as nat)
    } else if 'a' <= c && c <= 'f' {
        Some((c as u32 - 'a' as u32 + 10) as nat)
    } else {
        None
    }
}

/// What the text of a literal stands for, with the escapes of Lua that are written with one
/// letter or with a code of four digits. `None` for text that is no such literal: it ends in
/// the middle of an escape, or holds a quote or a line break that would end it.
pub open spec fn literal_value(t: Seq<char>) -> Option<Seq<char>>
    decreases t.len(),
{
    if t.len() == 0 {
        Some(Seq::empty())
    } else if t[0] == '"' || t[0] == '\n' || t[0] == '\r' {
        None
    } else if t[0] != '\\' {
        with_first(t[0], literal_value(t.skip(1)))
    } else if t.len() < 2 {
        None
    } else if t[1] == '\\' || t[1] == '"' {
        with_first(t[1], literal_value(t.skip(2)))
    } else if t[1] == 'n' {
        with_first('\n', literal_value(t.skip(2)))
    } else if t[1] == 'r' {
        with_first('\r', literal_value(t.skip(2)))
    } else if t[1] == 't' {
        with_first('\t', literal_value(t.skip(2)))
    } else if t[1] == 'u' && t.len() >= 8 && t[2] == '{' && t[3] == '0' && t[4] == '0' && t[7]
        == '}' {
        match (hex_value(t[5]), hex_value(t[6])) {
            (Some(high), Some(low)) => with_first(
                ((16 * high + low) as u32) as char,
                literal_value(t.skip(8)),
            ),
            _ => None,
        }
    } else {
        None
    }
}

/// `rest` with `c` in front.
pub open spec fn with_first(c: char, rest: Option<Seq<char>>) -> Option<Seq<char>> {
    match rest {
        Some(rest) => Some(seq![c] + rest),
        None => None,
    }
}

proof fn lemma_escaped_first(s: Seq<char>)
    requires
        s.len() > 0,
    ensures
        escaped(s) == escaped_char(s[0]) + escaped(s.skip(1)),
    decreases s.len(),
{
    if s.len() == 1 {
        assert(s.drop_last() =~= Seq::<char>::empty());
        assert(s.skip(1) =~= Seq::<char>::empty());
        assert(escaped(s) =~= escaped_char(s[0]) + escaped(s.skip(1)));
    } else {
        lemma_escaped_first(s.drop_last());
        assert(s.drop_last().skip(1) =~= s.skip(1).drop_last());
        assert(escaped(s) =~= escaped_char(s[0]) + escaped(s.skip(1)));
    }
}

proof fn lemma_digit_value(d: nat)
    requires
        d < 16,
    ensures
        hex_value(digit(d)) == Some(d),
{
}

proof fn lemma_escaped_char_value(c: char, rest: Seq<char>)
    ensures
        literal_value(escaped_char(c) + rest) == with_first(c, literal_value(rest)),
{
    let t = escaped_char(c) + rest;
    assert(t.skip(escaped_char(c).len() as int) =~= rest);
    if c != '\\' && c != '"' && c != '\n' && c != '\r' && c != '\t' && is_control(c) {
        let code = c as u32;
        lemma_digit_value((code / 16) as nat);
        lemma_digit_value((code % 16) as nat);
        assert(16 * (code / 16) + code % 16 == code);
        assert(t[5] == digit((code / 16) as nat));
        assert(t[6] == digit((code % 16) as nat));
    }
}

/// A literal stands for the string that it was written for.
pub proof fn law_literal_reads_back(s: Seq<char>)
    ensures
        literal_value(escaped(s)) == Some(s),
    decreases s.len(),
{
    if s.len() > 0 {
        lemma_escaped_first(s);
        law_literal_reads_back(s.skip(1));
        lemma_escaped_char_value(s[0], escaped(s.skip(1)));
        assert(seq![s[0]] + s.skip(1) =~= s);
    } else {
        assert(s =~= Seq::<char>::empty());
    }
}

/// Different strings are written differently.
pub proof fn law_literals_differ(a: Seq<char>, b: Seq<char>)
    requires
        escaped(a) == escaped(b),
    ensures
        a == b,
{
    law_literal_reads_back(a);
    law_literal_reads_back(b);
}

// ----------------------------------------------------------------------------
// The manifest
// ----------------------------------------------------------------------------

/// A path as the manifest writes it, between the quotes.
pub open spec fn path_literal(path: Seq<Seq<char>>) -> Seq<char> {
    escaped(with_char_replaced(joined(path, "/"@), '\\', '/'))
}

/// The paths of a topic as the manifest writes them.
pub open spec fn path_list(paths: Seq<TargetPath>) -> Seq<char>
    decreases paths.len(),
{
    if paths.len() == 0 {
        Seq::empty()
    } else {
        path_list(paths.drop_last()) + (if paths.len() == 1 {
            "\""@
        } else {
            ", \""@
        }) + path_literal(paths.last()@) + "\""@
    }
}

/// The line of a root, where there is one.
pub open spec fn root_line(root: Option<TargetPath>) -> Seq<char> {
    match root {
        Some(root) => "            root = \""@ + path_literal(root@) + "\",\n"@,
        None => Seq::empty(),
    }
}

/// Whether `c` can stand in a name of Lua; a digit cannot stand at its front.
pub open spec fn is_name_char(c: char, front: bool) -> bool {
    'a' <= c <= 'z' || 'A' <= c <= 'Z' || c == '_' || (!front && '0' <= c <= '9')
}

/// Whether Lua keeps a name for itself.
pub open spec fn is_keyword(name: Seq<char>) -> bool {
    ||| name == "and"@
    ||| name == "break"@
    ||| name == "do"@
    ||| name == "else"@
    ||| name == "elseif"@
    ||| name == "end"@
    ||| name == "false"@
    ||| name == "for"@
    ||| name == "function"@
    ||| name == "goto"@
    ||| name == "if"@
    ||| name == "in"@
    ||| name == "local"@
    ||| name == "nil"@
    ||| name == "not"@
    ||| name == "or"@
    ||| name == "repeat"@
    ||| name == "return"@
    ||| name == "then"@
    ||| name == "true"@
    ||| name == "until"@
    ||| name == "while"@
}

/// Whether text is a name of Lua, which can be a key as it is.
pub open spec fn is_name(text: Seq<char>) -> bool {
    &&& text.len() > 0
    &&& !is_keyword(text)
    &&& forall|i: int| 0 <= i < text.len() ==> is_name_char(#[trigger] text[i], i == 0)
}

/// The name of a topic as a key: as it is, where it is a name of Lua, or else as a literal.
pub open spec fn topic_key(name: Seq<char>) -> Seq<char> {
    if is_name(name) {
        name
    } else {
        "[\""@ + escaped(name) + "\"]"@
    }
}

/// A topic as the manifest writes it.
pub open spec fn topic_block(topic: MigratedTopic) -> Seq<char> {
    "        "@ + topic_key(topic.name@) + " = {\n"@ + root_line(topic.group.root)
        + "            paths = {"@ + path_list(topic.group.paths@) + "}\n"@ + "        },\n"@
}

/// The topics as the manifest writes them.
pub open spec fn topic_blocks(topics: Seq<MigratedTopic>) -> Seq<char>
    decreases topics.len(),
{
    if topics.len() == 0 {
        Seq::empty()
    } else {
        topic_blocks(topics.drop_last()) + topic_block(topics.last())
    }
}

/// The text of the manifest of these topics.
pub open spec fn manifest_of(topics: Seq<MigratedTopic>) -> Seq<char> {
    "return {\n"@ + "    topics = {\n"@ + topic_blocks(topics) + "    }\n"@ + "}\n"@
}

fn write_path(path: &TargetPath) -> (r: String)
    ensures
        r@ == path_literal(path@),
{
    let text = path.text();
    let slashed = replace_char(text.as_str(), '\\', '/');
    escape_lua_string(slashed.as_str())
}

fn write_paths(paths: &Vec<TargetPath>) -> (r: String)
    ensures
        r@ == path_list(paths@),
{
    let mut buf = String::new();
    assert(paths@.take(0) =~= Seq::<TargetPath>::empty());
    for i in 0..paths.len()
        invariant
            buf@ == path_list(paths@.take(i as int)),
    {
        if i == 0 {
            buf.append("\"");
        } else {
            buf.append(", \"");
        }
        let literal = write_path(&paths[i]);
        buf.append(literal.as_str());
        buf.append("\"");
        assert(paths@.take(i + 1).drop_last() =~= paths@.take(i as int));
    }
    assert(paths@.take(paths@.len() as int) =~= paths@);
    buf
}

fn write_root(root: &Option<TargetPath>) -> (r: String)
    ensures
        r@ == root_line(*root),
{
    match root {
        Some(root) => {
            let mut buf = "            root = \"".to_owned();
            let literal = write_path(root);
            buf.append(literal.as_str());
            buf.append("\",\n");
            buf
        },
        None => String::new(),
    }
}

fn keyword(name: &str) -> (r: bool)
    ensures
        r == is_keyword(name@),
{
    same(name, "and")
        || same(name, "break")
        || same(name, "do")
        || same(name, "else")
        || same(name, "elseif")
        || same(name, "end")
        || same(name, "false")
        || same(name, "for")
        || same(name, "function")
        || same(name, "goto")
        || same(name, "if")
        || same(name, "in")
        || same(name, "local")
        || same(name, "nil")
        || same(name, "not")
        || same(name, "or")
        || same(name, "repeat")
        || same(name, "return")
        || same(name, "then")
        || same(name, "true")
        || same(name, "until")
        || same(name, "while")
}

fn lua_name(text: &str) -> (r: bool)
    ensures
        r == is_name(text@),
{
    let chars = chars_of(text);
    if chars.len() == 0 || keyword(text) {
        return false;
    }
    for i in 0..chars.len()
        invariant
            chars@ == text@,
            forall|k: int| 0 <= k < i ==> is_name_char(#[trigger] chars@[k], k == 0),
    {
        let c = chars[i];
        let letter = 'a' <= c && c <= 'z' || 'A' <= c && c <= 'Z' || c == '_';
        let number = i > 0 && '0' <= c && c <= '9';
        if !letter && !number {
            assert(!is_name_char(text@[i as int], i == 0));
            return false;
        }
    }
    true
}

fn write_key(name: &str) -> (r: String)
    ensures
        r@ == topic_key(name@),
{
    if lua_name(name) {
        name.to_owned()
    } else {
        "[\"".to_owned().concat(escape_lua_string(name).as_str()).concat("\"]")
    }
}

fn write_topic(topic: &MigratedTopic) -> (r: String)
    ensures
        r@ == topic_block(*topic),
{
    let mut buf = "        ".to_owned();
    let key = write_key(topic.name.as_str());
    buf.append(key.as_str());
    buf.append(" = {\n");
    let root = write_root(&topic.group.root);
    buf.append(root.as_str());
    buf.append("            paths = {");
    let paths = write_paths(&topic.group.paths);
    buf.append(paths.as_str());
    buf.append("}\n");
    buf.append("        },\n");
    buf
}

/// Writes the manifest of these topics.
pub fn manifest_text(topics: &Vec<MigratedTopic>) -> (r: String)
    ensures
        r@ == manifest_of(topics@),
{
    let mut buf = "return {\n".to_owned();
    buf.append("    topics = {\n");
    let ghost head = buf@;
    assert(topics@.take(0) =~= Seq::<MigratedTopic>::empty());
    assert(head + topic_blocks(topics@.take(0)) =~= head);
    for i in 0..topics.len()
        invariant
            buf@ == head + topic_blocks(topics@.take(i as int)),
    {
        let block = write_topic(&topics[i]);
        buf.append(block.as_str());
        assert(topics@.take(i + 1).drop_last() =~= topics@.take(i as int));
        assert(buf@ =~= head + topic_blocks(topics@.take(i + 1)));
    }
    assert(topics@.take(topics@.len() as int) =~= topics@);
    buf.append("    }\n");
    buf.append("}\n");
    buf
}

/// Why no manifest is generated: what was written is no valid manifest.
#[derive(Debug)]
pub struct GenerateError {
    pub error: ManifestError,
}

impl GenerateError {
    /// The text of the error.
    pub open spec fn text(&self) -> Seq<char> {
        "generated manifest failed validation — this is a bug"@
    }

    /// The text of the error.
    pub fn message(&self) -> (r: String)
        ensures
            r@ == self.text(),
    {
        "generated manifest failed validation — this is a bug".to_owned()
    }
}

/// Whether `loaded` can be what comes of a manifest when it is loaded.
pub open spec fn may_load(
    lua: mlua::Lua,
    content: Seq<u8>,
    loaded: Result<Manifest, ManifestError>,
) -> bool {
    exists|slice: &[u8]| slice@ == content && #[trigger] is_loaded(lua, slice, None, loaded)
}

/// Writes the manifest of these topics, and validates it by loading it.
pub fn generate_manifest(lua: mlua::Lua, topics: &Vec<MigratedTopic>) -> (r: Result<
    Vec<u8>,
    GenerateError,
>)
    ensures
        exists|loaded: Result<Manifest, ManifestError>| #[trigger]
            may_load(lua, encode_utf8(manifest_of(topics@)), loaded) && match (loaded, r) {
                (Ok(_), Ok(bytes)) => bytes@ == encode_utf8(manifest_of(topics@)),
                (Err(error), Err(e)) => e.error == error,
                _ => false,
            },
{
    let bytes = bytes_of(manifest_text(topics).as_str());
    let loaded = Manifest::load(lua, bytes.as_slice());
    assert(may_load(lua, bytes@, loaded));
    match loaded {
        Ok(_) => Ok(bytes),
        Err(error) => Err(GenerateError { error }),
    }
}

// ----------------------------------------------------------------------------
// Laws
// ----------------------------------------------------------------------------

/// A path as a manifest has it: with slashes between its components.
pub open spec fn path_text(path: Seq<Seq<char>>) -> Seq<char> {
    with_char_replaced(joined(path, "/"@), '\\', '/')
}

/// Whether a topic has the name, the root and the paths of a migrated one.
pub open spec fn has_content_of(topic: Topic, migrated: MigratedTopic) -> bool {
    &&& topic.name@ == migrated.name@
    &&& text_view(topic.root) == match migrated.group.root {
        Some(root) => Some(path_text(root@)),
        None => None,
    }
    &&& topic.paths@.len() == migrated.group.paths@.len()
    &&& forall|k: int|
        0 <= k < topic.paths@.len() ==> (#[trigger] topic.paths@[k])@ == path_text(
            migrated.group.paths@[k]@,
        )
}

/// Whether a topic is one of the migrated ones.
pub open spec fn is_held(topic: Topic, migrated: Seq<MigratedTopic>) -> bool {
    exists|j: int| 0 <= j < migrated.len() && has_content_of(topic, #[trigger] migrated[j])
}

/// Whether a migrated topic is among these.
pub open spec fn holds(topics: Seq<Topic>, migrated: MigratedTopic) -> bool {
    exists|i: int| 0 <= i < topics.len() && has_content_of(#[trigger] topics[i], migrated)
}

/// Whether a topic is made of the strings that the literals of a migrated topic stand for.
pub open spec fn is_read_of(lua: mlua::Lua, topic: Topic, migrated: MigratedTopic) -> bool {
    exists|name: Seq<char>, paths: Seq<String>, fields: Seq<Field>|
        {
            &&& #[trigger] is_made_topic(
                lua,
                name,
                paths,
                fields,
                None,
                Ok::<Topic, ManifestError>(topic),
            )
            &&& if is_name(migrated.name@) {
                name == migrated.name@
            } else {
                literal_value(escaped(migrated.name@)) == Some(name)
            }
            &&& root_text(field_of(fields, "root"@)) == match migrated.group.root {
                Some(root) => literal_value(path_literal(root@)),
                None => None,
            }
            &&& paths.len() == migrated.group.paths@.len()
            &&& forall|k: int|
                0 <= k < paths.len() ==> literal_value(path_literal(migrated.group.paths@[k]@))
                    == Some((#[trigger] paths[k])@)
        }
}

/// Whether a topic is made of the literals of one of the migrated ones.
pub open spec fn has_source(lua: mlua::Lua, topic: Topic, migrated: Seq<MigratedTopic>) -> bool {
    exists|j: int| 0 <= j < migrated.len() && is_read_of(lua, topic, #[trigger] migrated[j])
}

/// Whether one of the topics is made of the literals of a migrated one.
pub open spec fn is_source(lua: mlua::Lua, read: Seq<Topic>, migrated: MigratedTopic) -> bool {
    exists|i: int| 0 <= i < read.len() && is_read_of(lua, #[trigger] read[i], migrated)
}

/// Whether a manifest may hold a migrated topic: its root and its paths are portable and stay
/// below where they are put, and its root is not empty.
pub open spec fn can_be_held(migrated: MigratedTopic) -> bool {
    &&& migrated.group.root matches Some(root) ==> path_text(root@).len() > 0 && portable(
        path_text(root@),
    ) && is_relative(path_text(root@), PathKind::Root)
    &&& forall|k: int|
        0 <= k < migrated.group.paths@.len() ==> portable(
            path_text((#[trigger] migrated.group.paths@[k])@),
        ) && is_relative(path_text(migrated.group.paths@[k]@), PathKind::Path)
}

proof fn lemma_read_topic(lua: mlua::Lua, topic: Topic, migrated: MigratedTopic)
    requires
        is_read_of(lua, topic, migrated),
    ensures
        has_content_of(topic, migrated),
        can_be_held(migrated) ==> is_portable_topic(topic) && is_valid_topic(topic),
{
    law_literal_reads_back(migrated.name@);
    if let Some(root) = migrated.group.root {
        law_literal_reads_back(path_text(root@));
    }
    assert forall|k: int| 0 <= k < topic.paths@.len() implies (#[trigger] topic.paths@[k])@
        == path_text(migrated.group.paths@[k]@) by {
        law_literal_reads_back(path_text(migrated.group.paths@[k]@));
    }
    if can_be_held(migrated) {
        assert forall|k: int| 0 <= k < topic.paths@.len() implies #[trigger] path_is_valid(
            topic,
            k,
        ) by {
            assert(topic.paths@[k]@ == path_text(migrated.group.paths@[k]@));
        }
        assert forall|k: int| 0 <= k < topic.paths@.len() implies portable(
            (#[trigger] topic.paths@[k])@,
        ) by {
            assert(topic.paths@[k]@ == path_text(migrated.group.paths@[k]@));
        }
    }
}

proof fn lemma_same_topics(a: Seq<Topic>, b: Seq<Topic>, i: int) -> (k: int)
    requires
        a.to_multiset() == b.to_multiset(),
        0 <= i < a.len(),
    ensures
        0 <= k < b.len(),
        b[k] == a[i],
{
    a.to_multiset_ensures();
    b.to_multiset_ensures();
    assert(a.contains(a[i]));
    assert(a.to_multiset().count(a[i]) > 0);
    assert(b.to_multiset().count(a[i]) > 0);
    assert(b.contains(a[i]));
    choose|k: int| 0 <= k < b.len() && b[k] == a[i]
}

/// A generated manifest loads back to its topics, as far as Lua reads its literals as the strings
/// that they stand for: where the topics that come of its tables are those of the literals, they
/// make a manifest, which has them with their names, roots and paths.
pub proof fn law_generated_topics_load_back(
    lua: mlua::Lua,
    migrated: Seq<MigratedTopic>,
    read: Seq<Topic>,
    should_include: Option<mlua::Function>,
    r: Result<Manifest, ManifestError>,
)
    requires
        forall|j: int| 0 <= j < migrated.len() ==> can_be_held(#[trigger] migrated[j]),
        forall|i: int| 0 <= i < read.len() ==> #[trigger] has_source(lua, read[i], migrated),
        forall|j: int| 0 <= j < migrated.len() ==> #[trigger] is_source(lua, read, migrated[j]),
        is_manifest_of(lua, read, should_include, r),
    ensures
        r is Ok,
        in_order(r->Ok_0.topics@),
        forall|i: int|
            0 <= i < r->Ok_0.topics@.len() ==> #[trigger] is_held(r->Ok_0.topics@[i], migrated),
        forall|j: int|
            0 <= j < migrated.len() ==> #[trigger] holds(r->Ok_0.topics@, migrated[j]),
{
    assert forall|i: int| 0 <= i < read.len() implies is_portable_topic(#[trigger] read[i])
        && is_valid_topic(read[i]) by {
        assert(has_source(lua, read[i], migrated));
        let j = choose|j: int|
            0 <= j < migrated.len() && is_read_of(lua, read[i], #[trigger] migrated[j]);
        lemma_read_topic(lua, read[i], migrated[j]);
    }
    if r is Err {
        let (sorted, i) = choose|sorted: Seq<Topic>, i: int|
            in_order(sorted) && sorted.to_multiset() == read.to_multiset() && 0 <= i < sorted.len()
                && !is_valid_topic(#[trigger] sorted[i]);
        let k = lemma_same_topics(sorted, read, i);
        assert(is_valid_topic(read[k]));
    }
    let topics = r->Ok_0.topics@;
    assert forall|i: int| 0 <= i < topics.len() implies #[trigger] is_held(
        topics[i],
        migrated,
    ) by {
        let k = lemma_same_topics(topics, read, i);
        assert(has_source(lua, read[k], migrated));
        let j = choose|j: int|
            0 <= j < migrated.len() && is_read_of(lua, read[k], #[trigger] migrated[j]);
        lemma_read_topic(lua, read[k], migrated[j]);
    }
    assert forall|j: int| 0 <= j < migrated.len() implies #[trigger] holds(
        topics,
        migrated[j],
    ) by {
        assert(is_source(lua, read, migrated[j]));
        let k = choose|k: int|
            0 <= k < read.len() && is_read_of(lua, #[trigger] read[k], migrated[j]);
        lemma_read_topic(lua, read[k], migrated[j]);
        let i = lemma_same_topics(read, topics, k);
        assert(has_content_of(topics[i], migrated[j]));
    }
}

/// The manifest has the topics one by one, in their order: those of a list that is put together
/// are those of its parts.
pub proof fn law_topics_are_written_one_by_one(a: Seq<MigratedTopic>, b: Seq<MigratedTopic>)
    ensures
        topic_blocks(a + b) == topic_blocks(a) + topic_blocks(b),
        manifest_of(a + b) == manifest_of(Seq::empty()).take(
            ("return {\n"@ + "    topics = {\n"@).len() as int,
        ) + topic_blocks(a) + topic_blocks(b) + "    }\n"@ + "}\n"@,
    decreases b.len(),
{
    if b.len() == 0 {
        assert(a + b =~= a);
        assert(topic_blocks(a) + topic_blocks(b) =~= topic_blocks(a));
    } else {
        law_topics_are_written_one_by_one(a, b.drop_last());
        assert((a + b).drop_last() =~= a + b.drop_last());
        assert((a + b).last() == b.last());
        assert(topic_blocks(a + b) =~= topic_blocks(a) + topic_blocks(b));
    }
    let head = "return {\n"@ + "    topics = {\n"@;
    assert(manifest_of(Seq::empty()).take(head.len() as int) =~= head);
    assert(manifest_of(a + b) =~= head + topic_blocks(a) + topic_blocks(b) + "    }\n"@ + "}\n"@);
}

/// A topic is written with its key, its root where it has one, and all its paths, each between
/// quotes and with a comma between two of them.
pub proof fn law_topics_are_written_whole(
    topic: MigratedTopic,
    a: Seq<TargetPath>,
    b: Seq<TargetPath>,
    path: TargetPath,
)
    requires
        topic.group.paths@ == a + b,
    ensures
        topic_blocks(seq![topic]) == "        "@ + topic_key(topic.name@) + " = {\n"@ + (
        match topic.group.root {
            Some(root) => "            root = \""@ + path_literal(root@) + "\",\n"@,
            None => ""@,
        }) + "            paths = {"@ + path_list(a + b) + "}\n"@ + "        },\n"@,
        path_list(Seq::empty()) == ""@,
        path_list(seq![path]) == "\""@ + path_literal(path@) + "\""@,
        a.len() > 0 && b.len() > 0 ==> path_list(a + b) == path_list(a) + ", "@ + path_list(b),
{
    reveal_with_fuel(topic_blocks, 2);
    reveal_with_fuel(path_list, 2);
    reveal_strlit("");
    assert(""@ =~= Seq::empty());
    assert(seq![topic].drop_last() =~= Seq::empty());
    assert(seq![path].drop_last() =~= Seq::empty());
    assert(topic_blocks(seq![topic]) =~= topic_block(topic));
    assert(path_list(seq![path]) =~= "\""@ + path_literal(path@) + "\""@);
    if a.len() > 0 && b.len() > 0 {
        lemma_path_lists(a, b);
    }
}

proof fn lemma_path_lists(a: Seq<TargetPath>, b: Seq<TargetPath>)
    requires
        a.len() > 0,
        b.len() > 0,
    ensures
        path_list(a + b) == path_list(a) + ", "@ + path_list(b),
    decreases b.len(),
{
    reveal_strlit("\"");
    reveal_strlit(", \"");
    reveal_strlit(", ");
    assert(", \""@ =~= ", "@ + "\""@);
    let less = b.drop_last();
    assert((a + b).drop_last() =~= a + less);
    assert((a + b).last() == b.last());
    if less.len() == 0 {
        assert(a + less =~= a);
        assert(path_list(less) =~= Seq::empty());
    } else {
        lemma_path_lists(a, less);
    }
    assert(path_list(a + b) =~= path_list(a) + ", "@ + path_list(b));
}

/// A key that is written as it is has only letters, digits and underscores, no digit at its front,
/// and is no word that Lua keeps. Every other key is written as a literal, which stands for it.
pub proof fn law_keys_can_be_read(name: Seq<char>)
    ensures
        topic_key(name) == name || topic_key(name) == "[\""@ + escaped(name) + "\"]"@
            && literal_value(escaped(name)) == Some(name),
        name.len() == 0 || '0' <= name[0] <= '9' ==> topic_key(name) != name,
        topic_key(name) == name ==> forall|i: int|
            0 <= i < name.len() ==> {
                ||| 'a' <= #[trigger] name[i] <= 'z'
                ||| 'A' <= name[i] <= 'Z'
                ||| '0' <= name[i] <= '9'
                ||| name[i] == '_'
            },
        name == "and"@ || name == "break"@ || name == "do"@ || name == "else"@ || name == "elseif"@
            || name == "end"@ || name == "false"@ || name == "for"@ || name == "function"@ || name
            == "goto"@ || name == "if"@ || name == "in"@ || name == "local"@ || name == "nil"@
            || name == "not"@ || name == "or"@ || name == "repeat"@ || name == "return"@ || name
            == "then"@ || name == "true"@ || name == "until"@ || name == "while"@ ==> topic_key(
            name,
        ) != name,
{
    reveal_strlit("[\"");
    reveal_strlit("\"]");
    law_literal_reads_back(name);
    let quoted = "[\""@ + escaped(name) + "\"]"@;
    lemma_escaped_len(name);
    assert(quoted.len() > name.len());
}

proof fn lemma_escaped_len(s: Seq<char>)
    ensures
        escaped(s).len() >= s.len(),
    decreases s.len(),
{
    if s.len() > 0 {
        lemma_escaped_len(s.drop_last());
    }
}

/// The literal of a path of plain names stands for text that reads back as these names.
pub proof fn law_path_literals_read_back(path: Seq<Seq<char>>)
    requires
        forall|k: int|
            0 <= k < path.len() ==> is_plain(#[trigger] path[k]) && !path[k].contains('\\'),
    ensures
        literal_value(path_literal(path)) is Some,
        path_parts(literal_value(path_literal(path))->Some_0) == path,
{
    let text = joined(path, "/"@);
    law_written_paths_read_back(path);
    lemma_no_backslash(path);
    assert(with_char_replaced(text, '\\', '/') =~= text) by {
        assert forall|i: int| 0 <= i < text.len() implies with_char_replaced(text, '\\', '/')[i]
            == text[i] by {
            assert(text.contains(text[i]));
        }
    }
    law_literal_reads_back(text);
}

proof fn lemma_no_backslash(path: Seq<Seq<char>>)
    requires
        forall|k: int| 0 <= k < path.len() ==> !(#[trigger] path[k]).contains('\\'),
    ensures
        !joined(path, "/"@).contains('\\'),
    decreases path.len(),
{
    reveal_strlit("/");
    let text = joined(path, "/"@);
    if path.len() >= 2 {
        let less = path.drop_last();
        assert forall|k: int| 0 <= k < less.len() implies !(#[trigger] less[k]).contains('\\') by {
            assert(less[k] == path[k]);
        }
        lemma_no_backslash(less);
        let front = joined(less, "/"@);
        assert(!path[path.len() - 1].contains('\\'));
        assert forall|i: int| 0 <= i < text.len() implies text[i] != '\\' by {
            if i < front.len() {
                assert(text[i] == front[i]);
                assert(front.contains(front[i]));
            } else if i > front.len() {
                assert(text[i] == path.last()[i - front.len() - 1]);
                assert(path.last().contains(path.last()[i - front.len() - 1]));
            }
        }
    } else if path.len() == 1 {
        assert(text == path[0]);
    }
}

} // verus!
