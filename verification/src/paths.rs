//! Paths as the lists of their components.

use vstd::prelude::*;

use crate::order::Keyed;
use crate::text::{
    before, copied, join, joined, lemma_text_total, lemma_text_transitive, same, text_before, text_view,
    views,
};

verus! {

/// A path: the names of its components, from the top down.
#[derive(Debug)]
pub struct TargetPath {
    pub parts: Vec<String>,
}

impl View for TargetPath {
    type V = Seq<Seq<char>>;

    open spec fn view(&self) -> Seq<Seq<char>> {
        views(self.parts@)
    }
}

// ----------------------------------------------------------------------------
// Text and components
// ----------------------------------------------------------------------------

/// Whether `text` means the same path on every platform: it has no backslash, no colon, and
/// does not begin with two slashes.
pub open spec fn portable(text: Seq<char>) -> bool {
    &&& !text.contains('\\')
    &&& !text.contains(':')
    &&& !(text.len() >= 2 && text[0] == '/' && text[1] == '/')
}

/// Whether text starts with a slash, which is a root on every platform.
pub open spec fn starts_at_root(text: Seq<char>) -> bool {
    text.len() > 0 && text[0] == '/'
}

/// The pieces of `text` between slashes, without the empty ones.
pub open spec fn pieces(text: Seq<char>) -> Seq<Seq<char>>
    decreases text.len(),
{
    if text.len() == 0 {
        Seq::empty()
    } else {
        let before = pieces(text.drop_last());
        if text.last() == '/' {
            before
        } else if text.len() == 1 || text[text.len() - 2] == '/' {
            before.push(seq![text.last()])
        } else {
            before.drop_last().push(before.last().push(text.last()))
        }
    }
}

/// The components of a portable path: a root or a leading dot, then every other piece but
/// the dots.
pub open spec fn path_parts(text: Seq<char>) -> Seq<Seq<char>> {
    let named = pieces(text).filter(|p: Seq<char>| p != "."@);
    if text.len() > 0 && text[0] == '/' {
        seq!["/"@] + named
    } else if pieces(text).len() > 0 && pieces(text)[0] == "."@ {
        seq!["."@] + named
    } else {
        named
    }
}

/// Whether a character separates components on some platform.
pub open spec fn is_separator(c: char) -> bool {
    c == '/' || c == '\\'
}

/// Whether text leads upwards on every platform: it has two dots between slashes, and does not
/// begin with two separators, behind which some platform may see no components.
pub open spec fn leads_up(text: Seq<char>) -> bool {
    &&& pieces(text).contains(".."@)
    &&& !(text.len() >= 2 && is_separator(text[0]) && is_separator(text[1]))
}

/// Splits a path into its components with `camino::Utf8Path::components`, a root as `/`.
///
/// The claim covers portable text, and of other text that two dots between slashes are a
/// component, unless it begins with two separators. How else it is split depends on the platform
/// that the program is built for.
#[verifier::external_body]
fn split_components(text: &str) -> (r: Vec<String>)
    ensures
        portable(text@) ==> views(r@) == path_parts(text@),
        leads_up(text@) ==> views(r@).contains(".."@),
{
    camino::Utf8Path::new(text)
        .components()
        .map(|c| match c {
            camino::Utf8Component::RootDir => "/".to_owned(),
            named => named.as_str().to_owned(),
        })
        .collect()
}

/// Whether a path is independent of the current directory, by `camino::Utf8Path::is_absolute`.
///
/// The claim covers portable text alone, and only that such a path starts with a slash: whether
/// that is enough depends on the platform that the program is built for.
#[verifier::external_body]
fn is_absolute(text: &str) -> (r: bool)
    ensures
        portable(text@) && r ==> starts_at_root(text@),
{
    camino::Utf8Path::new(text).is_absolute()
}

/// Whether a path has a root, by `camino::Utf8Path::has_root`.
///
/// The claim is that text that starts with a slash has one, and that other portable text has
/// none. What else is a root depends on the platform that the program is built for.
#[verifier::external_body]
fn has_root(text: &str) -> (r: bool)
    ensures
        starts_at_root(text@) ==> r,
        portable(text@) ==> r == starts_at_root(text@),
{
    camino::Utf8Path::new(text).has_root()
}

/// What a path is below another, by `camino::Utf8Path::strip_prefix`; `None` where it is not
/// below it.
///
/// The claim covers portable text alone: how other text is compared depends on the platform that
/// the program is built for.
#[verifier::external_body]
fn strip_prefix(text: &str, base: &str) -> (r: Option<String>)
    ensures
        portable(text@) && portable(base@) ==> match r {
            Some(rest) => portable(rest@) && path_parts(text@) == path_parts(base@) + path_parts(
                rest@,
            ) && (rest@.len() == 0 <==> path_parts(rest@).len() == 0),
            None => !path_parts(base@).is_prefix_of(path_parts(text@)),
        },
{
    camino::Utf8Path::new(text).strip_prefix(base).ok().map(|rest| rest.as_str().to_owned())
}

/// Whether `parts` can be the components of a path, where the program runs.
pub closed spec fn may_have_parts(text: Seq<char>, parts: Seq<Seq<char>>) -> bool {
    exists|t: &str, list: Vec<String>|
        t@ == text && views(list@) == parts && #[trigger] call_ensures(
            split_components,
            (t,),
            list,
        )
}

/// Whether `rooted` can tell whether a path is absolute or has a root, where the program runs.
pub closed spec fn may_be_rooted(text: Seq<char>, rooted: bool) -> bool {
    exists|t: &str, absolute: bool, with_root: bool|
        t@ == text && rooted == (absolute || with_root) && #[trigger] call_ensures(
            is_absolute,
            (t,),
            absolute,
        ) && #[trigger] call_ensures(has_root, (t,), with_root)
}

/// Whether `rest` can be what a path is below another, where the program runs.
pub closed spec fn may_be_below(
    text: Seq<char>,
    base: Seq<char>,
    rest: Option<Seq<char>>,
) -> bool {
    exists|t: &str, b: &str, r: Option<String>|
        t@ == text && b@ == base && rest == text_view(r) && #[trigger] call_ensures(
            strip_prefix,
            (t, b),
            r,
        )
}

/// Whether a path is absolute or has a root.
pub fn is_rooted(text: &str) -> (r: bool)
    ensures
        may_be_rooted(text@, r),
        starts_at_root(text@) ==> r,
        portable(text@) ==> r == starts_at_root(text@),
{
    let absolute = is_absolute(text);
    let with_root = has_root(text);
    absolute || with_root
}

/// What a path is below another; `None` where it is not below it.
pub fn relative_to(text: &str, base: &str) -> (r: Option<String>)
    ensures
        may_be_below(text@, base@, text_view(r)),
        portable(text@) && portable(base@) ==> match r {
            Some(rest) => portable(rest@) && path_parts(text@) == path_parts(base@) + path_parts(
                rest@,
            ) && (rest@.len() == 0 <==> path_parts(rest@).len() == 0),
            None => !path_parts(base@).is_prefix_of(path_parts(text@)),
        },
{
    strip_prefix(text, base)
}

/// What is known of any path: one that starts with a slash is rooted.
pub proof fn lemma_slash_is_a_root(text: Seq<char>, rooted: bool)
    requires
        may_be_rooted(text, rooted),
    ensures
        starts_at_root(text) ==> rooted,
        portable(text) ==> rooted == starts_at_root(text),
{
}

/// What is known of the components of any path: two dots between slashes are one.
pub proof fn lemma_dots_are_a_part(text: Seq<char>, parts: Seq<Seq<char>>)
    requires
        may_have_parts(text, parts),
    ensures
        leads_up(text) ==> parts.contains(".."@),
        portable(text) ==> parts == path_parts(text),
{
}

// ----------------------------------------------------------------------------
// The order of paths
// ----------------------------------------------------------------------------

/// The class of a component: a root, a dot, two dots, then every name.
pub open spec fn part_class(part: Seq<char>) -> int {
    if part == "/"@ {
        0
    } else if part == "."@ {
        1
    } else if part == ".."@ {
        2
    } else {
        3
    }
}

/// Whether the component `a` comes before the component `b`: by class, then by name.
pub open spec fn part_before(a: Seq<char>, b: Seq<char>) -> bool {
    part_class(a) < part_class(b) || (part_class(a) == part_class(b) && text_before(a, b))
}

/// Whether the path `a` comes before the path `b`: by the first component in which they differ.
pub open spec fn path_before(a: Seq<Seq<char>>, b: Seq<Seq<char>>) -> bool
    decreases a.len(),
{
    if b.len() == 0 {
        false
    } else if a.len() == 0 {
        true
    } else if a[0] != b[0] {
        part_before(a[0], b[0])
    } else {
        path_before(a.skip(1), b.skip(1))
    }
}

fn class_of(part: &str) -> (r: u8)
    ensures
        r == part_class(part@),
{
    if same(part, "/") {
        0
    } else if same(part, ".") {
        1
    } else if same(part, "..") {
        2
    } else {
        3
    }
}

fn is_part_before(a: &str, b: &str) -> (r: bool)
    ensures
        r == part_before(a@, b@),
{
    let left: u8 = class_of(a);
    let right: u8 = class_of(b);
    left < right || (left == right && before(a, b))
}

proof fn lemma_part_total(a: Seq<char>, b: Seq<char>)
    ensures
        part_before(a, b) || part_before(b, a) || a == b,
        !(part_before(a, b) && part_before(b, a)),
        a == b ==> !part_before(a, b),
{
    lemma_text_total(a, b);
}

proof fn lemma_path_total(a: Seq<Seq<char>>, b: Seq<Seq<char>>)
    ensures
        path_before(a, b) || path_before(b, a) || a == b,
        !(path_before(a, b) && path_before(b, a)),
        a == b ==> !path_before(a, b),
    decreases a.len(),
{
    if a.len() > 0 && b.len() > 0 {
        lemma_part_total(a[0], b[0]);
        if a[0] == b[0] {
            lemma_path_total(a.skip(1), b.skip(1));
            if a.skip(1) == b.skip(1) {
                assert(a == seq![a[0]] + a.skip(1));
                assert(b == seq![b[0]] + b.skip(1));
            }
        }
    } else if a.len() == 0 && b.len() == 0 {
        assert(a == b);
    }
}

proof fn lemma_path_transitive(a: Seq<Seq<char>>, b: Seq<Seq<char>>, c: Seq<Seq<char>>)
    requires
        path_before(a, b),
        path_before(b, c),
    ensures
        path_before(a, c),
    decreases a.len(),
{
    if a.len() > 0 && b.len() > 0 && c.len() > 0 {
        if a[0] == b[0] && b[0] == c[0] {
            lemma_path_transitive(a.skip(1), b.skip(1), c.skip(1));
        } else if a[0] != b[0] && b[0] != c[0] {
            if text_before(a[0], b[0]) && text_before(b[0], c[0]) {
                lemma_text_transitive(a[0], b[0], c[0]);
            }
            lemma_part_total(a[0], c[0]);
            lemma_part_total(a[0], b[0]);
        }
    }
}

impl Keyed for TargetPath {
    type Key = Seq<Seq<char>>;

    open spec fn key(&self) -> Seq<Seq<char>> {
        self@
    }

    open spec fn precedes(a: Seq<Seq<char>>, b: Seq<Seq<char>>) -> bool {
        path_before(a, b)
    }

    fn is_before(&self, other: &Self) -> (r: bool) {
        let mut i: usize = 0;
        assert(self@.skip(0) == self@ && other@.skip(0) == other@);
        loop
            invariant
                i <= self.parts@.len(),
                i <= other.parts@.len(),
                path_before(self@, other@) == path_before(
                    self@.skip(i as int),
                    other@.skip(i as int),
                ),
            decreases self.parts@.len() - i,
        {
            if i == other.parts.len() {
                return false;
            }
            if i == self.parts.len() {
                return true;
            }
            assert(self@.skip(i as int)[0] == self.parts@[i as int]@);
            assert(other@.skip(i as int)[0] == other.parts@[i as int]@);
            if !same(self.parts[i].as_str(), other.parts[i].as_str()) {
                return is_part_before(self.parts[i].as_str(), other.parts[i].as_str());
            }
            assert(self@.skip(i as int).skip(1) == self@.skip(i + 1));
            assert(other@.skip(i as int).skip(1) == other@.skip(i + 1));
            i = i + 1;
        }
    }

    proof fn total(a: Seq<Seq<char>>, b: Seq<Seq<char>>) {
        lemma_path_total(a, b);
    }

    proof fn transitive(a: Seq<Seq<char>>, b: Seq<Seq<char>>, c: Seq<Seq<char>>) {
        lemma_path_transitive(a, b, c);
    }
}

// ----------------------------------------------------------------------------
// Operations
// ----------------------------------------------------------------------------

/// The path `parts` with `name` below it. A dot below a path is that path.
pub open spec fn child_parts(parts: Seq<Seq<char>>, name: Seq<char>) -> Seq<Seq<char>> {
    if name == "."@ && parts.len() > 0 {
        parts
    } else {
        parts.push(name)
    }
}

impl TargetPath {
    /// Reads a path.
    pub fn from_text(text: &str) -> (r: TargetPath)
        ensures
            portable(text@) ==> r@ == path_parts(text@),
            may_have_parts(text@, r@),
    {
        TargetPath { parts: split_components(text) }
    }

    /// The path without components.
    pub fn empty() -> (r: TargetPath)
        ensures
            r@ == Seq::<Seq<char>>::empty(),
    {
        let r = TargetPath { parts: Vec::new() };
        assert(r@ =~= Seq::<Seq<char>>::empty());
        r
    }

    /// A copy of this path.
    pub fn copy(&self) -> (r: TargetPath)
        ensures
            r@ == self@,
    {
        TargetPath { parts: copied(&self.parts) }
    }

    /// The path of `name` below this path.
    pub fn child(&self, name: &str) -> (r: TargetPath)
        ensures
            r@ == child_parts(self@, name@),
    {
        let mut parts = copied(&self.parts);
        if self.parts.len() > 0 && same(name, ".") {
            return TargetPath { parts };
        }
        let ghost before = parts@;
        parts.push(name.to_owned());
        assert(views(parts@) =~= views(before).push(name@));
        TargetPath { parts }
    }

    /// The path of the entry `name` of this directory.
    pub fn below(&self, name: &str) -> (r: TargetPath)
        ensures
            r@ == self@.push(name@),
    {
        let mut parts = copied(&self.parts);
        let ghost before = parts@;
        parts.push(name.to_owned());
        assert(views(parts@) =~= views(before).push(name@));
        TargetPath { parts }
    }

    /// Whether `part` is one of the components.
    pub fn has_part(&self, part: &str) -> (r: bool)
        ensures
            r == self@.contains(part@),
    {
        for i in 0..self.parts.len()
            invariant
                forall|k: int| 0 <= k < i ==> #[trigger] self@[k] != part@,
        {
            if same(self.parts[i].as_str(), part) {
                assert(self@[i as int] == part@);
                return true;
            }
            assert(self@[i as int] != part@);
        }
        false
    }

    /// The first `n` components.
    pub fn prefix(&self, n: usize) -> (r: TargetPath)
        requires
            n <= self@.len(),
        ensures
            r@ == self@.take(n as int),
    {
        self.range(0, n)
    }

    /// The components from `from` up to `to`.
    pub fn range(&self, from: usize, to: usize) -> (r: TargetPath)
        requires
            from <= to <= self@.len(),
        ensures
            r@ == self@.subrange(from as int, to as int),
    {
        let mut parts: Vec<String> = Vec::new();
        for i in from..to
            invariant
                from <= to <= self.parts@.len(),
                views(parts@) == self@.subrange(from as int, i as int),
        {
            let ghost before = parts@;
            parts.push(self.parts[i].clone());
            assert(views(parts@) =~= views(before).push(self.parts@[i as int]@));
            assert(self@.subrange(from as int, i + 1) =~= self@.subrange(
                from as int,
                i as int,
            ).push(self@[i as int]));
        }
        assert(views(parts@) =~= self@.subrange(from as int, to as int));
        TargetPath { parts }
    }

    /// The components of this path, then those of `other`.
    pub fn followed_by(&self, other: &TargetPath) -> (r: TargetPath)
        ensures
            r@ == self@ + other@,
    {
        let mut parts = copied(&self.parts);
        for i in 0..other.parts.len()
            invariant
                views(parts@) == self@ + other@.take(i as int),
        {
            let ghost before = parts@;
            parts.push(other.parts[i].clone());
            assert(views(parts@) =~= views(before).push(other@[i as int]));
            assert(other@.take(i + 1) =~= other@.take(i as int).push(other@[i as int]));
        }
        assert(other@.take(other@.len() as int) =~= other@);
        TargetPath { parts }
    }

    /// How many leading components two paths share.
    pub fn shared_with(&self, other: &TargetPath) -> (r: usize)
        ensures
            r == shared_len(self@, other@),
            r <= self@.len(),
            r <= other@.len(),
            self@.take(r as int) == other@.take(r as int),
    {
        let mut i: usize = 0;
        assert(self@.skip(0) == self@ && other@.skip(0) == other@);
        while i < self.parts.len() && i < other.parts.len() && same(
            self.parts[i].as_str(),
            other.parts[i].as_str(),
        )
            invariant
                i <= self.parts@.len(),
                i <= other.parts@.len(),
                forall|k: int| 0 <= k < i ==> #[trigger] self@[k] == other@[k],
                shared_len(self@, other@) == i + shared_len(
                    self@.skip(i as int),
                    other@.skip(i as int),
                ),
            decreases self.parts@.len() - i,
        {
            assert(self@.skip(i as int).skip(1) == self@.skip(i + 1));
            assert(other@.skip(i as int).skip(1) == other@.skip(i + 1));
            assert(self@[i as int] == other@[i as int]);
            i = i + 1;
        }
        assert(self@.take(i as int) =~= other@.take(i as int));
        i
    }

    /// Whether the two paths are equal.
    pub fn is_same(&self, other: &TargetPath) -> (r: bool)
        ensures
            r == (self@ == other@),
    {
        let n: usize = self.shared_with(other);
        proof {
            lemma_shared_is_longest(self@, other@);
            if n == self@.len() && n == other@.len() {
                assert(self@ =~= self@.take(n as int));
                assert(other@ =~= other@.take(n as int));
            }
            if self@ == other@ {
                assert(self@.is_prefix_of(self@));
            }
        }
        n == self.parts.len() && n == other.parts.len()
    }

    /// Whether this path is `other` or lies below it.
    pub fn is_under(&self, other: &TargetPath) -> (r: bool)
        ensures
            r == other@.is_prefix_of(self@),
    {
        let n: usize = self.shared_with(other);
        proof {
            lemma_shared_is_longest(self@, other@);
        }
        n == other.parts.len()
    }

    /// The components with slashes between them.
    pub fn text(&self) -> (r: String)
        ensures
            r@ == joined(self@, "/"@),
    {
        join(&self.parts, "/")
    }
}

/// How many leading components `a` and `b` share.
pub open spec fn shared_len(a: Seq<Seq<char>>, b: Seq<Seq<char>>) -> nat
    decreases a.len(),
{
    if a.len() > 0 && b.len() > 0 && a[0] == b[0] {
        1 + shared_len(a.skip(1), b.skip(1))
    } else {
        0
    }
}

/// The shared components are a prefix of both paths, and `b` is a prefix of `a` exactly where
/// all of it is shared.
pub proof fn lemma_shared_is_longest(a: Seq<Seq<char>>, b: Seq<Seq<char>>)
    ensures
        shared_len(a, b) <= a.len(),
        shared_len(a, b) <= b.len(),
        a.take(shared_len(a, b) as int) == b.take(shared_len(a, b) as int),
        forall|n: nat|
            n <= a.len() && n <= b.len() && a.take(n as int) == #[trigger] b.take(n as int)
                ==> n <= shared_len(a, b),
        b.is_prefix_of(a) <==> shared_len(a, b) == b.len(),
    decreases a.len(),
{
    if a.len() > 0 && b.len() > 0 && a[0] == b[0] {
        let n = shared_len(a, b);
        lemma_shared_is_longest(a.skip(1), b.skip(1));
        assert(a.take(n as int) =~= seq![a[0]] + a.skip(1).take(n - 1));
        assert(b.take(n as int) =~= seq![b[0]] + b.skip(1).take(n - 1));
        assert forall|m: nat|
            m <= a.len() && m <= b.len() && a.take(m as int) == #[trigger] b.take(m as int)
        implies m <= n by {
            if m > 0 {
                assert(a.skip(1).take(m - 1) =~= a.take(m as int).skip(1));
                assert(b.skip(1).take(m - 1) =~= b.take(m as int).skip(1));
            }
        }
    } else {
        assert(a.take(0) =~= b.take(0));
        assert forall|m: nat|
            m <= a.len() && m <= b.len() && a.take(m as int) == #[trigger] b.take(m as int)
        implies m <= 0 by {
            if m > 0 {
                assert(a.take(m as int)[0] == b.take(m as int)[0]);
            }
        }
    }
    let n = shared_len(a, b);
    if n == b.len() {
        assert(b.take(n as int) =~= b);
        assert(a.subrange(0, b.len() as int) =~= a.take(n as int));
    }
    if b.is_prefix_of(a) {
        assert(a.take(b.len() as int) =~= b.take(b.len() as int));
    }
}

// ----------------------------------------------------------------------------
// Laws
// ----------------------------------------------------------------------------

/// Paths are ordered by the first component in which they differ, by where that leads and then as
/// text, and a path comes before what is below it.
pub proof fn law_paths_are_ordered_by_the_first_difference(
    front: Seq<Seq<char>>,
    c: Seq<char>,
    d: Seq<char>,
    a: Seq<Seq<char>>,
    b: Seq<Seq<char>>,
)
    ensures
        c != d && part_class(c) == part_class(d) ==> (path_before(
            front + seq![c] + a,
            front + seq![d] + b,
        ) <==> text_before(c, d)),
        part_class(c) < part_class(d) ==> path_before(front + seq![c] + a, front + seq![d] + b),
        path_before(front, front + seq![c] + a),
        !path_before(front + seq![c] + a, front),
    decreases front.len(),
{
    let x = front + seq![c] + a;
    let y = front + seq![d] + b;
    if front.len() > 0 {
        law_paths_are_ordered_by_the_first_difference(front.skip(1), c, d, a, b);
        assert(x.skip(1) =~= front.skip(1) + seq![c] + a);
        assert(y.skip(1) =~= front.skip(1) + seq![d] + b);
    }
}

/// Whether a component is a plain name: it is not empty, has no slash and is no dot.
pub open spec fn is_plain(part: Seq<char>) -> bool {
    part.len() > 0 && !part.contains('/') && part != "."@
}

proof fn lemma_pieces_push(text: Seq<char>, name: Seq<char>)
    requires
        text.len() == 0 || text.last() == '/',
        name.len() > 0,
        !name.contains('/'),
    ensures
        pieces(text + name) == pieces(text).push(name),
    decreases name.len(),
{
    let whole = text + name;
    let less = name.drop_last();
    assert(name.contains(name.last()));
    assert(whole.last() == name.last());
    assert(whole.drop_last() =~= text + less);
    if less.len() == 0 {
        assert(text + less =~= text);
        assert(seq![name.last()] =~= name);
    } else {
        assert forall|k: int| 0 <= k < less.len() implies less[k] != '/' by {
            assert(name.contains(name[k]));
        }
        lemma_pieces_push(text, less);
        assert(whole[whole.len() - 2] == less.last());
        assert(name.contains(name[name.len() - 2]));
        assert(pieces(text).push(less).drop_last() =~= pieces(text));
        assert(less.push(name.last()) =~= name);
    }
}

proof fn lemma_joined_pieces(parts: Seq<Seq<char>>)
    requires
        forall|k: int| 0 <= k < parts.len() ==> is_plain(#[trigger] parts[k]),
    ensures
        pieces(joined(parts, "/"@)) == parts,
        parts.len() > 0 ==> joined(parts, "/"@).len() > 0 && joined(parts, "/"@)[0] != '/',
    decreases parts.len(),
{
    reveal_strlit("/");
    let text = joined(parts, "/"@);
    if parts.len() == 0 {
        assert(pieces(text) =~= parts);
    } else if parts.len() == 1 {
        lemma_pieces_push(Seq::empty(), parts[0]);
        assert(Seq::<char>::empty() + parts[0] =~= parts[0]);
        assert(pieces(text) =~= parts);
        assert(parts[0].contains(parts[0][0]));
    } else {
        let less = parts.drop_last();
        assert forall|k: int| 0 <= k < less.len() implies is_plain(#[trigger] less[k]) by {
            assert(less[k] == parts[k]);
        }
        lemma_joined_pieces(less);
        let front = joined(less, "/"@) + "/"@;
        assert(front.drop_last() =~= joined(less, "/"@));
        assert(front.last() == '/');
        assert(pieces(front) == pieces(joined(less, "/"@)));
        assert(is_plain(parts[parts.len() - 1]));
        lemma_pieces_push(front, parts.last());
        assert(text =~= front + parts.last());
        assert(less.push(parts.last()) =~= parts);
        assert(text[0] == joined(less, "/"@)[0]);
    }
}

proof fn lemma_keeps_all(parts: Seq<Seq<char>>)
    requires
        forall|k: int| 0 <= k < parts.len() ==> is_plain(#[trigger] parts[k]),
    ensures
        parts.filter(|p: Seq<char>| p != "."@) == parts,
    decreases parts.len(),
{
    reveal(Seq::filter);
    if parts.len() > 0 {
        let less = parts.drop_last();
        assert forall|k: int| 0 <= k < less.len() implies is_plain(#[trigger] less[k]) by {
            assert(less[k] == parts[k]);
        }
        lemma_keeps_all(less);
        assert(is_plain(parts[parts.len() - 1]));
        assert(less.push(parts.last()) =~= parts);
    } else {
        assert(parts.filter(|p: Seq<char>| p != "."@) =~= parts);
    }
}

/// A path of plain names that is written with slashes between them reads back as these names.
pub proof fn law_written_paths_read_back(parts: Seq<Seq<char>>)
    requires
        forall|k: int| 0 <= k < parts.len() ==> is_plain(#[trigger] parts[k]),
    ensures
        path_parts(joined(parts, "/"@)) == parts,
        !starts_at_root(joined(parts, "/"@)),
{
    lemma_joined_pieces(parts);
    lemma_keeps_all(parts);
    if parts.len() > 0 {
        assert(is_plain(parts[0]));
    }
}

} // verus!
