//! How the paths of a migration fall into topics.

use vstd::prelude::*;

use crate::chezmoi::collapse::{compute_manifest_paths, named, Listing};
use crate::chezmoi::walk::TargetEntry;
use crate::order::{holds_key, rising, Keyed, SortedSet};
use crate::paths::TargetPath;
use crate::text::{is_one_of, same};

verus! {

// ----------------------------------------------------------------------------
// One path
// ----------------------------------------------------------------------------

/// Where a target belongs on every platform: what lies in the application data of Windows
/// belongs in `.config`.
pub open spec fn remapped(path: Seq<Seq<char>>) -> Seq<Seq<char>> {
    if path.len() >= 2 && path[0] == "AppData"@ && (path[1] == "Local"@ || path[1] == "Roaming"@) {
        seq![".config"@] + path.skip(2)
    } else {
        path
    }
}

/// Remaps `AppData/Local` and `AppData/Roaming` to `.config`.
pub fn remap_target_path(path: &TargetPath) -> (r: TargetPath)
    ensures
        r@ == remapped(path@),
{
    if path.parts.len() >= 2 && same(path.parts[0].as_str(), "AppData") && (same(
        path.parts[1].as_str(),
        "Local",
    ) || same(path.parts[1].as_str(), "Roaming")) {
        let config = TargetPath::empty().child(".config");
        let r = config.followed_by(&path.range(2, path.parts.len()));
        assert(r@ =~= seq![".config"@] + path@.skip(2));
        r
    } else {
        path.copy()
    }
}

/// The files of the home directory that belong to shells.
pub open spec fn shell_files() -> Seq<Seq<char>> {
    seq![
        ".bashrc"@,
        ".bash_profile"@,
        ".bash_logout"@,
        ".zshrc"@,
        ".zprofile"@,
        ".zshenv"@,
        ".zlogin"@,
        ".zlogout"@,
        ".profile"@,
        ".inputrc"@,
    ]
}

/// The files of the home directory that belong to git.
pub open spec fn git_files() -> Seq<Seq<char>> {
    seq![".gitconfig"@, ".gitignore_global"@, ".gitattributes_global"@]
}

/// The files of the home directory that belong to vim.
pub open spec fn vim_files() -> Seq<Seq<char>> {
    seq![".vimrc"@, ".nvimrc"@, ".gvimrc"@]
}

/// The topic of a file that lies in the home directory itself.
pub open spec fn home_file_topic(file: Seq<char>) -> Seq<char> {
    if shell_files().contains(file) {
        "shell"@
    } else if git_files().contains(file) {
        "git"@
    } else if file == ".tmux.conf"@ {
        "tmux"@
    } else if vim_files().contains(file) {
        "vim"@
    } else {
        "home"@
    }
}

/// The topic that a path belongs to.
pub open spec fn topic_name(path: Seq<Seq<char>>) -> Seq<char> {
    if path.len() == 1 {
        home_file_topic(path[0])
    } else if path[0] == ".config"@ {
        path[1]
    } else if path[0] == ".ssh"@ {
        "ssh"@
    } else if path[0] == ".local"@ && path[1] == "bin"@ {
        "bin"@
    } else if path.len() >= 3 && path[0] == ".local"@ && path[1] == "share"@ {
        path[2]
    } else if path.len() == 2 {
        path[0]
    } else {
        path[1]
    }
}

fn topic_of_home_file(file: &str) -> (r: String)
    ensures
        r@ == home_file_topic(file@),
{
    let shell = [
        ".bashrc",
        ".bash_profile",
        ".bash_logout",
        ".zshrc",
        ".zprofile",
        ".zshenv",
        ".zlogin",
        ".zlogout",
        ".profile",
        ".inputrc",
    ];
    let git = [".gitconfig", ".gitignore_global", ".gitattributes_global"];
    let vim = [".vimrc", ".nvimrc", ".gvimrc"];
    proof {
        lemma_same_list(file@, shell@, shell_files());
        lemma_same_list(file@, git@, git_files());
        lemma_same_list(file@, vim@, vim_files());
    }
    if is_one_of(file, &shell) {
        "shell".to_owned()
    } else if is_one_of(file, &git) {
        "git".to_owned()
    } else if same(file, ".tmux.conf") {
        "tmux".to_owned()
    } else if is_one_of(file, &vim) {
        "vim".to_owned()
    } else {
        "home".to_owned()
    }
}

proof fn lemma_same_list(file: Seq<char>, list: Seq<&str>, model: Seq<Seq<char>>)
    requires
        list.len() == model.len(),
        forall|i: int| 0 <= i < list.len() ==> #[trigger] list[i]@ == model[i],
    ensures
        model.contains(file) == exists|i: int| 0 <= i < list.len() && #[trigger] list[i]@ == file,
{
    if model.contains(file) {
        let i = choose|i: int| 0 <= i < model.len() && model[i] == file;
        assert(list[i]@ == file);
    }
    if exists|i: int| 0 <= i < list.len() && #[trigger] list[i]@ == file {
        let i = choose|i: int| 0 <= i < list.len() && #[trigger] list[i]@ == file;
        assert(model[i] == file);
    }
}

/// Names the topic that a path belongs to.
pub fn topic_name_for_path(path: &TargetPath) -> (r: String)
    requires
        path@.len() > 0,
    ensures
        r@ == topic_name(path@),
{
    let n: usize = path.parts.len();
    if n == 1 {
        return topic_of_home_file(path.parts[0].as_str());
    }
    let first = path.parts[0].as_str();
    let second = path.parts[1].as_str();
    if same(first, ".config") {
        return path.parts[1].clone();
    }
    if same(first, ".ssh") {
        return "ssh".to_owned();
    }
    if same(first, ".local") && same(second, "bin") {
        return "bin".to_owned();
    }
    if n >= 3 && same(first, ".local") && same(second, "share") {
        return path.parts[2].clone();
    }
    if n == 2 {
        return path.parts[0].clone();
    }
    path.parts[1].clone()
}

// ----------------------------------------------------------------------------
// The paths of one topic
// ----------------------------------------------------------------------------

/// A topic of a migration: its root directory, where it has one, and its paths, which are
/// relative to the root.
#[derive(Debug)]
pub struct TopicGroup {
    pub root: Option<TargetPath>,
    pub paths: Vec<TargetPath>,
}

/// The components of each path of a list.
pub open spec fn path_views(list: Seq<TargetPath>) -> Seq<Seq<Seq<char>>> {
    list.map_values(|p: TargetPath| p@)
}

/// Whether every path of `paths` is `prefix` or lies below it.
pub open spec fn is_common_prefix(paths: Seq<TargetPath>, prefix: Seq<Seq<char>>) -> bool {
    forall|i: int| 0 <= i < paths.len() ==> prefix.is_prefix_of(#[trigger] paths[i]@)
}

/// Whether `prefix` is the longest path that is above each of `paths`.
pub open spec fn is_longest_common_prefix(paths: Seq<TargetPath>, prefix: Seq<Seq<char>>) -> bool {
    is_common_prefix(paths, prefix) && forall|other: Seq<Seq<char>>| #[trigger]
        is_common_prefix(paths, other) ==> other.len() <= prefix.len()
}

/// Finds the longest path above each of two or more paths, unless it is empty.
pub fn find_common_prefix(paths: &Vec<TargetPath>) -> (r: Option<TargetPath>)
    ensures
        match r {
            Some(prefix) => paths@.len() >= 2 && prefix@.len() > 0 && is_longest_common_prefix(
                paths@,
                prefix@,
            ),
            None => paths@.len() < 2 || is_longest_common_prefix(paths@, Seq::empty()),
        },
{
    if paths.len() < 2 {
        return None;
    }
    let first = &paths[0];
    let mut prefix_len: usize = first.parts.len();
    assert(first@.take(first@.len() as int) =~= first@);
    let mut i: usize = 1;
    while i < paths.len()
        invariant
            1 <= i <= paths@.len(),
            *first == paths@[0],
            prefix_len <= first@.len(),
            forall|k: int|
                0 <= k < i ==> first@.take(prefix_len as int).is_prefix_of(#[trigger] paths@[k]@),
            forall|other: Seq<Seq<char>>| #[trigger]
                is_common_prefix(paths@, other) ==> other.len() <= prefix_len,
        decreases paths.len() - i,
    {
        let common: usize = first.shared_with(&paths[i]);
        let ghost before = prefix_len;
        proof {
            crate::paths::lemma_shared_is_longest(first@, paths@[i as int]@);
            assert forall|other: Seq<Seq<char>>| #[trigger]
                is_common_prefix(paths@, other) implies other.len() <= common by {
                assert(other.is_prefix_of(paths@[0]@));
                assert(other.is_prefix_of(paths@[i as int]@));
                assert(first@.take(other.len() as int) =~= paths@[i as int]@.take(
                    other.len() as int,
                ));
            }
        }
        if common < prefix_len {
            prefix_len = common;
        }
        assert forall|k: int| 0 <= k < i + 1 implies first@.take(prefix_len as int).is_prefix_of(
            #[trigger] paths@[k]@,
        ) by {
            let short = first@.take(prefix_len as int);
            if k < i {
                assert(first@.take(before as int).is_prefix_of(paths@[k]@));
                assert(short =~= first@.take(before as int).take(prefix_len as int));
                assert(short =~= paths@[k]@.take(prefix_len as int));
            } else {
                assert(short =~= first@.take(common as int).take(prefix_len as int));
                assert(short =~= paths@[k]@.take(prefix_len as int));
            }
        }
        i = i + 1;
    }
    assert(is_common_prefix(paths@, first@.take(prefix_len as int)));
    if prefix_len == 0 {
        assert(first@.take(0) =~= Seq::empty());
        return None;
    }
    Some(first.prefix(prefix_len))
}

/// Whether a managed file lies below `dir`.
pub open spec fn has_file_below(managed: Set<Seq<Seq<char>>>, dir: Seq<Seq<char>>) -> bool {
    exists|file: Seq<Seq<char>>| #[trigger]
        managed.contains(file) && dir.is_prefix_of(file) && file != dir
}

/// Whether `root` and `rel` are the root and the paths of the topic of `paths`. One path that
/// has managed files below it is the root of those files. Of several paths the longest common
/// prefix is the root. Any other topic has no root.
pub open spec fn is_group(
    paths: Seq<TargetPath>,
    managed: Set<Seq<Seq<char>>>,
    group: TopicGroup,
) -> bool {
    if paths.len() == 1 && has_file_below(managed, paths[0]@) {
        &&& group.root is Some
        &&& group.root->Some_0@ == paths[0]@
        &&& rising(group.paths@)
        &&& forall|rel: Seq<Seq<char>>| #[trigger]
            holds_key(group.paths@, rel) <==> rel.len() > 0 && managed.contains(paths[0]@ + rel)
    } else if paths.len() >= 2 && !is_longest_common_prefix(paths, Seq::empty()) {
        &&& group.root is Some
        &&& is_longest_common_prefix(paths, group.root->Some_0@)
        &&& path_views(group.paths@) == paths.map_values(
            |p: TargetPath| p@.skip(group.root->Some_0@.len() as int),
        )
    } else {
        group.root is None && path_views(group.paths@) == path_views(paths)
    }
}

/// Copies a list of paths, each without its first `n` components.
fn without_first(paths: &Vec<TargetPath>, n: usize) -> (r: Vec<TargetPath>)
    requires
        forall|i: int| 0 <= i < paths@.len() ==> n <= (#[trigger] paths@[i])@.len(),
    ensures
        path_views(r@) == paths@.map_values(|p: TargetPath| p@.skip(n as int)),
{
    let mut out: Vec<TargetPath> = Vec::new();
    for i in 0..paths.len()
        invariant
            forall|k: int| 0 <= k < paths@.len() ==> n <= (#[trigger] paths@[k])@.len(),
            out@.len() == i,
            forall|k: int| 0 <= k < i ==> (#[trigger] out@[k])@ == paths@[k]@.skip(n as int),
    {
        let rest = paths[i].range(n, paths[i].parts.len());
        assert(rest@ =~= paths@[i as int]@.skip(n as int));
        out.push(rest);
    }
    assert(path_views(out@) =~= paths@.map_values(|p: TargetPath| p@.skip(n as int)));
    out
}

/// Finds the root of a topic and what its paths are below it.
pub fn extract_topic_root(
    topic_paths: &Vec<TargetPath>,
    remapped_managed: &SortedSet<TargetPath>,
) -> (r: TopicGroup)
    requires
        remapped_managed.wf(),
    ensures
        is_group(topic_paths@, remapped_managed@, r),
{
    let ghost managed = remapped_managed@;
    if topic_paths.len() == 1 {
        let dir = &topic_paths[0];
        let children = files_below(dir, remapped_managed);
        if children.items.len() > 0 {
            proof {
                let rel = children.items@[0].key();
                assert(holds_key(children.items@, rel));
                assert(children@.contains(rel));
                assert(managed.contains(dir@ + rel));
                assert(dir@.is_prefix_of(dir@ + rel));
                assert(has_file_below(managed, dir@));
                assert forall|rel: Seq<Seq<char>>| #[trigger]
                    holds_key(children.items@, rel) <==> rel.len() > 0 && managed.contains(
                        dir@ + rel,
                    ) by {
                    assert(children@.contains(rel) == holds_key(children.items@, rel));
                }
            }
            return TopicGroup { root: Some(dir.copy()), paths: children.items };
        }
        proof {
            if has_file_below(managed, dir@) {
                let file = choose|file: Seq<Seq<char>>| #[trigger]
                    managed.contains(file) && dir@.is_prefix_of(file) && file != dir@;
                let rel = file.skip(dir@.len() as int);
                assert(file =~= dir@ + rel);
                assert(children@.contains(rel));
            }
        }
    } else {
        match find_common_prefix(topic_paths) {
            Some(root) => {
                assert forall|i: int| 0 <= i < topic_paths@.len() implies root@.len() <= (
                #[trigger] topic_paths@[i])@.len() by {
                    assert(root@.is_prefix_of(topic_paths@[i]@));
                }
                let paths = without_first(topic_paths, root.parts.len());
                proof {
                    if is_longest_common_prefix(topic_paths@, Seq::empty()) {
                        assert(is_common_prefix(topic_paths@, root@));
                    }
                }
                return TopicGroup { root: Some(root), paths };
            },
            None => {},
        }
    }
    let paths = without_first(topic_paths, 0);
    assert(path_views(paths@) =~= path_views(topic_paths@)) by {
        assert forall|i: int| 0 <= i < topic_paths@.len() implies (
        #[trigger] topic_paths@[i])@.skip(0) == topic_paths@[i]@ by {
            assert(topic_paths@[i]@.skip(0) =~= topic_paths@[i]@);
        }
    }
    TopicGroup { root: None, paths }
}

/// The managed files below `dir`, relative to it.
fn files_below(dir: &TargetPath, managed: &SortedSet<TargetPath>) -> (r: SortedSet<TargetPath>)
    requires
        managed.wf(),
    ensures
        r.wf(),
        forall|rel: Seq<Seq<char>>| #[trigger]
            r@.contains(rel) <==> rel.len() > 0 && managed@.contains(dir@ + rel),
{
    let mut children: SortedSet<TargetPath> = SortedSet::new();
    for i in 0..managed.items.len()
        invariant
            children.wf(),
            forall|rel: Seq<Seq<char>>| #[trigger]
                children@.contains(rel) <==> rel.len() > 0 && holds_key(
                    managed.items@.take(i as int),
                    dir@ + rel,
                ),
    {
        let file = &managed.items[i];
        let ghost before = children@;
        if file.is_under(dir) && !file.is_same(dir) {
            let rest = file.range(dir.parts.len(), file.parts.len());
            let ghost rel = rest@;
            assert(file@ =~= dir@ + rel);
            let _ = children.insert(rest);
            assert(children@ == before.insert(rel));
        }
        assert forall|rel: Seq<Seq<char>>| #[trigger]
            children@.contains(rel) <==> rel.len() > 0 && holds_key(
                managed.items@.take(i + 1),
                dir@ + rel,
            ) by {
            crate::chezmoi::collapse::lemma_one_more(managed.items@, i as int);
            if rel.len() > 0 && file@ == dir@ + rel {
                assert(dir@.is_prefix_of(file@));
                assert(rel =~= file@.skip(dir@.len() as int));
            }
        }
    }
    assert(managed.items@.take(managed.items@.len() as int) =~= managed.items@);
    assert forall|rel: Seq<Seq<char>>| #[trigger]
        children@.contains(rel) <==> rel.len() > 0 && managed@.contains(dir@ + rel) by {
        assert(managed@.contains(dir@ + rel) == holds_key(managed.items@, dir@ + rel));
    }
    children
}

// ----------------------------------------------------------------------------
// All topics
// ----------------------------------------------------------------------------

/// A topic of a migration, with its name.
#[derive(Debug)]
pub struct MigratedTopic {
    pub name: String,
    pub group: TopicGroup,
}

impl Keyed for MigratedTopic {
    type Key = Seq<char>;

    open spec fn key(&self) -> Seq<char> {
        self.name@
    }

    open spec fn precedes(a: Seq<char>, b: Seq<char>) -> bool {
        crate::text::text_before(a, b)
    }

    fn is_before(&self, other: &Self) -> (r: bool) {
        crate::text::before(self.name.as_str(), other.name.as_str())
    }

    proof fn total(a: Seq<char>, b: Seq<char>) {
        crate::text::lemma_text_total(a, b);
    }

    proof fn transitive(a: Seq<char>, b: Seq<char>, c: Seq<char>) {
        crate::text::lemma_text_transitive(a, b, c);
    }
}

/// The files that a list of targets manages.
pub fn managed_files(entries: &Vec<TargetEntry>) -> (r: SortedSet<TargetPath>)
    ensures
        r.wf(),
        forall|path: Seq<Seq<char>>| #[trigger]
            r@.contains(path) <==> exists|i: int|
                0 <= i < entries@.len() && (#[trigger] entries@[i])@.path == path,
{
    let mut files: SortedSet<TargetPath> = SortedSet::new();
    for i in 0..entries.len()
        invariant
            files.wf(),
            forall|path: Seq<Seq<char>>| #[trigger]
                files@.contains(path) <==> exists|k: int|
                    0 <= k < i && (#[trigger] entries@[k])@.path == path,
    {
        let ghost before = files@;
        let _ = files.insert(entries[i].target_rel_path.copy());
        assert forall|path: Seq<Seq<char>>| #[trigger]
            files@.contains(path) <==> exists|k: int|
                0 <= k < i + 1 && (#[trigger] entries@[k])@.path == path by {
            assert(files@ == before.insert(entries@[i as int]@.path));
            if before.contains(path) {
                let k = choose|k: int| 0 <= k < i && (#[trigger] entries@[k])@.path == path;
                assert(0 <= k < i + 1 && entries@[k]@.path == path);
            }
            if path == entries@[i as int]@.path {
                assert(0 <= i < i + 1 && entries@[i as int]@.path == path);
            }
        }
    }
    files
}

/// Whether `path` is a managed file, remapped.
pub open spec fn is_remapped_file(managed: Seq<TargetPath>, path: Seq<Seq<char>>) -> bool {
    exists|file: Seq<Seq<char>>| #[trigger] holds_key(managed, file) && remapped(file) == path
}

/// The managed files, remapped.
pub open spec fn remapped_files(managed: Seq<TargetPath>) -> Set<Seq<Seq<char>>> {
    Set::new(|path: Seq<Seq<char>>| is_remapped_file(managed, path))
}

/// Whether `path` is a path that the manifest names, remapped.
pub open spec fn is_remapped_path(
    managed: Seq<TargetPath>,
    listings: Seq<Listing>,
    path: Seq<Seq<char>>,
) -> bool {
    exists|orig: Seq<Seq<char>>| #[trigger]
        named(managed, listings, orig) && remapped(orig) == path
}

/// Whether `paths` are the paths of the topic `name`, in order.
pub open spec fn are_topic_paths(
    managed: Seq<TargetPath>,
    listings: Seq<Listing>,
    name: Seq<char>,
    paths: Seq<TargetPath>,
) -> bool {
    &&& rising(paths)
    &&& forall|path: Seq<Seq<char>>| #[trigger]
        holds_key(paths, path) <==> is_remapped_path(managed, listings, path) && topic_name(path)
            == name
}

/// Whether `topic` holds the paths of its name, below their root.
pub open spec fn is_topic(
    managed: Seq<TargetPath>,
    listings: Seq<Listing>,
    topic: MigratedTopic,
) -> bool {
    exists|paths: Seq<TargetPath>| #[trigger]
        are_topic_paths(managed, listings, topic.name@, paths) && paths.len() > 0 && is_group(
            paths,
            remapped_files(managed),
            topic.group,
        )
}

/// Remaps each path.
fn remap_all(paths: &Vec<TargetPath>) -> (r: SortedSet<TargetPath>)
    ensures
        r.wf(),
        forall|path: Seq<Seq<char>>| #[trigger]
            r@.contains(path) <==> is_remapped_file(paths@, path),
{
    let mut out: SortedSet<TargetPath> = SortedSet::new();
    for i in 0..paths.len()
        invariant
            out.wf(),
            forall|path: Seq<Seq<char>>| #[trigger]
                out@.contains(path) <==> is_remapped_file(paths@.take(i as int), path),
    {
        let ghost before = out@;
        let _ = out.insert(remap_target_path(&paths[i]));
        proof {
            crate::chezmoi::collapse::lemma_one_more(paths@, i as int);
            let own = paths@[i as int]@;
            assert forall|path: Seq<Seq<char>>| #[trigger]
                out@.contains(path) <==> is_remapped_file(paths@.take(i + 1), path) by {
                assert(out@ == before.insert(remapped(own)));
                if is_remapped_file(paths@.take(i as int), path) {
                    let file = choose|file: Seq<Seq<char>>| #[trigger]
                        holds_key(paths@.take(i as int), file) && remapped(file) == path;
                    assert(holds_key(paths@.take(i + 1), file));
                }
                if path == remapped(own) {
                    assert(holds_key(paths@.take(i + 1), own));
                }
                if is_remapped_file(paths@.take(i + 1), path) {
                    let file = choose|file: Seq<Seq<char>>| #[trigger]
                        holds_key(paths@.take(i + 1), file) && remapped(file) == path;
                    assert(holds_key(paths@.take(i as int), file) || own == file);
                }
            }
        }
    }
    assert(paths@.take(paths@.len() as int) =~= paths@);
    out
}

/// The paths of `all` that belong to the topic `name`, in order.
fn paths_of_topic(all: &SortedSet<TargetPath>, name: &str) -> (r: Vec<TargetPath>)
    requires
        all.wf(),
        forall|path: Seq<Seq<char>>| #[trigger] all@.contains(path) ==> path.len() > 0,
    ensures
        rising(r@),
        forall|path: Seq<Seq<char>>| #[trigger]
            holds_key(r@, path) <==> all@.contains(path) && topic_name(path) == name@,
{
    let mut out: SortedSet<TargetPath> = SortedSet::new();
    for i in 0..all.items.len()
        invariant
            all.wf(),
            forall|path: Seq<Seq<char>>| #[trigger] all@.contains(path) ==> path.len() > 0,
            out.wf(),
            forall|path: Seq<Seq<char>>| #[trigger]
                out@.contains(path) <==> holds_key(all.items@.take(i as int), path) && topic_name(
                    path,
                ) == name@,
    {
        let path = &all.items[i];
        assert(path.key() == path@);
        assert(all@.contains(path@));
        let topic = topic_name_for_path(path);
        if same(topic.as_str(), name) {
            let _ = out.insert(path.copy());
        }
        proof {
            crate::chezmoi::collapse::lemma_one_more(all.items@, i as int);
        }
    }
    assert(all.items@.take(all.items@.len() as int) =~= all.items@);
    let r = out.items;
    assert forall|path: Seq<Seq<char>>| #[trigger] holds_key(r@, path) <==> all@.contains(path)
        && topic_name(path) == name@ by {
        assert(out@.contains(path) == holds_key(r@, path));
        assert(all@.contains(path) == holds_key(all.items@, path));
    }
    r
}

/// The names of the topics of all paths.
fn topic_names(all: &SortedSet<TargetPath>) -> (r: SortedSet<String>)
    requires
        all.wf(),
        forall|path: Seq<Seq<char>>| #[trigger] all@.contains(path) ==> path.len() > 0,
    ensures
        r.wf(),
        forall|name: Seq<char>| #[trigger]
            r@.contains(name) <==> exists|path: Seq<Seq<char>>| #[trigger]
                all@.contains(path) && topic_name(path) == name,
{
    let mut names: SortedSet<String> = SortedSet::new();
    for i in 0..all.items.len()
        invariant
            all.wf(),
            forall|path: Seq<Seq<char>>| #[trigger] all@.contains(path) ==> path.len() > 0,
            names.wf(),
            forall|name: Seq<char>| #[trigger]
                names@.contains(name) <==> exists|k: int|
                    0 <= k < i && topic_name((#[trigger] all.items@[k])@) == name,
    {
        let path = &all.items[i];
        assert(path.key() == path@);
        assert(all@.contains(path@));
        let ghost before = names@;
        let _ = names.insert(topic_name_for_path(path));
        assert forall|name: Seq<char>| #[trigger]
            names@.contains(name) <==> exists|k: int|
                0 <= k < i + 1 && topic_name((#[trigger] all.items@[k])@) == name by {
            assert(names@ == before.insert(topic_name(path@)));
            if before.contains(name) {
                let k = choose|k: int|
                    0 <= k < i && topic_name((#[trigger] all.items@[k])@) == name;
                assert(0 <= k < i + 1 && topic_name(all.items@[k]@) == name);
            }
            if topic_name(path@) == name {
                assert(0 <= i < i + 1 && topic_name(all.items@[i as int]@) == name);
            }
        }
    }
    assert forall|name: Seq<char>| #[trigger]
        names@.contains(name) <==> exists|path: Seq<Seq<char>>| #[trigger]
            all@.contains(path) && topic_name(path) == name by {
        if names@.contains(name) {
            let k = choose|k: int|
                0 <= k < all.items@.len() && topic_name((#[trigger] all.items@[k])@) == name;
            assert(all.items@[k].key() == all.items@[k]@);
            assert(all@.contains(all.items@[k]@));
        }
        if exists|path: Seq<Seq<char>>| #[trigger]
            all@.contains(path) && topic_name(path) == name {
            let path = choose|path: Seq<Seq<char>>| #[trigger]
                all@.contains(path) && topic_name(path) == name;
            let k = choose|k: int|
                0 <= k < all.items@.len() && #[trigger] all.items@[k].key() == path;
            assert(topic_name(all.items@[k]@) == name);
        }
    }
    names
}

/// Groups the managed files into topics, in the order of their names. `listings` holds the
/// entries of each directory above a managed file that is there.
pub fn group_into_topics(managed: &SortedSet<TargetPath>, listings: &Vec<Listing>) -> (r: Vec<
    MigratedTopic,
>)
    requires
        managed.wf(),
        forall|path: Seq<Seq<char>>| #[trigger] managed@.contains(path) ==> path.len() > 0,
    ensures
        rising(r@),
        forall|name: Seq<char>| #[trigger]
            holds_key(r@, name) <==> exists|path: Seq<Seq<char>>| #[trigger]
                is_remapped_path(managed.items@, listings@, path) && topic_name(path) == name,
        forall|i: int| 0 <= i < r@.len() ==> #[trigger] is_topic(managed.items@, listings@, r@[i]),
        !named(managed.items@, listings@, seq!["AppData"@]) ==> forall|file: Seq<Seq<char>>| #[trigger]
            managed@.contains(file) && !has_file_below(
                remapped_files(managed.items@),
                remapped(file),
            ) ==> hold(r@, remapped(file)),
{
    let ghost files = managed.items@;
    let ghost lists = listings@;
    let manifest_paths = compute_manifest_paths(managed, listings);
    let all = remap_all(&manifest_paths);
    let remapped_managed = remap_all(&managed.items);
    proof {
        assert(remapped_managed@ =~= remapped_files(files));
        assert forall|path: Seq<Seq<char>>| #[trigger] all@.contains(path) <==> is_remapped_path(
            files,
            lists,
            path,
        ) by {
            if all@.contains(path) {
                let orig = choose|orig: Seq<Seq<char>>| #[trigger]
                    holds_key(manifest_paths@, orig) && remapped(orig) == path;
                assert(named(files, lists, orig));
            }
            if is_remapped_path(files, lists, path) {
                let orig = choose|orig: Seq<Seq<char>>| #[trigger]
                    named(files, lists, orig) && remapped(orig) == path;
                assert(holds_key(manifest_paths@, orig));
            }
        }
        assert forall|path: Seq<Seq<char>>| #[trigger] all@.contains(path) implies path.len()
            > 0 by {
            let orig = choose|orig: Seq<Seq<char>>| #[trigger]
                named(files, lists, orig) && remapped(orig) == path;
            if holds_key(files, orig) {
                assert(managed@.contains(orig));
            }
        }
    }
    let names = topic_names(&all);
    let mut topics: Vec<MigratedTopic> = Vec::new();
    for i in 0..names.items.len()
        invariant
            files == managed.items@,
            lists == listings@,
            all.wf(),
            names.wf(),
            remapped_managed.wf(),
            remapped_managed@ == remapped_files(files),
            forall|path: Seq<Seq<char>>| #[trigger]
                all@.contains(path) <==> is_remapped_path(files, lists, path),
            forall|path: Seq<Seq<char>>| #[trigger] all@.contains(path) ==> path.len() > 0,
            forall|name: Seq<char>| #[trigger]
                names@.contains(name) <==> exists|path: Seq<Seq<char>>| #[trigger]
                    all@.contains(path) && topic_name(path) == name,
            topics@.len() == i,
            forall|k: int| 0 <= k < i ==> (#[trigger] topics@[k]).name@ == names.items@[k]@,
            forall|k: int| 0 <= k < i ==> #[trigger] is_topic(files, lists, topics@[k]),
    {
        let name = names.items[i].clone();
        let paths = paths_of_topic(&all, name.as_str());
        let group = extract_topic_root(&paths, &remapped_managed);
        let topic = MigratedTopic { name, group };
        proof {
            assert(names.items@[i as int].key() == name@);
            assert(names@.contains(name@));
            let path = choose|path: Seq<Seq<char>>| #[trigger]
                all@.contains(path) && topic_name(path) == name@;
            assert(holds_key(paths@, path));
            assert(are_topic_paths(files, lists, name@, paths@));
            assert(paths@.len() > 0);
            assert(topic.name@ == name@);
            assert(is_group(paths@, remapped_managed@, group));
            assert(is_group(paths@, remapped_files(files), topic.group));
            assert(is_topic(files, lists, topic));
        }
        topics.push(topic);
    }
    proof {
        assert forall|a: int, b: int| 0 <= a < b < topics@.len() implies MigratedTopic::precedes(
            #[trigger] topics@[a].key(),
            #[trigger] topics@[b].key(),
        ) by {
            assert(String::precedes(names.items@[a].key(), names.items@[b].key()));
        }
        assert forall|name: Seq<char>| #[trigger]
            holds_key(topics@, name) <==> exists|path: Seq<Seq<char>>| #[trigger]
                is_remapped_path(files, lists, path) && topic_name(path) == name by {
            if holds_key(topics@, name) {
                let k = choose|k: int| 0 <= k < topics@.len() && #[trigger] topics@[k].key() == name;
                assert(names.items@[k].key() == name);
                assert(names@.contains(name));
            }
            if exists|path: Seq<Seq<char>>| #[trigger]
                is_remapped_path(files, lists, path) && topic_name(path) == name {
                let path = choose|path: Seq<Seq<char>>| #[trigger]
                    is_remapped_path(files, lists, path) && topic_name(path) == name;
                assert(all@.contains(path));
                assert(names@.contains(name));
                let k = choose|k: int|
                    0 <= k < names.items@.len() && #[trigger] names.items@[k].key() == name;
                assert(topics@[k].key() == name);
            }
        }
        if !named(files, lists, seq!["AppData"@]) {
            assert forall|file: Seq<Seq<char>>| #[trigger]
                managed@.contains(file) && !has_file_below(
                    remapped_files(files),
                    remapped(file),
                ) implies hold(topics@, remapped(file)) by {
                assert(holds_key(files, file));
                law_topics_hold_every_file(files, lists, topics@, file);
            }
        }
    }
    topics
}

// ----------------------------------------------------------------------------
// Laws
// ----------------------------------------------------------------------------

/// What lies below a directory lies below it after the remapping too, unless the directory is
/// `AppData` itself.
pub proof fn law_remapping_keeps_what_is_below(dir: Seq<Seq<char>>, file: Seq<Seq<char>>)
    requires
        dir.is_prefix_of(file),
        dir.len() > 0,
        dir != seq!["AppData"@],
    ensures
        remapped(dir).is_prefix_of(remapped(file)),
{
    if dir.len() == 1 {
        assert(dir =~= seq![dir[0]]);
        assert(file[0] == dir[0]);
    } else {
        assert(file[0] == dir[0] && file[1] == dir[1]);
        assert(dir.skip(2) =~= file.skip(2).take(dir.len() - 2));
        assert(remapped(dir) =~= remapped(file).take(remapped(dir).len() as int));
    }
}

/// Every managed file is in a topic: a path of a topic names it or a directory above it, unless
/// all of `AppData` is named as one directory.
pub proof fn law_every_file_is_in_a_topic(
    managed: Seq<TargetPath>,
    listings: Seq<Listing>,
    file: Seq<Seq<char>>,
)
    requires
        holds_key(managed, file),
        file.len() > 0,
        !named(managed, listings, seq!["AppData"@]),
    ensures
        exists|path: Seq<Seq<char>>| #[trigger]
            is_remapped_path(managed, listings, path) && path.is_prefix_of(remapped(file)),
{
    crate::chezmoi::collapse::law_managed_files_are_covered(managed, listings, file);
    let orig = choose|orig: Seq<Seq<char>>| #[trigger]
        named(managed, listings, orig) && orig.is_prefix_of(file);
    if orig.len() == 0 {
        assert(orig =~= Seq::empty());
        assert(remapped(orig).is_prefix_of(remapped(file)));
    } else {
        law_remapping_keeps_what_is_below(orig, file);
    }
    assert(is_remapped_path(managed, listings, remapped(orig)));
}

/// Where a path of a topic is: below the root of the topic, where it has one.
pub open spec fn full_path(group: TopicGroup, k: int) -> Seq<Seq<char>> {
    match group.root {
        Some(root) => root@ + group.paths@[k]@,
        None => group.paths@[k]@,
    }
}

/// Whether the topics hold what is at `target`: it is at or below one of their paths.
pub open spec fn hold(topics: Seq<MigratedTopic>, target: Seq<Seq<char>>) -> bool {
    exists|path: Seq<Seq<char>>| #[trigger] is_in_topics(topics, path) && path.is_prefix_of(target)
}

/// Whether `path` is a path of one of the topics.
pub open spec fn is_in_topics(topics: Seq<MigratedTopic>, path: Seq<Seq<char>>) -> bool {
    exists|i: int, k: int|
        0 <= i < topics.len() && 0 <= k < topics[i].group.paths@.len() && #[trigger] full_path(
            topics[i].group,
            k,
        ) == path
}

proof fn lemma_group_holds(
    paths: Seq<TargetPath>,
    managed: Set<Seq<Seq<char>>>,
    group: TopicGroup,
    j: int,
    file: Seq<Seq<char>>,
) -> (k: int)
    requires
        is_group(paths, managed, group),
        0 <= j < paths.len(),
        managed.contains(file),
        paths[j]@.is_prefix_of(file),
        !has_file_below(managed, file),
    ensures
        0 <= k < group.paths@.len(),
        full_path(group, k).is_prefix_of(file),
{
    let path = paths[j]@;
    if paths.len() == 1 && has_file_below(managed, paths[0]@) {
        assert(file != path);
        let rel = file.skip(path.len() as int);
        assert(path + rel =~= file);
        assert(rel.len() > 0) by {
            if rel.len() == 0 {
                assert(file =~= path);
            }
        }
        assert(holds_key(group.paths@, rel));
        let k = choose|k: int|
            0 <= k < group.paths@.len() && #[trigger] group.paths@[k].key() == rel;
        assert(full_path(group, k) =~= file);
        assert(file =~= file.take(file.len() as int));
        k
    } else {
        if paths.len() >= 2 && !is_longest_common_prefix(paths, Seq::empty()) {
            let root = group.root->Some_0@;
            let short = paths.map_values(|p: TargetPath| p@.skip(root.len() as int));
            assert(path_views(group.paths@) == short);
            assert(path_views(group.paths@).len() == group.paths@.len());
            assert(path_views(group.paths@)[j] == group.paths@[j]@);
            assert(root.is_prefix_of(paths[j]@));
            assert(full_path(group, j) =~= path);
        } else {
            assert(path_views(group.paths@).len() == group.paths@.len());
            assert(path_views(group.paths@)[j] == path_views(paths)[j]);
            assert(full_path(group, j) == path);
        }
        j
    }
}

/// No managed file is left out: where the topics are those of the managed files, each file is at or
/// below a path of one of them, unless all of `AppData` is named as one directory.
pub proof fn law_topics_hold_every_file(
    managed: Seq<TargetPath>,
    listings: Seq<Listing>,
    topics: Seq<MigratedTopic>,
    file: Seq<Seq<char>>,
)
    requires
        forall|name: Seq<char>| #[trigger]
            holds_key(topics, name) <==> exists|path: Seq<Seq<char>>| #[trigger]
                is_remapped_path(managed, listings, path) && topic_name(path) == name,
        forall|i: int| 0 <= i < topics.len() ==> #[trigger] is_topic(managed, listings, topics[i]),
        holds_key(managed, file),
        file.len() > 0,
        !named(managed, listings, seq!["AppData"@]),
        !has_file_below(remapped_files(managed), remapped(file)),
    ensures
        hold(topics, remapped(file)),
{
    law_every_file_is_in_a_topic(managed, listings, file);
    let path = choose|path: Seq<Seq<char>>| #[trigger]
        is_remapped_path(managed, listings, path) && path.is_prefix_of(remapped(file));
    let name = topic_name(path);
    assert(holds_key(topics, name));
    let i = choose|i: int| 0 <= i < topics.len() && #[trigger] topics[i].key() == name;
    assert(is_topic(managed, listings, topics[i]));
    let paths = choose|paths: Seq<TargetPath>| #[trigger]
        are_topic_paths(managed, listings, topics[i].name@, paths) && paths.len() > 0 && is_group(
            paths,
            remapped_files(managed),
            topics[i].group,
        );
    assert(holds_key(paths, path));
    let j = choose|j: int| 0 <= j < paths.len() && #[trigger] paths[j].key() == path;
    assert(is_remapped_file(managed, remapped(file)));
    let k = lemma_group_holds(paths, remapped_files(managed), topics[i].group, j, remapped(file));
    assert(is_in_topics(topics, full_path(topics[i].group, k)));
}

/// Nothing foreign gets into a topic: each of its paths is where a managed file belongs, or where a
/// path of the manifest does.
pub proof fn law_topics_hold_managed_paths_only(
    managed: Seq<TargetPath>,
    listings: Seq<Listing>,
    topic: MigratedTopic,
    k: int,
)
    requires
        is_topic(managed, listings, topic),
        0 <= k < topic.group.paths@.len(),
    ensures
        is_remapped_file(managed, full_path(topic.group, k)) || is_remapped_path(
            managed,
            listings,
            full_path(topic.group, k),
        ) && topic_name(full_path(topic.group, k)) == topic.name@,
{
    let group = topic.group;
    let paths = choose|paths: Seq<TargetPath>| #[trigger]
        are_topic_paths(managed, listings, topic.name@, paths) && paths.len() > 0 && is_group(
            paths,
            remapped_files(managed),
            group,
        );
    if paths.len() == 1 && has_file_below(remapped_files(managed), paths[0]@) {
        assert(group.paths@[k].key() == group.paths@[k]@);
        assert(holds_key(group.paths@, group.paths@[k]@));
    } else {
        if paths.len() >= 2 && !is_longest_common_prefix(paths, Seq::empty()) {
            let root = group.root->Some_0@;
            let short = paths.map_values(|p: TargetPath| p@.skip(root.len() as int));
            assert(path_views(group.paths@) == short);
            assert(path_views(group.paths@).len() == group.paths@.len());
            assert(path_views(group.paths@)[k] == group.paths@[k]@);
            assert(root.is_prefix_of(paths[k]@));
            assert(full_path(group, k) =~= paths[k]@);
        } else {
            assert(path_views(group.paths@).len() == group.paths@.len());
            assert(path_views(group.paths@)[k] == path_views(paths)[k]);
            assert(full_path(group, k) == paths[k]@);
        }
        assert(paths[k].key() == paths[k]@);
        assert(holds_key(paths, paths[k]@));
    }
}

/// What belongs to a program is in the topic of its name: below `.config` and `.local/share` the
/// directory names it, `.ssh` and `.local/bin` have topics of their own, and elsewhere the second
/// name does, or the first of two.
pub proof fn law_topics_are_named_after_programs(
    name: Seq<char>,
    first: Seq<char>,
    rest: Seq<Seq<char>>,
)
    ensures
        topic_name(seq![".config"@, name] + rest) == name,
        topic_name(seq![".local"@, "share"@, name] + rest) == name,
        topic_name(seq![".ssh"@, name] + rest) == "ssh"@,
        topic_name(seq![".local"@, "bin"@] + rest) == "bin"@,
        first != ".config"@ && first != ".ssh"@ && first != ".local"@ ==> topic_name(
            seq![first, name],
        ) == first && (rest.len() > 0 ==> topic_name(seq![first, name] + rest) == name),
{
    reveal_strlit(".config");
    reveal_strlit(".local");
    reveal_strlit(".ssh");
    reveal_strlit("share");
    reveal_strlit("bin");
    assert(".local"@.len() == 6 && ".config"@.len() == 7 && ".ssh"@.len() == 4);
    assert("bin"@.len() == 3 && "share"@.len() == 5);
}

/// What lies in the application data of Windows belongs where it does elsewhere, in `.config`, and
/// everything else stays where it is.
pub proof fn law_application_data_moves_to_config(path: Seq<Seq<char>>, rest: Seq<Seq<char>>)
    ensures
        remapped(seq!["AppData"@, "Local"@] + rest) == seq![".config"@] + rest,
        remapped(seq!["AppData"@, "Roaming"@] + rest) == seq![".config"@] + rest,
        path.len() < 2 || path[0] != "AppData"@ ==> remapped(path) == path,
        path.len() >= 2 && path[1] != "Local"@ && path[1] != "Roaming"@ ==> remapped(path) == path,
{
    assert((seq!["AppData"@, "Local"@] + rest).skip(2) =~= rest);
    assert((seq!["AppData"@, "Roaming"@] + rest).skip(2) =~= rest);
}

/// Files right in the home directory are grouped by the program that reads them: those of shells,
/// of git, of tmux and of vim. All others are in one topic.
pub proof fn law_home_files_are_grouped_by_program(name: Seq<char>)
    ensures
        name == ".bashrc"@ || name == ".bash_profile"@ || name == ".bash_logout"@ || name
            == ".zshrc"@ || name == ".zprofile"@ || name == ".zshenv"@ || name == ".zlogin"@ || name
            == ".zlogout"@ || name == ".profile"@ || name == ".inputrc"@ ==> topic_name(seq![name])
            == "shell"@,
        name == ".gitconfig"@ || name == ".gitignore_global"@ || name == ".gitattributes_global"@
            ==> topic_name(seq![name]) == "git"@,
        name == ".tmux.conf"@ ==> topic_name(seq![name]) == "tmux"@,
        name == ".vimrc"@ || name == ".nvimrc"@ || name == ".gvimrc"@ ==> topic_name(seq![name])
            == "vim"@,
        topic_name(seq![name]) == "shell"@ || topic_name(seq![name]) == "git"@ || topic_name(
            seq![name],
        ) == "tmux"@ || topic_name(seq![name]) == "vim"@ || topic_name(seq![name]) == "home"@,
        name.len() == 0 || name[0] != '.' ==> topic_name(seq![name]) == "home"@,
{
    reveal_strlit(".bashrc");
    reveal_strlit(".bash_profile");
    reveal_strlit(".bash_logout");
    reveal_strlit(".zshrc");
    reveal_strlit(".zprofile");
    reveal_strlit(".zshenv");
    reveal_strlit(".zlogin");
    reveal_strlit(".zlogout");
    reveal_strlit(".profile");
    reveal_strlit(".inputrc");
    reveal_strlit(".gitconfig");
    reveal_strlit(".gitignore_global");
    reveal_strlit(".gitattributes_global");
    reveal_strlit(".tmux.conf");
    reveal_strlit(".vimrc");
    reveal_strlit(".nvimrc");
    reveal_strlit(".gvimrc");
    let shell = shell_files();
    let git = git_files();
    let vim = vim_files();
    assert(shell[0] == ".bashrc"@ && shell[1] == ".bash_profile"@ && shell[2] == ".bash_logout"@
        && shell[3] == ".zshrc"@ && shell[4] == ".zprofile"@ && shell[5] == ".zshenv"@ && shell[6]
        == ".zlogin"@ && shell[7] == ".zlogout"@ && shell[8] == ".profile"@ && shell[9]
        == ".inputrc"@);
    assert(git[0] == ".gitconfig"@ && git[1] == ".gitignore_global"@ && git[2]
        == ".gitattributes_global"@);
    assert(vim[0] == ".vimrc"@ && vim[1] == ".nvimrc"@ && vim[2] == ".gvimrc"@);
    assert(forall|k: int| 0 <= k < shell.len() ==> (#[trigger] shell[k])[1] != 'g');
    assert(forall|k: int| 0 <= k < shell.len() ==> (#[trigger] shell[k])[1] != 't');
    assert(forall|k: int| 0 <= k < shell.len() ==> (#[trigger] shell[k])[1] != 'v');
    assert(forall|k: int| 0 <= k < shell.len() ==> (#[trigger] shell[k])[1] != 'n');
    assert(forall|k: int| 0 <= k < git.len() ==> (#[trigger] git[k])[1] == 'g' && git[k][2] == 'i');
    assert(forall|k: int| 0 <= k < shell.len() ==> (#[trigger] shell[k])[0] == '.');
    assert(forall|k: int| 0 <= k < git.len() ==> (#[trigger] git[k])[0] == '.');
    assert(forall|k: int| 0 <= k < vim.len() ==> (#[trigger] vim[k])[0] == '.');
    assert(".tmux.conf"@[1] == 't' && ".gvimrc"@[2] == 'v' && ".vimrc"@[1] == 'v' && ".nvimrc"@[1]
        == 'n');
}

/// The root of a topic of several paths is as deep as it can be: there is no name with which all
/// its paths go on below it.
pub proof fn law_root_is_as_deep_as_can_be(
    paths: Seq<TargetPath>,
    managed: Set<Seq<Seq<char>>>,
    group: TopicGroup,
    part: Seq<char>,
)
    requires
        is_group(paths, managed, group),
        paths.len() >= 2,
    ensures
        group.paths@.len() == paths.len(),
        exists|k: int|
            0 <= k < group.paths@.len() && ((#[trigger] group.paths@[k])@.len() == 0
                || group.paths@[k]@[0] != part),
{
    let root = match group.root {
        Some(root) => root@,
        None => Seq::empty(),
    };
    let longer = root.push(part);
    assert(path_views(group.paths@).len() == group.paths@.len());
    assert(path_views(paths).len() == paths.len());
    if forall|k: int|
        0 <= k < group.paths@.len() ==> (#[trigger] group.paths@[k])@.len() > 0
            && group.paths@[k]@[0] == part {
        assert forall|k: int| 0 <= k < paths.len() implies longer.is_prefix_of(
            (#[trigger] paths[k])@,
        ) by {
            assert(group.paths@[k]@.len() > 0);
            assert(path_views(group.paths@)[k] == group.paths@[k]@);
            if group.root is Some {
                let short = paths.map_values(|p: TargetPath| p@.skip(root.len() as int));
                assert(path_views(group.paths@) == short);
                assert(short[k] == paths[k]@.skip(root.len() as int));
                assert(root.is_prefix_of(paths[k]@));
                assert(longer =~= paths[k]@.take(longer.len() as int));
            } else {
                assert(path_views(paths)[k] == paths[k]@);
                assert(longer =~= paths[k]@.take(longer.len() as int));
            }
        }
        assert(is_common_prefix(paths, longer));
        assert(longer.len() == root.len() + 1);
    }
}

/// A topic of one path has it as its root where there are managed files below it, and those as its
/// paths; else the path stays as it is.
pub proof fn law_one_path_is_the_root_of_its_files(
    path: TargetPath,
    managed: Set<Seq<Seq<char>>>,
    group: TopicGroup,
    rel: Seq<Seq<char>>,
)
    requires
        is_group(seq![path], managed, group),
        rel.len() > 0,
    ensures
        managed.contains(path@ + rel) ==> group.root is Some && group.root->Some_0@ == path@
            && holds_key(group.paths@, rel),
        !has_file_below(managed, path@) ==> group.root is None && group.paths@.len() == 1
            && group.paths@[0]@ == path@,
{
    let file = path@ + rel;
    if managed.contains(file) {
        assert(path@ =~= file.take(path@.len() as int));
        assert(file.len() > path@.len());
        assert(has_file_below(managed, path@));
    }
    if !has_file_below(managed, path@) {
        assert(path_views(group.paths@).len() == group.paths@.len());
        assert(path_views(seq![path]).len() == 1);
        assert(path_views(seq![path])[0] == path@);
        assert(path_views(group.paths@)[0] == group.paths@[0]@);
    }
}

} // verus!
