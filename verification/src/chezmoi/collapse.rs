//! Which paths a migrated manifest names: whole directories where everything in them is
//! managed, single files elsewhere.

use vstd::prelude::*;

use crate::order::{holds_key, rising, Keyed, SortedSet};
use crate::paths::{child_parts, path_before, TargetPath};

verus! {

/// A path that is ordered by its depth, the deepest first, then by its components.
#[derive(Debug)]
pub struct ByDepth {
    pub path: TargetPath,
}

/// Whether the path `a` comes before the path `b` where the deepest come first.
pub open spec fn deeper_first(a: Seq<Seq<char>>, b: Seq<Seq<char>>) -> bool {
    a.len() > b.len() || (a.len() == b.len() && path_before(a, b))
}

impl Keyed for ByDepth {
    type Key = Seq<Seq<char>>;

    open spec fn key(&self) -> Seq<Seq<char>> {
        self.path@
    }

    open spec fn precedes(a: Seq<Seq<char>>, b: Seq<Seq<char>>) -> bool {
        deeper_first(a, b)
    }

    fn is_before(&self, other: &Self) -> (r: bool) {
        let left: usize = self.path.parts.len();
        let right: usize = other.path.parts.len();
        left > right || (left == right && self.path.is_before(&other.path))
    }

    proof fn total(a: Seq<Seq<char>>, b: Seq<Seq<char>>) {
        <TargetPath as Keyed>::total(a, b);
    }

    proof fn transitive(a: Seq<Seq<char>>, b: Seq<Seq<char>>, c: Seq<Seq<char>>) {
        if a.len() == b.len() && b.len() == c.len() {
            <TargetPath as Keyed>::transitive(a, b, c);
        }
    }
}

/// An entry of a directory in the home directory.
#[derive(Debug)]
pub struct ListedEntry {
    pub name: String,
    pub directory: bool,
}

/// The entries of a directory in the home directory.
#[derive(Debug)]
pub struct Listing {
    pub dir: TargetPath,
    pub entries: Vec<ListedEntry>,
}

/// The entries of `dir`, where it is a directory.
pub open spec fn listed(listings: Seq<Listing>, dir: Seq<Seq<char>>) -> Option<Seq<ListedEntry>>
    decreases listings.len(),
{
    if listings.len() == 0 {
        None
    } else if listings[0].dir@ == dir {
        Some(listings[0].entries@)
    } else {
        listed(listings.skip(1), dir)
    }
}

/// Whether a managed file lies below `dir`.
pub open spec fn is_ancestor(managed: Seq<TargetPath>, dir: Seq<Seq<char>>) -> bool {
    dir.len() > 0 && exists|i: int|
        0 <= i < managed.len() && dir.len() < (#[trigger] managed[i])@.len() && dir.is_prefix_of(
            managed[i]@,
        )
}

/// The length of the longest of the paths.
pub open spec fn deepest(managed: Seq<TargetPath>) -> nat
    decreases managed.len(),
{
    if managed.len() == 0 {
        0
    } else {
        let rest = deepest(managed.drop_last());
        if managed.last()@.len() > rest {
            managed.last()@.len()
        } else {
            rest
        }
    }
}

/// No path is longer than the longest.
pub proof fn lemma_deepest(managed: Seq<TargetPath>, i: int)
    requires
        0 <= i < managed.len(),
    ensures
        managed[i]@.len() <= deepest(managed),
    decreases managed.len(),
{
    if i < managed.len() - 1 {
        lemma_deepest(managed.drop_last(), i);
    }
}

/// Whether a directory is fully managed and worth naming as a whole: it has two entries or
/// more, each of them a managed file or a directory that is fully managed itself.
pub open spec fn collapses(
    managed: Seq<TargetPath>,
    listings: Seq<Listing>,
    dir: Seq<Seq<char>>,
) -> bool
    decreases deepest(managed) - dir.len(),
{
    proof {
        lemma_ancestor_depth(managed, dir);
    }
    is_ancestor(managed, dir) && match listed(listings, dir) {
        Some(list) => list.len() >= 2 && forall|i: int|
            0 <= i < list.len() ==> {
                let child = child_parts(dir, #[trigger] list[i].name@);
                if list[i].directory {
                    child.len() > dir.len() && collapses(managed, listings, child)
                } else {
                    holds_key(managed, child)
                }
            },
        None => false,
    }
}

/// A directory is not as deep as a file below it.
pub proof fn lemma_ancestor_depth(managed: Seq<TargetPath>, dir: Seq<Seq<char>>)
    ensures
        is_ancestor(managed, dir) ==> dir.len() < deepest(managed),
{
    if is_ancestor(managed, dir) {
        let i = choose|i: int|
            0 <= i < managed.len() && dir.len() < (#[trigger] managed[i])@.len()
                && dir.is_prefix_of(managed[i]@);
        lemma_deepest(managed, i);
    }
}

/// Whether a collapsed directory is named: it lies below no other.
pub open spec fn maximal(
    managed: Seq<TargetPath>,
    listings: Seq<Listing>,
    dir: Seq<Seq<char>>,
) -> bool {
    collapses(managed, listings, dir) && forall|other: Seq<Seq<char>>|
        #[trigger] collapses(managed, listings, other) && other.is_prefix_of(dir) ==> other == dir
}

/// Whether the manifest names `path`: a maximal collapsed directory, or a managed file below
/// none.
pub open spec fn named(
    managed: Seq<TargetPath>,
    listings: Seq<Listing>,
    path: Seq<Seq<char>>,
) -> bool {
    maximal(managed, listings, path) || (holds_key(managed, path) && forall|dir: Seq<Seq<char>>|
        #[trigger] maximal(managed, listings, dir) ==> !dir.is_prefix_of(path))
}

/// The directories above managed files, the deepest first.
pub fn ancestor_dirs(managed: &SortedSet<TargetPath>) -> (r: SortedSet<ByDepth>)
    ensures
        r.wf(),
        forall|dir: Seq<Seq<char>>| #[trigger]
            r@.contains(dir) <==> is_ancestor(managed.items@, dir),
{
    let mut dirs: SortedSet<ByDepth> = SortedSet::new();
    for i in 0..managed.items.len()
        invariant
            dirs.wf(),
            forall|dir: Seq<Seq<char>>| #[trigger]
                dirs@.contains(dir) <==> is_ancestor(managed.items@.take(i as int), dir),
    {
        let file = &managed.items[i];
        let ghost before = dirs@;
        let ghost all = managed.items@;
        let mut n: usize = 1;
        while n < file.parts.len()
            invariant
                1 <= n,
                dirs.wf(),
                forall|dir: Seq<Seq<char>>| #[trigger]
                    dirs@.contains(dir) <==> (before.contains(dir) || (0 < dir.len() < n
                        && dir.len() < file@.len() && dir.is_prefix_of(file@))),
            decreases file.parts.len() - n,
        {
            let ghost dirs0 = dirs@;
            let prefix = file.prefix(n);
            let ghost path = prefix@;
            let _ = dirs.insert(ByDepth { path: prefix });
            assert(path.is_prefix_of(file@));
            assert forall|dir: Seq<Seq<char>>| #[trigger]
                dirs@.contains(dir) <==> (before.contains(dir) || (0 < dir.len() < n + 1
                    && dir.len() < file@.len() && dir.is_prefix_of(file@))) by {
                assert(dirs@ == dirs0.insert(path));
                if dir.len() == n && dir.is_prefix_of(file@) {
                    assert(dir =~= file@.take(n as int));
                }
            }
            n = n + 1;
        }
        assert forall|dir: Seq<Seq<char>>| #[trigger]
            dirs@.contains(dir) <==> is_ancestor(all.take(i + 1), dir) by {
            let less = all.take(i as int);
            let more = all.take(i + 1);
            if is_ancestor(less, dir) {
                let k = choose|k: int|
                    0 <= k < less.len() && dir.len() < (#[trigger] less[k])@.len()
                        && dir.is_prefix_of(less[k]@);
                assert(more[k] == less[k]);
            }
            if 0 < dir.len() < file@.len() && dir.is_prefix_of(file@) {
                assert(more[i as int] == *file);
            }
            if is_ancestor(more, dir) {
                let k = choose|k: int|
                    0 <= k < more.len() && dir.len() < (#[trigger] more[k])@.len()
                        && dir.is_prefix_of(more[k]@);
                if k < i {
                    assert(less[k] == more[k]);
                }
            }
        }
    }
    assert(managed.items@.take(managed.items@.len() as int) =~= managed.items@);
    dirs
}

/// The position of the listing of `dir`.
fn find_listing(listings: &Vec<Listing>, dir: &TargetPath) -> (r: Option<usize>)
    ensures
        match r {
            Some(i) => i < listings@.len() && listed(listings@, dir@) == Some(
                listings@[i as int].entries@,
            ),
            None => listed(listings@, dir@) is None,
        },
{
    assert(listings@.skip(0) =~= listings@);
    for i in 0..listings.len()
        invariant
            listed(listings@, dir@) == listed(listings@.skip(i as int), dir@),
    {
        if listings[i].dir.is_same(dir) {
            return Some(i);
        }
        assert(listings@.skip(i as int).skip(1) =~= listings@.skip(i + 1));
    }
    None
}

/// Whether every entry of `dir`, whose listing stands at `at`, is managed, and there are two or
/// more of them.
fn is_fully_managed(
    dir: &TargetPath,
    listings: &Vec<Listing>,
    at: usize,
    managed: &SortedSet<TargetPath>,
    collapsed: &SortedSet<TargetPath>,
) -> (r: bool)
    requires
        at < listings@.len(),
        listed(listings@, dir@) == Some(listings@[at as int].entries@),
        is_ancestor(managed.items@, dir@),
        managed.wf(),
        collapsed.wf(),
        !collapsed@.contains(dir@),
        forall|deep: Seq<Seq<char>>|
            deep.len() > dir@.len() ==> (#[trigger] collapsed@.contains(deep) <==> collapses(
                managed.items@,
                listings@,
                deep,
            )),
    ensures
        r == collapses(managed.items@, listings@, dir@),
{
    let entries = &listings[at].entries;
    let ghost files = managed.items@;
    let ghost lists = listings@;
    let mut ok = entries.len() >= 2;
    for i in 0..entries.len()
        invariant
            entries@ == listings@[at as int].entries@,
            files == managed.items@,
            lists == listings@,
            managed.wf(),
            collapsed.wf(),
            !collapsed@.contains(dir@),
            forall|deep: Seq<Seq<char>>|
                deep.len() > dir@.len() ==> (#[trigger] collapsed@.contains(deep) <==> collapses(
                    files,
                    lists,
                    deep,
                )),
            ok == (entries@.len() >= 2 && forall|k: int|
                0 <= k < i ==> {
                    let child = child_parts(dir@, #[trigger] entries@[k].name@);
                    if entries@[k].directory {
                        child.len() > dir@.len() && collapses(files, lists, child)
                    } else {
                        holds_key(files, child)
                    }
                }),
    {
        let child = dir.child(entries[i].name.as_str());
        let known = if entries[i].directory {
            collapsed.contains(&child)
        } else {
            managed.contains(&child)
        };
        if !known {
            ok = false;
        }
    }
    ok
}

/// Whether `dir` lies below another directory of the set.
fn lies_below_another(dir: &TargetPath, set: &SortedSet<TargetPath>) -> (r: bool)
    requires
        set.wf(),
    ensures
        r == exists|other: Seq<Seq<char>>| #[trigger]
            set@.contains(other) && other != dir@ && other.is_prefix_of(dir@),
{
    for i in 0..set.items.len()
        invariant
            forall|k: int|
                0 <= k < i ==> (#[trigger] set.items@[k].key() == dir@ || !set.items@[k].key().is_prefix_of(
                    dir@,
                )),
    {
        if !set.items[i].is_same(dir) && dir.is_under(&set.items[i]) {
            assert(set.items@[i as int].key() == set.items@[i as int]@);
            assert(set@.contains(set.items@[i as int]@));
            return true;
        }
    }
    assert forall|other: Seq<Seq<char>>| #[trigger]
        set@.contains(other) && other != dir@ implies !other.is_prefix_of(dir@) by {
        let k = choose|k: int| 0 <= k < set.items@.len() && #[trigger] set.items@[k].key() == other;
    }
    false
}

/// Whether `path` is in a directory of the set, or one of them.
fn is_covered(path: &TargetPath, set: &SortedSet<TargetPath>) -> (r: bool)
    requires
        set.wf(),
    ensures
        r == exists|dir: Seq<Seq<char>>| #[trigger] set@.contains(dir) && dir.is_prefix_of(path@),
{
    for i in 0..set.items.len()
        invariant
            forall|k: int| 0 <= k < i ==> !(#[trigger] set.items@[k].key()).is_prefix_of(path@),
    {
        if path.is_under(&set.items[i]) {
            assert(set.items@[i as int].key() == set.items@[i as int]@);
            assert(set@.contains(set.items@[i as int]@));
            return true;
        }
    }
    assert forall|dir: Seq<Seq<char>>| #[trigger] set@.contains(dir) implies !dir.is_prefix_of(
        path@,
    ) by {
        let k = choose|k: int| 0 <= k < set.items@.len() && #[trigger] set.items@[k].key() == dir;
    }
    false
}

/// The directories that are collapsed.
fn collapsed_dirs(managed: &SortedSet<TargetPath>, listings: &Vec<Listing>) -> (r: SortedSet<
    TargetPath,
>)
    requires
        managed.wf(),
    ensures
        r.wf(),
        forall|dir: Seq<Seq<char>>| #[trigger]
            r@.contains(dir) <==> collapses(managed.items@, listings@, dir),
{
    let dirs = ancestor_dirs(managed);
    let ghost files = managed.items@;
    let ghost lists = listings@;
    let mut collapsed: SortedSet<TargetPath> = SortedSet::new();
    for i in 0..dirs.items.len()
        invariant
            managed.wf(),
            dirs.wf(),
            files == managed.items@,
            lists == listings@,
            forall|dir: Seq<Seq<char>>| #[trigger] dirs@.contains(dir) <==> is_ancestor(files, dir),
            collapsed.wf(),
            forall|dir: Seq<Seq<char>>| #[trigger]
                collapsed@.contains(dir) <==> (holds_key(dirs.items@.take(i as int), dir)
                    && collapses(files, lists, dir)),
    {
        let dir = &dirs.items[i].path;
        let ghost before = collapsed@;
        let ghost seen = dirs.items@.take(i as int);
        proof {
            assert(dirs.items@[i as int].key() == dir@);
            assert(dirs@.contains(dir@));
            lemma_deeper_seen(dirs.items@, i as int);
            assert forall|deep: Seq<Seq<char>>| deep.len() > dir@.len() implies (
            #[trigger] collapsed@.contains(deep) <==> collapses(files, lists, deep)) by {
                if collapses(files, lists, deep) {
                    assert(dirs@.contains(deep));
                }
            }
        }
        let fully = match find_listing(listings, dir) {
            Some(at) => is_fully_managed(dir, listings, at, managed, &collapsed),
            None => false,
        };
        if fully {
            let _ = collapsed.insert(dir.copy());
        }
        assert forall|d: Seq<Seq<char>>| #[trigger]
            collapsed@.contains(d) <==> (holds_key(dirs.items@.take(i + 1), d) && collapses(
                files,
                lists,
                d,
            )) by {
            let more = dirs.items@.take(i + 1);
            if holds_key(seen, d) {
                let k = choose|k: int| 0 <= k < seen.len() && #[trigger] seen[k].key() == d;
                assert(more[k].key() == d);
            }
            if holds_key(more, d) {
                let k = choose|k: int| 0 <= k < more.len() && #[trigger] more[k].key() == d;
                if k < i {
                    assert(seen[k].key() == d);
                }
            }
            assert(more[i as int].key() == dir@);
        }
    }
    assert(dirs.items@.take(dirs.items@.len() as int) =~= dirs.items@);
    assert forall|dir: Seq<Seq<char>>| #[trigger]
        collapsed@.contains(dir) <==> collapses(files, lists, dir) by {
        if collapses(files, lists, dir) {
            assert(dirs@.contains(dir));
        }
    }
    collapsed
}

/// Before the directory at `i` stand all that are deeper, and not the directory itself.
proof fn lemma_deeper_seen(dirs: Seq<ByDepth>, i: int)
    requires
        rising(dirs),
        0 <= i < dirs.len(),
    ensures
        !holds_key(dirs.take(i), dirs[i].key()),
        forall|deep: Seq<Seq<char>>|
            deep.len() > dirs[i].key().len() && #[trigger] holds_key(dirs, deep) ==> holds_key(
                dirs.take(i),
                deep,
            ),
{
    let seen = dirs.take(i);
    if holds_key(seen, dirs[i].key()) {
        let k = choose|k: int| 0 <= k < seen.len() && #[trigger] seen[k].key() == dirs[i].key();
        assert(ByDepth::precedes(dirs[k].key(), dirs[i].key()));
        ByDepth::total(dirs[k].key(), dirs[i].key());
    }
    assert forall|deep: Seq<Seq<char>>|
        deep.len() > dirs[i].key().len() && #[trigger] holds_key(dirs, deep) implies holds_key(
        seen,
        deep,
    ) by {
        let k = choose|k: int| 0 <= k < dirs.len() && #[trigger] dirs[k].key() == deep;
        if k > i {
            assert(ByDepth::precedes(dirs[i].key(), dirs[k].key()));
        }
        assert(seen[k].key() == deep);
    }
}

/// Decides which paths appear in the manifest. `listings` holds the entries of each directory
/// of [`ancestor_dirs`] that is there.
pub fn compute_manifest_paths(managed: &SortedSet<TargetPath>, listings: &Vec<Listing>) -> (r: Vec<
    TargetPath,
>)
    requires
        managed.wf(),
    ensures
        rising(r@),
        forall|path: Seq<Seq<char>>| #[trigger]
            holds_key(r@, path) <==> named(managed.items@, listings@, path),
{
    let collapsed = collapsed_dirs(managed, listings);
    let ghost files = managed.items@;
    let ghost lists = listings@;
    let mut whole: SortedSet<TargetPath> = SortedSet::new();
    for i in 0..collapsed.items.len()
        invariant
            files == managed.items@,
            lists == listings@,
            collapsed.wf(),
            forall|dir: Seq<Seq<char>>| #[trigger]
                collapsed@.contains(dir) <==> collapses(files, lists, dir),
            whole.wf(),
            forall|dir: Seq<Seq<char>>| #[trigger]
                whole@.contains(dir) <==> (holds_key(collapsed.items@.take(i as int), dir)
                    && maximal(files, lists, dir)),
    {
        let dir = &collapsed.items[i];
        assert(dir.key() == dir@);
        assert(collapsed@.contains(dir@));
        let below = lies_below_another(dir, &collapsed);
        assert(below == !maximal(files, lists, dir@)) by {
            assert forall|other: Seq<Seq<char>>|
                #[trigger] collapses(files, lists, other) && other.is_prefix_of(dir@) && other
                    != dir@ implies below by {
                assert(collapsed@.contains(other));
            }
        }
        if !below {
            let _ = whole.insert(dir.copy());
        }
        proof {
            lemma_one_more(collapsed.items@, i as int);
        }
    }
    assert(collapsed.items@.take(collapsed.items@.len() as int) =~= collapsed.items@);
    assert forall|dir: Seq<Seq<char>>| #[trigger] whole@.contains(dir) <==> maximal(
        files,
        lists,
        dir,
    ) by {
        if maximal(files, lists, dir) {
            assert(collapsed@.contains(dir));
        }
    }
    let mut paths: SortedSet<TargetPath> = SortedSet::new();
    for i in 0..whole.items.len()
        invariant
            whole.wf(),
            paths.wf(),
            forall|path: Seq<Seq<char>>| #[trigger]
                paths@.contains(path) <==> holds_key(whole.items@.take(i as int), path),
    {
        proof {
            lemma_one_more(whole.items@, i as int);
        }
        let _ = paths.insert(whole.items[i].copy());
    }
    assert(whole.items@.take(whole.items@.len() as int) =~= whole.items@);
    assert forall|path: Seq<Seq<char>>| #[trigger] paths@.contains(path) <==> (maximal(
        files,
        lists,
        path,
    ) || (holds_key(files.take(0), path) && named(files, lists, path))) by {
        assert(paths@.contains(path) == whole@.contains(path));
    }
    for i in 0..managed.items.len()
        invariant
            files == managed.items@,
            lists == listings@,
            whole.wf(),
            forall|dir: Seq<Seq<char>>| #[trigger]
                whole@.contains(dir) <==> maximal(files, lists, dir),
            paths.wf(),
            forall|path: Seq<Seq<char>>| #[trigger]
                paths@.contains(path) <==> (maximal(files, lists, path) || (holds_key(
                    files.take(i as int),
                    path,
                ) && named(files, lists, path))),
    {
        proof {
            lemma_one_more(files, i as int);
        }
        let file = &managed.items[i];
        assert(file.key() == file@);
        assert(holds_key(files, file@));
        let covered = is_covered(file, &whole);
        assert(covered == exists|dir: Seq<Seq<char>>| #[trigger]
            maximal(files, lists, dir) && dir.is_prefix_of(file@)) by {
            if exists|dir: Seq<Seq<char>>| #[trigger]
                maximal(files, lists, dir) && dir.is_prefix_of(file@) {
                let dir = choose|dir: Seq<Seq<char>>| #[trigger]
                    maximal(files, lists, dir) && dir.is_prefix_of(file@);
                assert(whole@.contains(dir));
            }
        }
        if !covered {
            assert(named(files, lists, file@));
            let _ = paths.insert(file.copy());
        }
    }
    assert(files.take(files.len() as int) =~= files);
    let r = paths.items;
    assert forall|path: Seq<Seq<char>>| #[trigger] holds_key(r@, path) <==> named(
        files,
        lists,
        path,
    ) by {
        assert(paths@.contains(path) == holds_key(r@, path));
    }
    r
}

/// One more item of a list adds its key.
pub proof fn lemma_one_more(items: Seq<TargetPath>, i: int)
    requires
        0 <= i < items.len(),
    ensures
        forall|path: Seq<Seq<char>>| #[trigger]
            holds_key(items.take(i + 1), path) <==> (holds_key(items.take(i), path) || items[i]@
                == path),
{
    let less = items.take(i);
    let more = items.take(i + 1);
    assert forall|path: Seq<Seq<char>>| #[trigger] holds_key(more, path) <==> (holds_key(less, path)
        || items[i]@ == path) by {
        if holds_key(less, path) {
            let k = choose|k: int| 0 <= k < less.len() && #[trigger] less[k].key() == path;
            assert(more[k].key() == path);
        }
        if items[i]@ == path {
            assert(more[i].key() == path);
        }
        if holds_key(more, path) {
            let k = choose|k: int| 0 <= k < more.len() && #[trigger] more[k].key() == path;
            if k < i {
                assert(less[k].key() == path);
            }
        }
    }
}

// ----------------------------------------------------------------------------
// Laws
// ----------------------------------------------------------------------------

/// Every managed file is named itself, or lies in a directory that is named.
pub proof fn law_managed_files_are_covered(
    managed: Seq<TargetPath>,
    listings: Seq<Listing>,
    file: Seq<Seq<char>>,
)
    requires
        holds_key(managed, file),
    ensures
        exists|path: Seq<Seq<char>>| #[trigger]
            named(managed, listings, path) && path.is_prefix_of(file),
{
    if exists|dir: Seq<Seq<char>>| #[trigger]
        maximal(managed, listings, dir) && dir.is_prefix_of(file) {
        let dir = choose|dir: Seq<Seq<char>>| #[trigger]
            maximal(managed, listings, dir) && dir.is_prefix_of(file);
        assert(named(managed, listings, dir));
    } else {
        assert(named(managed, listings, file));
        assert(file.is_prefix_of(file));
    }
}

/// The path that `names` lead to, one below the other, from `dir`.
pub open spec fn descend(dir: Seq<Seq<char>>, names: Seq<Seq<char>>) -> Seq<Seq<char>>
    decreases names.len(),
{
    if names.len() == 0 {
        dir
    } else {
        descend(child_parts(dir, names[0]), names.skip(1))
    }
}

/// Whether `dir` has an entry of this name.
pub open spec fn has_entry(
    listings: Seq<Listing>,
    dir: Seq<Seq<char>>,
    name: Seq<char>,
    directory: bool,
) -> bool {
    listed(listings, dir) is Some && exists|i: int|
        0 <= i < listed(listings, dir)->Some_0.len() && (#[trigger] listed(
            listings,
            dir,
        )->Some_0[i]).name@ == name && listed(listings, dir)->Some_0[i].directory == directory
}

/// Whether `names` lead from `dir` through directories that are there to a file that is there.
pub open spec fn leads_to_file(
    listings: Seq<Listing>,
    dir: Seq<Seq<char>>,
    names: Seq<Seq<char>>,
) -> bool
    decreases names.len(),
{
    if names.len() == 0 {
        false
    } else if names.len() == 1 {
        has_entry(listings, dir, names[0], false)
    } else {
        has_entry(listings, dir, names[0], true) && leads_to_file(
            listings,
            child_parts(dir, names[0]),
            names.skip(1),
        )
    }
}

/// A collapsed directory hides nothing that is not managed: every file that is there below it,
/// however deep, is managed.
pub proof fn law_collapse_hides_nothing_unmanaged(
    managed: Seq<TargetPath>,
    listings: Seq<Listing>,
    dir: Seq<Seq<char>>,
    names: Seq<Seq<char>>,
)
    requires
        collapses(managed, listings, dir),
        leads_to_file(listings, dir, names),
    ensures
        holds_key(managed, descend(dir, names)),
    decreases names.len(),
{
    let list = listed(listings, dir)->Some_0;
    let directory = names.len() > 1;
    let i = choose|i: int|
        0 <= i < list.len() && (#[trigger] list[i]).name@ == names[0] && list[i].directory
            == directory;
    let child = child_parts(dir, list[i].name@);
    if directory {
        law_collapse_hides_nothing_unmanaged(managed, listings, child, names.skip(1));
    } else {
        assert(descend(child, names.skip(1)) == child);
    }
}

/// A directory that is named covers no other path that is named.
pub proof fn law_named_directories_do_not_overlap(
    managed: Seq<TargetPath>,
    listings: Seq<Listing>,
    dir: Seq<Seq<char>>,
    path: Seq<Seq<char>>,
)
    requires
        maximal(managed, listings, dir),
        named(managed, listings, path),
        dir.is_prefix_of(path),
    ensures
        path == dir,
{
}

/// Whether a managed file lies below `dir`, or is it.
pub open spec fn holds_a_managed_file(managed: Seq<TargetPath>, dir: Seq<Seq<char>>) -> bool {
    exists|i: int| 0 <= i < managed.len() && dir.is_prefix_of((#[trigger] managed[i])@)
}

/// A manifest names nothing that has no managed file: each path is one, or a directory above one.
pub proof fn law_named_paths_are_managed(
    managed: Seq<TargetPath>,
    listings: Seq<Listing>,
    path: Seq<Seq<char>>,
)
    requires
        named(managed, listings, path),
    ensures
        holds_a_managed_file(managed, path),
{
    if maximal(managed, listings, path) {
        let i = choose|i: int|
            0 <= i < managed.len() && path.len() < (#[trigger] managed[i])@.len()
                && path.is_prefix_of(managed[i]@);
        assert(path.is_prefix_of(managed[i]@));
    } else {
        let i = choose|i: int| 0 <= i < managed.len() && #[trigger] managed[i].key() == path;
        assert(managed[i]@ =~= managed[i]@.take(path.len() as int));
        assert(path.is_prefix_of(managed[i]@));
    }
}

/// A directory in which all is managed is named as a whole, or one above it is: where it has two
/// entries or more, and each of them is a managed file or a directory that collapses itself.
pub proof fn law_full_directories_collapse(
    managed: Seq<TargetPath>,
    listings: Seq<Listing>,
    dir: Seq<Seq<char>>,
    file: Seq<Seq<char>>,
    entries: Seq<ListedEntry>,
)
    requires
        dir.len() > 0,
        holds_key(managed, file),
        dir.len() < file.len(),
        dir.is_prefix_of(file),
        listed(listings, dir) == Some(entries),
        entries.len() >= 2,
        forall|i: int|
            0 <= i < entries.len() ==> (#[trigger] entries[i]).name@ != "."@ && if entries[i].directory {
                collapses(managed, listings, dir.push(entries[i].name@))
            } else {
                holds_key(managed, dir.push(entries[i].name@))
            },
    ensures
        collapses(managed, listings, dir),
        exists|top: Seq<Seq<char>>| #[trigger]
            named(managed, listings, top) && top.is_prefix_of(dir),
{
    let k = choose|k: int| 0 <= k < managed.len() && #[trigger] managed[k].key() == file;
    assert(managed[k]@ == file);
    assert(is_ancestor(managed, dir));
    assert forall|i: int| 0 <= i < entries.len() implies {
        let child = child_parts(dir, #[trigger] entries[i].name@);
        if entries[i].directory {
            child.len() > dir.len() && collapses(managed, listings, child)
        } else {
            holds_key(managed, child)
        }
    } by {
        assert(entries[i].name@ != "."@);
    }
    assert(collapses(managed, listings, dir));
    lemma_top(managed, listings, dir, dir.len());
}

/// Of the directories above one that collapses, the highest is named.
proof fn lemma_top(
    managed: Seq<TargetPath>,
    listings: Seq<Listing>,
    dir: Seq<Seq<char>>,
    n: nat,
)
    requires
        collapses(managed, listings, dir),
        n == dir.len(),
    ensures
        exists|top: Seq<Seq<char>>| #[trigger]
            named(managed, listings, top) && top.is_prefix_of(dir),
    decreases n,
{
    if maximal(managed, listings, dir) {
        assert(named(managed, listings, dir));
        assert(dir =~= dir.take(dir.len() as int));
        assert(dir.is_prefix_of(dir));
    } else {
        let other = choose|other: Seq<Seq<char>>|
            #[trigger] collapses(managed, listings, other) && other.is_prefix_of(dir) && other
                != dir;
        if other.len() == dir.len() {
            assert(other =~= dir);
        }
        lemma_top(managed, listings, other, other.len());
        let top = choose|top: Seq<Seq<char>>| #[trigger]
            named(managed, listings, top) && top.is_prefix_of(other);
        assert(top =~= dir.take(top.len() as int));
        assert(top.is_prefix_of(dir));
    }
}

/// A directory does not collapse where it is not there, has less than two entries, or has a file
/// that is not managed.
pub proof fn law_other_directories_do_not_collapse(
    managed: Seq<TargetPath>,
    listings: Seq<Listing>,
    dir: Seq<Seq<char>>,
)
    ensures
        listed(listings, dir) is None ==> !collapses(managed, listings, dir),
        listed(listings, dir) matches Some(list) ==> {
            &&& list.len() < 2 ==> !collapses(managed, listings, dir)
            &&& forall|i: int|
                0 <= i < list.len() && !(#[trigger] list[i]).directory && list[i].name@ != "."@
                    && !holds_key(managed, dir.push(list[i].name@)) ==> !collapses(
                    managed,
                    listings,
                    dir,
                )
        },
{
    if let Some(list) = listed(listings, dir) {
        assert forall|i: int|
            0 <= i < list.len() && !(#[trigger] list[i]).directory && list[i].name@ != "."@
                && !holds_key(managed, dir.push(list[i].name@)) implies !collapses(
            managed,
            listings,
            dir,
        ) by {
            assert(child_parts(dir, list[i].name@) == dir.push(list[i].name@));
        }
    }
}

} // verus!
