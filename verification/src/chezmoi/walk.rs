//! The walk over a chezmoi source directory.

use vstd::prelude::*;

use crate::chezmoi::names::{
    dir_name_valid, dir_past_remove, dir_source, dir_target, file_kind, file_name_valid, file_stem,
    file_target, is_encrypted, is_template, is_well_formed, law_directory_names_read_back,
    parse_dir_name, parse_file_name, FileKind, Form,
};
use crate::paths::{child_parts, TargetPath};
use crate::text::{decimal, decimal_of, join, joined, same, starts_with, views};

verus! {

/// An entry of a source directory.
#[derive(Debug)]
pub struct SourceEntry {
    pub name: String,
    pub kind: SourceKind,
}

/// What an entry of a source directory is. A directory comes with its entries, as far as
/// [`enters_directory`] holds of its name.
#[derive(Debug)]
pub enum SourceKind {
    Directory(Vec<SourceEntry>),
    File,
    Symlink,
    Other,
}

/// A file that chezmoi manages.
#[derive(Debug)]
pub struct TargetEntry {
    pub target_rel_path: TargetPath,
    pub kind: FileKind,
    pub template: bool,
    pub encrypted: bool,
}

/// The value of a [`TargetEntry`].
pub struct TargetView {
    pub path: Seq<Seq<char>>,
    pub kind: FileKind,
    pub template: bool,
    pub encrypted: bool,
}

impl View for TargetEntry {
    type V = TargetView;

    open spec fn view(&self) -> TargetView {
        TargetView {
            path: self.target_rel_path@,
            kind: self.kind,
            template: self.template,
            encrypted: self.encrypted,
        }
    }
}

/// The values of a list of entries.
pub open spec fn entry_views(list: Seq<TargetEntry>) -> Seq<TargetView> {
    list.map_values(|e: TargetEntry| e@)
}

/// What a migration cannot carry over, counted.
#[derive(Debug)]
pub struct Warnings {
    pub scripts: usize,
    pub symlinks: usize,
    pub modifies: usize,
    pub creates: usize,
    pub templates: usize,
    pub encrypted: usize,
    pub external_dirs: usize,
}

/// The value of [`Warnings`].
pub struct Counts {
    pub scripts: nat,
    pub symlinks: nat,
    pub modifies: nat,
    pub creates: nat,
    pub templates: nat,
    pub encrypted: nat,
    pub external_dirs: nat,
}

impl Counts {
    /// Nothing counted.
    pub open spec fn zero() -> Counts {
        Counts {
            scripts: 0,
            symlinks: 0,
            modifies: 0,
            creates: 0,
            templates: 0,
            encrypted: 0,
            external_dirs: 0,
        }
    }

    /// The sums of the counts.
    pub open spec fn plus(self, other: Counts) -> Counts {
        Counts {
            scripts: self.scripts + other.scripts,
            symlinks: self.symlinks + other.symlinks,
            modifies: self.modifies + other.modifies,
            creates: self.creates + other.creates,
            templates: self.templates + other.templates,
            encrypted: self.encrypted + other.encrypted,
            external_dirs: self.external_dirs + other.external_dirs,
        }
    }

    /// Whether no count is above that of `other`.
    pub open spec fn up_to(self, other: Counts) -> bool {
        &&& self.scripts <= other.scripts
        &&& self.symlinks <= other.symlinks
        &&& self.modifies <= other.modifies
        &&& self.creates <= other.creates
        &&& self.templates <= other.templates
        &&& self.encrypted <= other.encrypted
        &&& self.external_dirs <= other.external_dirs
    }

    /// Whether each count can be held.
    pub open spec fn fits(self) -> bool {
        &&& self.scripts <= usize::MAX
        &&& self.symlinks <= usize::MAX
        &&& self.modifies <= usize::MAX
        &&& self.creates <= usize::MAX
        &&& self.templates <= usize::MAX
        &&& self.encrypted <= usize::MAX
        &&& self.external_dirs <= usize::MAX
    }
}

impl View for Warnings {
    type V = Counts;

    open spec fn view(&self) -> Counts {
        Counts {
            scripts: self.scripts as nat,
            symlinks: self.symlinks as nat,
            modifies: self.modifies as nat,
            creates: self.creates as nat,
            templates: self.templates as nat,
            encrypted: self.encrypted as nat,
            external_dirs: self.external_dirs as nat,
        }
    }
}

// ----------------------------------------------------------------------------
// What each entry yields
// ----------------------------------------------------------------------------

/// Whether an entry of this name is looked at: it is neither a git directory nor one of
/// chezmoi's own.
pub open spec fn looked_at(name: Seq<char>, directory: bool) -> bool {
    !(directory && name == ".git"@) && !".chezmoi"@.is_prefix_of(name)
}

/// Whether a directory of this name comes from elsewhere.
pub open spec fn is_external(name: Seq<char>) -> bool {
    "external_"@.is_prefix_of(dir_past_remove(name))
}

/// Whether the walk goes into a directory of this name.
pub open spec fn entered(name: Seq<char>) -> bool {
    &&& looked_at(name, true)
    &&& dir_name_valid(name)
    &&& !"remove_"@.is_prefix_of(name)
    &&& !is_external(name)
}

/// Whether a file of this name has a target that is taken over.
pub open spec fn taken_over(name: Seq<char>) -> bool {
    &&& looked_at(name, false)
    &&& file_name_valid(name)
    &&& file_kind(name) == FileKind::Regular || file_kind(name) == FileKind::Create
}

/// The target of a file in a directory with the target `prefix`.
pub open spec fn target_of(name: Seq<char>, prefix: Seq<Seq<char>>) -> TargetView {
    TargetView {
        path: child_parts(prefix, file_target(name)),
        kind: file_kind(name),
        template: is_template(file_stem(name)),
        encrypted: is_encrypted(name),
    }
}

/// The targets that the walk finds in `list`, in order.
pub open spec fn walked(list: Seq<SourceEntry>, prefix: Seq<Seq<char>>) -> Seq<TargetView>
    decreases list,
{
    if list.len() == 0 {
        Seq::empty()
    } else {
        walked(list.drop_last(), prefix) + entry_walked(list.last(), prefix)
    }
}

/// The targets that the walk finds in one entry.
pub open spec fn entry_walked(entry: SourceEntry, prefix: Seq<Seq<char>>) -> Seq<TargetView>
    decreases entry,
{
    let name = entry.name@;
    match entry.kind {
        SourceKind::Directory(inner) => if entered(name) {
            walked(inner@, child_parts(prefix, dir_target(name)))
        } else {
            Seq::empty()
        },
        SourceKind::File | SourceKind::Symlink => if taken_over(name) {
            seq![target_of(name, prefix)]
        } else {
            Seq::empty()
        },
        SourceKind::Other => Seq::empty(),
    }
}

/// One if `b` holds, else nothing.
pub open spec fn one_if(b: bool) -> nat {
    if b {
        1
    } else {
        0
    }
}

/// What is counted of a file of this kind.
pub open spec fn kind_counts(kind: FileKind, template: bool, encrypted: bool) -> Counts {
    let taken = kind == FileKind::Regular || kind == FileKind::Create;
    Counts {
        scripts: one_if(kind == FileKind::Script),
        symlinks: one_if(kind == FileKind::Symlink),
        modifies: one_if(kind == FileKind::Modify),
        creates: one_if(kind == FileKind::Create),
        templates: one_if(taken && template),
        encrypted: one_if(taken && encrypted),
        external_dirs: 0,
    }
}

/// What is counted of a file.
pub open spec fn file_counts(name: Seq<char>) -> Counts {
    if looked_at(name, false) && file_name_valid(name) {
        kind_counts(file_kind(name), is_template(file_stem(name)), is_encrypted(name))
    } else {
        Counts::zero()
    }
}

/// What is counted of a directory itself.
pub open spec fn dir_counts(name: Seq<char>) -> Counts {
    Counts {
        external_dirs: one_if(
            looked_at(name, true) && dir_name_valid(name) && !"remove_"@.is_prefix_of(name)
                && is_external(name),
        ),
        ..Counts::zero()
    }
}

/// What the walk counts in `list`.
pub open spec fn counted(list: Seq<SourceEntry>) -> Counts
    decreases list,
{
    if list.len() == 0 {
        Counts::zero()
    } else {
        counted(list.drop_last()).plus(entry_counted(list.last()))
    }
}

/// What the walk counts in one entry.
pub open spec fn entry_counted(entry: SourceEntry) -> Counts
    decreases entry,
{
    let name = entry.name@;
    match entry.kind {
        SourceKind::Directory(inner) => if entered(name) {
            counted(inner@)
        } else {
            dir_counts(name)
        },
        SourceKind::File | SourceKind::Symlink => file_counts(name),
        SourceKind::Other => Counts::zero(),
    }
}

// ----------------------------------------------------------------------------
// The walk
// ----------------------------------------------------------------------------

/// Whether an entry is looked at.
fn is_looked_at(name: &str, directory: bool) -> (r: bool)
    ensures
        r == looked_at(name@, directory),
{
    if directory && same(name, ".git") {
        return false;
    }
    !starts_with(name, ".chezmoi")
}

/// Whether the walk goes into a directory of this name.
pub fn enters_directory(name: &str) -> (r: bool)
    ensures
        r == entered(name@),
{
    if !is_looked_at(name, true) {
        return false;
    }
    match parse_dir_name(name) {
        Ok(attr) => !attr.remove && !attr.external,
        Err(_) => false,
    }
}

/// Walks the entries of a source directory whose target is `target_prefix`. Adds the targets
/// that it finds to `entries`, and what cannot be carried over to `warnings`.
pub fn walk_source_dir(
    list: &Vec<SourceEntry>,
    target_prefix: &TargetPath,
    entries: &mut Vec<TargetEntry>,
    warnings: &mut Warnings,
)
    requires
        old(warnings)@.plus(counted(list@)).fits(),
    ensures
        entry_views(final(entries)@) == entry_views(old(entries)@) + walked(list@, target_prefix@),
        final(warnings)@ == old(warnings)@.plus(counted(list@)),
        forall|way: Seq<int>| #[trigger]
            leads_to_file(list@, way) && is_reached(names_on(list@, way)) ==> have_target(
                entry_views(final(entries)@),
                names_on(list@, way),
                target_prefix@,
            ),
    decreases list@,
{
    let ghost entries0 = entry_views(entries@);
    let ghost warnings0 = warnings@;
    assert(list@.take(0) =~= Seq::<SourceEntry>::empty());
    assert(entries0 + walked(list@.take(0), target_prefix@) =~= entries0);
    for i in 0..list.len()
        invariant
            entry_views(entries@) == entries0 + walked(list@.take(i as int), target_prefix@),
            warnings@ == warnings0.plus(counted(list@.take(i as int))),
            warnings0.plus(counted(list@)).fits(),
    {
        let ghost now = list@.take(i + 1);
        assert(now.drop_last() =~= list@.take(i as int));
        proof {
            lemma_counts_grow(list@, i + 1);
        }
        walk_entry(&list[i], target_prefix, entries, warnings);
        assert(entry_views(entries@) =~= entries0 + walked(now, target_prefix@));
    }
    assert(list@.take(list@.len() as int) =~= list@);
    proof {
        let all = entry_views(entries@);
        assert forall|way: Seq<int>| #[trigger]
            leads_to_file(list@, way) && is_reached(names_on(list@, way)) implies have_target(
            all,
            names_on(list@, way),
            target_prefix@,
        ) by {
            let i = law_each_file_has_its_target(list@, target_prefix@, way);
            assert(all[entries0.len() + i] == walked(list@, target_prefix@)[i]);
        }
    }
}

/// Walks one entry.
fn walk_entry(
    entry: &SourceEntry,
    target_prefix: &TargetPath,
    entries: &mut Vec<TargetEntry>,
    warnings: &mut Warnings,
)
    requires
        old(warnings)@.plus(entry_counted(*entry)).fits(),
    ensures
        entry_views(final(entries)@) == entry_views(old(entries)@) + entry_walked(
            *entry,
            target_prefix@,
        ),
        final(warnings)@ == old(warnings)@.plus(entry_counted(*entry)),
    decreases *entry,
{
    let name = entry.name.as_str();
    let ghost before = entry_views(entries@);
    assert(before + Seq::<TargetView>::empty() =~= before);
    match &entry.kind {
        SourceKind::Directory(inner) => {
            if !is_looked_at(name, true) {
                return;
            }
            match parse_dir_name(name) {
                Ok(attr) => {
                    if attr.remove {
                        return;
                    }
                    if attr.external {
                        warnings.external_dirs = warnings.external_dirs + 1;
                        return;
                    }
                    let new_target = target_prefix.child(attr.target_name.as_str());
                    walk_source_dir(inner, &new_target, entries, warnings);
                },
                Err(_) => {},
            }
        },
        SourceKind::File | SourceKind::Symlink => {
            if !is_looked_at(name, false) {
                return;
            }
            match parse_file_name(name) {
                Ok(attr) => {
                    count_file(attr.kind, attr.template, attr.encrypted, warnings);
                    if attr.kind == FileKind::Regular || attr.kind == FileKind::Create {
                        let ghost before_push = entries@;
                        let target = TargetEntry {
                            target_rel_path: target_prefix.child(attr.target_name.as_str()),
                            kind: attr.kind,
                            template: attr.template,
                            encrypted: attr.encrypted,
                        };
                        entries.push(target);
                        assert(entry_views(entries@) =~= entry_views(before_push).push(target@));
                        assert(entry_views(entries@) =~= before + seq![target@]);
                    }
                },
                Err(_) => {},
            }
        },
        SourceKind::Other => {},
    }
}

/// Counts a file of this kind.
fn count_file(kind: FileKind, template: bool, encrypted: bool, warnings: &mut Warnings)
    requires
        old(warnings)@.plus(kind_counts(kind, template, encrypted)).fits(),
    ensures
        final(warnings)@ == old(warnings)@.plus(kind_counts(kind, template, encrypted)),
{
    match kind {
        FileKind::Remove => {
            return;
        },
        FileKind::Script => {
            warnings.scripts = warnings.scripts + 1;
            return;
        },
        FileKind::Symlink => {
            warnings.symlinks = warnings.symlinks + 1;
            return;
        },
        FileKind::Modify => {
            warnings.modifies = warnings.modifies + 1;
            return;
        },
        FileKind::Create => {
            warnings.creates = warnings.creates + 1;
        },
        FileKind::Regular => {},
    }
    if template {
        warnings.templates = warnings.templates + 1;
    }
    if encrypted {
        warnings.encrypted = warnings.encrypted + 1;
    }
}

/// A part of a list counts no more than the whole.
proof fn lemma_counts_grow(list: Seq<SourceEntry>, n: int)
    requires
        0 <= n <= list.len(),
    ensures
        counted(list.take(n)).up_to(counted(list)),
    decreases list.len(),
{
    if n == list.len() {
        assert(list.take(n) =~= list);
    } else {
        lemma_counts_grow(list.drop_last(), n);
        assert(list.drop_last().take(n) =~= list.take(n));
    }
}

impl Warnings {
    /// Nothing counted.
    pub fn new() -> (r: Warnings)
        ensures
            r@ == Counts::zero(),
    {
        Warnings {
            scripts: 0,
            symlinks: 0,
            modifies: 0,
            creates: 0,
            templates: 0,
            encrypted: 0,
            external_dirs: 0,
        }
    }

    /// Whether anything was counted.
    pub fn has_any(&self) -> (r: bool)
        ensures
            r == (self@ != Counts::zero()),
    {
        self.scripts > 0 || self.symlinks > 0 || self.modifies > 0 || self.creates > 0
            || self.templates > 0 || self.encrypted > 0 || self.external_dirs > 0
    }

    /// The counts in words.
    pub fn summary(&self) -> (r: String)
        ensures
            r@ == joined(summary_parts(self@), ", "@),
    {
        let mut parts: Vec<String> = Vec::new();
        assert(views(parts@) =~= Seq::<Seq<char>>::empty());
        add_part(&mut parts, self.scripts, " script(s) skipped");
        add_part(&mut parts, self.symlinks, " symlink(s) skipped");
        add_part(&mut parts, self.modifies, " modify script(s) skipped");
        add_part(&mut parts, self.creates, " create-only file(s) (semantics lost)");
        add_part(&mut parts, self.templates, " template(s) detected");
        add_part(&mut parts, self.encrypted, " encrypted file(s) detected");
        add_part(&mut parts, self.external_dirs, " external dir(s) skipped");
        assert(views(parts@) =~= summary_parts(self@));
        join(&parts, ", ")
    }
}

/// A count in words, where it is not zero.
pub open spec fn summary_part(n: nat, what: Seq<char>) -> Seq<Seq<char>> {
    if n > 0 {
        seq![decimal(n) + what]
    } else {
        Seq::empty()
    }
}

/// The counts in words, each apart.
pub open spec fn summary_parts(c: Counts) -> Seq<Seq<char>> {
    summary_part(c.scripts, " script(s) skipped"@)
        + summary_part(c.symlinks, " symlink(s) skipped"@)
        + summary_part(c.modifies, " modify script(s) skipped"@)
        + summary_part(c.creates, " create-only file(s) (semantics lost)"@)
        + summary_part(c.templates, " template(s) detected"@)
        + summary_part(c.encrypted, " encrypted file(s) detected"@)
        + summary_part(c.external_dirs, " external dir(s) skipped"@)
}

fn add_part(parts: &mut Vec<String>, n: usize, what: &str)
    ensures
        views(final(parts)@) == views(old(parts)@) + summary_part(n as nat, what@),
{
    let ghost before = parts@;
    if n > 0 {
        let part = decimal_of(n).concat(what);
        parts.push(part);
        assert(views(parts@) =~= views(before).push(part@));
    }
    assert(views(parts@) =~= views(before) + summary_part(n as nat, what@));
}

// ----------------------------------------------------------------------------
// Laws
// ----------------------------------------------------------------------------

/// Only plain and create-only files are taken over: no script, no symbolic link, nothing that
/// modifies or removes.
pub proof fn law_walk_takes_files_only(list: Seq<SourceEntry>, prefix: Seq<Seq<char>>, i: int)
    requires
        0 <= i < walked(list, prefix).len(),
    ensures
        walked(list, prefix)[i].kind == FileKind::Regular || walked(list, prefix)[i].kind
            == FileKind::Create,
    decreases list,
{
    let before = walked(list.drop_last(), prefix);
    let own = entry_walked(list.last(), prefix);
    assert(walked(list, prefix) == before + own);
    if i < before.len() {
        law_walk_takes_files_only(list.drop_last(), prefix, i);
    } else if list.last().kind is Directory {
        let inner = list.last().kind->Directory_0@;
        law_walk_takes_files_only(
            inner,
            child_parts(prefix, dir_target(list.last().name@)),
            i - before.len(),
        );
    }
}

/// What is found below a directory stays below its target.
pub proof fn law_walk_stays_below(list: Seq<SourceEntry>, prefix: Seq<Seq<char>>, i: int)
    requires
        0 <= i < walked(list, prefix).len(),
    ensures
        prefix.is_prefix_of(walked(list, prefix)[i].path),
    decreases list,
{
    let before = walked(list.drop_last(), prefix);
    let own = entry_walked(list.last(), prefix);
    assert(walked(list, prefix) == before + own);
    if i < before.len() {
        law_walk_stays_below(list.drop_last(), prefix, i);
    } else if list.last().kind is Directory {
        let inner = list.last().kind->Directory_0@;
        let below = child_parts(prefix, dir_target(list.last().name@));
        law_walk_stays_below(inner, below, i - before.len());
        let path = walked(list, prefix)[i].path;
        assert(path == walked(inner, below)[i - before.len()].path);
        assert(below =~= path.take(below.len() as int));
        assert(prefix =~= path.take(prefix.len() as int));
    } else {
        assert(prefix =~= walked(list, prefix)[i].path.take(prefix.len() as int));
    }
}

/// The entries of a directory; none of anything else.
pub open spec fn inner_entries(entry: SourceEntry) -> Seq<SourceEntry> {
    match entry.kind {
        SourceKind::Directory(inner) => inner@,
        _ => Seq::empty(),
    }
}

/// Whether the positions lead through directories to a file: each is that of an entry in the
/// directory before it.
pub open spec fn leads_to_file(list: Seq<SourceEntry>, way: Seq<int>) -> bool
    decreases way.len(),
{
    &&& way.len() > 0
    &&& 0 <= way[0] < list.len()
    &&& if way.len() == 1 {
        list[way[0]].kind is File || list[way[0]].kind is Symlink
    } else {
        list[way[0]].kind is Directory && leads_to_file(inner_entries(list[way[0]]), way.skip(1))
    }
}

/// The names on the way to a file, its own last.
pub open spec fn names_on(list: Seq<SourceEntry>, way: Seq<int>) -> Seq<Seq<char>>
    decreases way.len(),
{
    if way.len() == 0 {
        Seq::empty()
    } else {
        seq![list[way[0]].name@] + names_on(inner_entries(list[way[0]]), way.skip(1))
    }
}

/// Whether a walk takes the file of these names: it goes into each directory on the way.
pub open spec fn is_reached(names: Seq<Seq<char>>) -> bool {
    &&& names.len() > 0
    &&& taken_over(names.last())
    &&& forall|k: int| 0 <= k < names.len() - 1 ==> entered(#[trigger] names[k])
}

/// The names of the targets on the way to a file, one for each source name.
pub open spec fn targets_on(names: Seq<Seq<char>>) -> Seq<Seq<char>> {
    Seq::new(
        names.len(),
        |k: int|
            if k == names.len() - 1 {
                file_target(names[k])
            } else {
                dir_target(names[k])
            },
    )
}

/// Whether `target` is that of the file of these names below `prefix`: its path has the prefix,
/// then the target name of each directory on the way, then its own, where none of them is a dot.
pub open spec fn is_target_of(
    target: TargetView,
    names: Seq<Seq<char>>,
    prefix: Seq<Seq<char>>,
) -> bool {
    &&& !targets_on(names).contains("."@) ==> target.path == prefix + targets_on(names)
    &&& target.kind == file_kind(names.last())
    &&& target.template == is_template(file_stem(names.last()))
    &&& target.encrypted == is_encrypted(names.last())
}

/// Whether the file of these names has its target below `prefix` among these.
pub open spec fn have_target(
    targets: Seq<TargetView>,
    names: Seq<Seq<char>>,
    prefix: Seq<Seq<char>>,
) -> bool {
    exists|i: int| 0 <= i < targets.len() && is_target_of(#[trigger] targets[i], names, prefix)
}

proof fn lemma_part_of_walk(list: Seq<SourceEntry>, prefix: Seq<Seq<char>>, k: int, m: int) -> (i:
    int)
    requires
        0 <= k < list.len(),
        0 <= m < entry_walked(list[k], prefix).len(),
    ensures
        0 <= i < walked(list, prefix).len(),
        walked(list, prefix)[i] == entry_walked(list[k], prefix)[m],
    decreases list.len(),
{
    let before = walked(list.drop_last(), prefix);
    if k == list.len() - 1 {
        before.len() + m
    } else {
        assert(list.drop_last()[k] == list[k]);
        lemma_part_of_walk(list.drop_last(), prefix, k, m)
    }
}

proof fn lemma_names_on(list: Seq<SourceEntry>, way: Seq<int>)
    ensures
        names_on(list, way).len() == way.len(),
    decreases way.len(),
{
    if way.len() > 0 {
        lemma_names_on(inner_entries(list[way[0]]), way.skip(1));
    }
}

proof fn lemma_target_below(
    target: TargetView,
    names: Seq<Seq<char>>,
    prefix: Seq<Seq<char>>,
)
    requires
        names.len() > 1,
        is_target_of(target, names.skip(1), child_parts(prefix, dir_target(names[0]))),
    ensures
        is_target_of(target, names, prefix),
{
    let rest = names.skip(1);
    let all = targets_on(names);
    let later = targets_on(rest);
    assert(rest.last() == names.last());
    assert(all.skip(1) =~= later);
    if !all.contains("."@) {
        assert(all[0] == dir_target(names[0]));
        assert(dir_target(names[0]) != "."@);
        if later.contains("."@) {
            let k = choose|k: int| 0 <= k < later.len() && later[k] == "."@;
            assert(all[k + 1] == "."@);
        }
        assert(prefix.push(all[0]) + later =~= prefix + all);
    }
}

/// Every file that a walk reaches has its target: the prefix, the target names of all directories
/// on the way, in order, and its own.
pub proof fn law_each_file_has_its_target(
    list: Seq<SourceEntry>,
    prefix: Seq<Seq<char>>,
    way: Seq<int>,
) -> (i: int)
    requires
        leads_to_file(list, way),
        is_reached(names_on(list, way)),
    ensures
        0 <= i < walked(list, prefix).len(),
        is_target_of(walked(list, prefix)[i], names_on(list, way), prefix),
    decreases way.len(),
{
    let names = names_on(list, way);
    let entry = list[way[0]];
    lemma_names_on(list, way);
    if way.len() == 1 {
        assert(names =~= seq![entry.name@]);
        let target = entry_walked(entry, prefix)[0];
        assert(targets_on(names) =~= seq![file_target(entry.name@)]);
        assert(targets_on(names)[0] == file_target(entry.name@));
        assert(prefix.push(file_target(entry.name@)) =~= prefix + targets_on(names));
        lemma_part_of_walk(list, prefix, way[0], 0)
    } else {
        let inner = inner_entries(entry);
        let rest = way.skip(1);
        let below = child_parts(prefix, dir_target(entry.name@));
        lemma_names_on(inner, rest);
        assert(names.skip(1) =~= names_on(inner, rest));
        assert(names[0] == entry.name@);
        assert(names_on(inner, rest).last() == names.last());
        assert forall|k: int| 0 <= k < names_on(inner, rest).len() - 1 implies entered(
            #[trigger] names_on(inner, rest)[k],
        ) by {
            assert(names_on(inner, rest)[k] == names[k + 1]);
        }
        let m = law_each_file_has_its_target(inner, below, rest);
        assert(entered(names[0]));
        lemma_target_below(walked(inner, below)[m], names, prefix);
        lemma_part_of_walk(list, prefix, way[0], m)
    }
}

/// Every target that a walk finds is that of a file that it reaches.
pub proof fn law_each_target_has_its_file(
    list: Seq<SourceEntry>,
    prefix: Seq<Seq<char>>,
    i: int,
) -> (way: Seq<int>)
    requires
        0 <= i < walked(list, prefix).len(),
    ensures
        leads_to_file(list, way),
        is_reached(names_on(list, way)),
        is_target_of(walked(list, prefix)[i], names_on(list, way), prefix),
    decreases list,
{
    let before = walked(list.drop_last(), prefix);
    let entry = list.last();
    let own = entry_walked(entry, prefix);
    let target = walked(list, prefix)[i];
    if i < before.len() {
        let way = law_each_target_has_its_file(list.drop_last(), prefix, i);
        assert(list.drop_last()[way[0]] == list[way[0]]);
        assert(names_on(list.drop_last(), way) == names_on(list, way));
        way
    } else if entry.kind is Directory {
        let inner = entry.kind->Directory_0@;
        let below = child_parts(prefix, dir_target(entry.name@));
        assert(target == walked(inner, below)[i - before.len()]);
        let rest = law_each_target_has_its_file(inner, below, i - before.len());
        let way = seq![list.len() - 1] + rest;
        assert(way.skip(1) =~= rest);
        let names = names_on(list, way);
        lemma_names_on(inner, rest);
        assert(names == seq![entry.name@] + names_on(inner, rest));
        assert(names.skip(1) =~= names_on(inner, rest));
        assert(names.last() == names_on(inner, rest).last());
        assert forall|k: int| 0 <= k < names.len() - 1 implies entered(#[trigger] names[k]) by {
            if k > 0 {
                assert(names[k] == names_on(inner, rest)[k - 1]);
            }
        }
        lemma_target_below(target, names, prefix);
        way
    } else {
        let way = seq![list.len() - 1];
        let names = names_on(list, way);
        assert(names_on(inner_entries(entry), way.skip(1)) =~= Seq::empty());
        assert(names =~= seq![entry.name@]);
        assert(targets_on(names) =~= seq![file_target(entry.name@)]);
        assert(targets_on(names)[0] == file_target(entry.name@));
        assert(prefix.push(file_target(entry.name@)) =~= prefix + targets_on(names));
        assert(target == own[i - before.len()]);
        way
    }
}

/// What chezmoi and git keep for themselves is not looked at, and everything else is.
pub proof fn law_what_is_looked_at(name: Seq<char>, rest: Seq<char>, directory: bool)
    ensures
        !looked_at(".chezmoi"@ + rest, directory),
        !looked_at(".git"@, true),
        !".chezmoi"@.is_prefix_of(name) && name != ".git"@ ==> looked_at(name, directory),
        !".chezmoi"@.is_prefix_of(name) ==> looked_at(name, false),
{
    reveal_strlit(".chezmoi");
    assert((".chezmoi"@ + rest).subrange(0, 8) =~= ".chezmoi"@);
}

/// The walk goes into a directory unless it is to be removed or comes from elsewhere.
pub proof fn law_which_directories_are_entered(
    remove: bool,
    external: bool,
    exact: bool,
    private: bool,
    read_only: bool,
    form: Form,
    rest: Seq<char>,
)
    requires
        is_well_formed(form, rest),
        !".chezmoi"@.is_prefix_of(
            dir_source(remove, external, exact, private, read_only, form, rest),
        ),
        dir_source(remove, external, exact, private, read_only, form, rest) != ".git"@,
    ensures
        ({
            let name = dir_source(remove, external, exact, private, read_only, form, rest);
            &&& entered(name) <==> !remove && !external
            &&& dir_counts(name).external_dirs == if external && !remove {
                1nat
            } else {
                0nat
            }
        }),
{
    law_directory_names_read_back(remove, external, exact, private, read_only, form, rest);
}

/// A file is taken over where it is a plain or a create-only one, and each other kind is counted
/// for what it is.
pub proof fn law_which_files_are_taken(name: Seq<char>)
    requires
        !".chezmoi"@.is_prefix_of(name),
        file_name_valid(name),
    ensures
        taken_over(name) <==> file_kind(name) is Regular || file_kind(name) is Create,
        file_counts(name).scripts == one_if(file_kind(name) is Script),
        file_counts(name).symlinks == one_if(file_kind(name) is Symlink),
        file_counts(name).modifies == one_if(file_kind(name) is Modify),
        file_counts(name).creates == one_if(file_kind(name) is Create),
        file_counts(name).external_dirs == 0,
{
}

/// How many of the targets are create-only, templates and encrypted.
pub open spec fn target_counts(targets: Seq<TargetView>) -> (nat, nat, nat)
    decreases targets.len(),
{
    if targets.len() == 0 {
        (0, 0, 0)
    } else {
        let before = target_counts(targets.drop_last());
        (
            before.0 + one_if(targets.last().kind is Create),
            before.1 + one_if(targets.last().template),
            before.2 + one_if(targets.last().encrypted),
        )
    }
}

proof fn lemma_target_counts(a: Seq<TargetView>, b: Seq<TargetView>)
    ensures
        target_counts(a + b).0 == target_counts(a).0 + target_counts(b).0,
        target_counts(a + b).1 == target_counts(a).1 + target_counts(b).1,
        target_counts(a + b).2 == target_counts(a).2 + target_counts(b).2,
    decreases b.len(),
{
    if b.len() == 0 {
        assert(a + b =~= a);
    } else {
        lemma_target_counts(a, b.drop_last());
        assert((a + b).drop_last() =~= a + b.drop_last());
        assert((a + b).last() == b.last());
    }
}

/// What is counted as create-only, as a template and as encrypted are the targets that are.
pub proof fn law_counts_are_those_of_the_targets(list: Seq<SourceEntry>, prefix: Seq<Seq<char>>)
    ensures
        counted(list).creates == target_counts(walked(list, prefix)).0,
        counted(list).templates == target_counts(walked(list, prefix)).1,
        counted(list).encrypted == target_counts(walked(list, prefix)).2,
    decreases list,
{
    if list.len() > 0 {
        let entry = list.last();
        let before = walked(list.drop_last(), prefix);
        let own = entry_walked(entry, prefix);
        law_counts_are_those_of_the_targets(list.drop_last(), prefix);
        lemma_target_counts(before, own);
        match entry.kind {
            SourceKind::Directory(inner) => {
                if entered(entry.name@) {
                    law_counts_are_those_of_the_targets(
                        inner@,
                        child_parts(prefix, dir_target(entry.name@)),
                    );
                }
            },
            SourceKind::Other => {},
            _ => {
                if taken_over(entry.name@) {
                    assert(own.drop_last() =~= Seq::empty());
                    assert(own.last() == target_of(entry.name@, prefix));
                    reveal_with_fuel(target_counts, 2);
                } else {
                    assert(file_counts(entry.name@).creates == 0);
                }
            },
        }
        assert(walked(list, prefix) == before + own);
        assert(counted(list) == counted(list.drop_last()).plus(entry_counted(entry)));
        assert(entry_counted(entry).creates == target_counts(own).0);
        assert(entry_counted(entry).templates == target_counts(own).1);
        assert(entry_counted(entry).encrypted == target_counts(own).2);
    }
}

/// How often something holds of the entries that a walk comes to: those of the list, and of the
/// directories that it goes into.
pub open spec fn tally(list: Seq<SourceEntry>, what: spec_fn(SourceEntry) -> bool) -> nat
    decreases list,
{
    if list.len() == 0 {
        0
    } else {
        tally(list.drop_last(), what) + entry_tally(list.last(), what)
    }
}

/// How often something holds of an entry and of those below it.
pub open spec fn entry_tally(entry: SourceEntry, what: spec_fn(SourceEntry) -> bool) -> nat
    decreases entry,
{
    one_if(what(entry)) + match entry.kind {
        SourceKind::Directory(inner) => if entered(entry.name@) {
            tally(inner@, what)
        } else {
            0
        },
        _ => 0,
    }
}

/// Whether an entry is a source file of this kind that is looked at.
pub open spec fn is_source_of(kind: FileKind) -> spec_fn(SourceEntry) -> bool {
    |entry: SourceEntry|
        (entry.kind is File || entry.kind is Symlink) && !".chezmoi"@.is_prefix_of(entry.name@)
            && file_name_valid(entry.name@) && file_kind(entry.name@) == kind
}

/// Whether an entry is a directory from elsewhere that is looked at.
pub open spec fn is_from_elsewhere() -> spec_fn(SourceEntry) -> bool {
    |entry: SourceEntry|
        entry.kind is Directory && !".chezmoi"@.is_prefix_of(entry.name@) && entry.name@ != ".git"@
            && dir_name_valid(entry.name@) && !"remove_"@.is_prefix_of(entry.name@)
            && "external_"@.is_prefix_of(entry.name@)
}

/// Each script, symbolic link, modification and directory from elsewhere that a walk comes to is
/// counted once.
pub proof fn law_each_skipped_entry_is_counted(list: Seq<SourceEntry>)
    ensures
        counted(list).scripts == tally(list, is_source_of(FileKind::Script)),
        counted(list).symlinks == tally(list, is_source_of(FileKind::Symlink)),
        counted(list).modifies == tally(list, is_source_of(FileKind::Modify)),
        counted(list).creates == tally(list, is_source_of(FileKind::Create)),
        counted(list).external_dirs == tally(list, is_from_elsewhere()),
    decreases list,
{
    if list.len() > 0 {
        let entry = list.last();
        let name = entry.name@;
        law_each_skipped_entry_is_counted(list.drop_last());
        if entry.kind is Directory {
            law_each_skipped_entry_is_counted(entry.kind->Directory_0@);
        }
        law_what_is_looked_at(name, Seq::empty(), entry.kind is Directory);
        let own = entry_counted(entry);
        assert(own.scripts == entry_tally(entry, is_source_of(FileKind::Script)));
        assert(own.symlinks == entry_tally(entry, is_source_of(FileKind::Symlink)));
        assert(own.modifies == entry_tally(entry, is_source_of(FileKind::Modify)));
        assert(own.creates == entry_tally(entry, is_source_of(FileKind::Create)));
        assert(own.external_dirs == entry_tally(entry, is_from_elsewhere()));
        assert(counted(list) == counted(list.drop_last()).plus(own));
    }
}

/// A walk goes entry by entry: what it finds in a list is what it finds in its parts, in order. A
/// file that is taken over is found once, and in a directory just what is in it.
pub proof fn law_walk_goes_entry_by_entry(
    a: Seq<SourceEntry>,
    b: Seq<SourceEntry>,
    prefix: Seq<Seq<char>>,
    entry: SourceEntry,
)
    ensures
        walked(a + b, prefix) == walked(a, prefix) + walked(b, prefix),
        walked(seq![entry], prefix).len() == match entry.kind {
            SourceKind::Directory(inner) => if entered(entry.name@) {
                walked(inner@, Seq::empty()).len()
            } else {
                0
            },
            SourceKind::File | SourceKind::Symlink => if taken_over(entry.name@) {
                1
            } else {
                0
            },
            SourceKind::Other => 0,
        },
    decreases b.len(),
{
    if b.len() == 0 {
        assert(a + b =~= a);
        assert(walked(a, prefix) + walked(b, prefix) =~= walked(a, prefix));
    } else {
        law_walk_goes_entry_by_entry(a, b.drop_last(), prefix, entry);
        assert((a + b).drop_last() =~= a + b.drop_last());
        assert((a + b).last() == b.last());
        assert(walked(a + b, prefix) =~= walked(a, prefix) + walked(b, prefix));
    }
    reveal_with_fuel(walked, 2);
    assert(seq![entry].drop_last() =~= Seq::empty());
    assert(walked(seq![entry], prefix) =~= entry_walked(entry, prefix));
    if let SourceKind::Directory(inner) = entry.kind {
        lemma_walked_len(inner@, child_parts(prefix, dir_target(entry.name@)), Seq::empty());
    }
}

proof fn lemma_walked_len(list: Seq<SourceEntry>, a: Seq<Seq<char>>, b: Seq<Seq<char>>)
    ensures
        walked(list, a).len() == walked(list, b).len(),
    decreases list, 1int,
{
    if list.len() > 0 {
        lemma_walked_len(list.drop_last(), a, b);
        lemma_entry_walked_len(list.last(), a, b);
    }
}

proof fn lemma_entry_walked_len(entry: SourceEntry, a: Seq<Seq<char>>, b: Seq<Seq<char>>)
    ensures
        entry_walked(entry, a).len() == entry_walked(entry, b).len(),
    decreases entry, 0int,
{
    if let SourceKind::Directory(inner) = entry.kind {
        lemma_walked_len(
            inner@,
            child_parts(a, dir_target(entry.name@)),
            child_parts(b, dir_target(entry.name@)),
        );
    }
}

/// Everything that is lost is told, and nothing that is not: the summary has a part for each count
/// that is not zero, with the number and with what it counts.
pub proof fn law_summary_tells_each_loss(c: Counts)
    ensures
        c.scripts > 0 ==> summary_parts(c).contains(decimal(c.scripts) + " script(s) skipped"@),
        c.symlinks > 0 ==> summary_parts(c).contains(decimal(c.symlinks) + " symlink(s) skipped"@),
        c.modifies > 0 ==> summary_parts(c).contains(
            decimal(c.modifies) + " modify script(s) skipped"@,
        ),
        c.creates > 0 ==> summary_parts(c).contains(
            decimal(c.creates) + " create-only file(s) (semantics lost)"@,
        ),
        c.templates > 0 ==> summary_parts(c).contains(
            decimal(c.templates) + " template(s) detected"@,
        ),
        c.encrypted > 0 ==> summary_parts(c).contains(
            decimal(c.encrypted) + " encrypted file(s) detected"@,
        ),
        c.external_dirs > 0 ==> summary_parts(c).contains(
            decimal(c.external_dirs) + " external dir(s) skipped"@,
        ),
        summary_parts(c).len() == (if c.scripts > 0 {
            1int
        } else {
            0
        }) + (if c.symlinks > 0 {
            1int
        } else {
            0
        }) + (if c.modifies > 0 {
            1int
        } else {
            0
        }) + (if c.creates > 0 {
            1int
        } else {
            0
        }) + (if c.templates > 0 {
            1int
        } else {
            0
        }) + (if c.encrypted > 0 {
            1int
        } else {
            0
        }) + (if c.external_dirs > 0 {
            1int
        } else {
            0
        }),
{
    let p1 = summary_part(c.scripts, " script(s) skipped"@);
    let p2 = p1 + summary_part(c.symlinks, " symlink(s) skipped"@);
    let p3 = p2 + summary_part(c.modifies, " modify script(s) skipped"@);
    let p4 = p3 + summary_part(c.creates, " create-only file(s) (semantics lost)"@);
    let p5 = p4 + summary_part(c.templates, " template(s) detected"@);
    let p6 = p5 + summary_part(c.encrypted, " encrypted file(s) detected"@);
    let all = p6 + summary_part(c.external_dirs, " external dir(s) skipped"@);
    assert(all == summary_parts(c));
    if c.scripts > 0 {
        assert(all[0] == decimal(c.scripts) + " script(s) skipped"@);
    }
    if c.symlinks > 0 {
        assert(all[p1.len() as int] == decimal(c.symlinks) + " symlink(s) skipped"@);
    }
    if c.modifies > 0 {
        assert(all[p2.len() as int] == decimal(c.modifies) + " modify script(s) skipped"@);
    }
    if c.creates > 0 {
        assert(all[p3.len() as int] == decimal(c.creates)
            + " create-only file(s) (semantics lost)"@);
    }
    if c.templates > 0 {
        assert(all[p4.len() as int] == decimal(c.templates) + " template(s) detected"@);
    }
    if c.encrypted > 0 {
        assert(all[p5.len() as int] == decimal(c.encrypted) + " encrypted file(s) detected"@);
    }
    if c.external_dirs > 0 {
        assert(all[p6.len() as int] == decimal(c.external_dirs) + " external dir(s) skipped"@);
    }
}

} // verus!
