//! The search for the files of a topic.

use vstd::prelude::*;

use crate::order::{rising, Keyed, SortedSet};
use crate::paths::{
    leads_up, lemma_dots_are_a_part, may_have_parts, path_parts, portable, TargetPath,
};
use crate::text::{joined, replace_char, same, views, with_char_replaced};

verus! {

/// What is at a path.
#[derive(Debug, Clone, Copy, PartialEq, Eq, Structural)]
pub enum ScanKind {
    File,
    Directory,
    Missing,
}

/// A search for the files of a topic, below its base directory. All paths are relative to it.
#[derive(Debug)]
pub struct Scan {
    /// The name of the base directory itself.
    pub base_name: String,
    /// Whether a path of the manifest may be missing.
    pub lenient: bool,
    /// The paths of the manifest.
    pub paths: Vec<TargetPath>,
    /// The position of the path of the manifest that is searched.
    pub at: usize,
    /// What is still to be looked at below that path, in order.
    pub queue: Vec<TargetPath>,
    /// What is looked at.
    pub current: TargetPath,
    pub stage: ScanStage,
    /// The files that were found.
    pub files: Vec<TargetPath>,
}

/// What a search waits for.
#[derive(Debug, Clone, Copy, PartialEq, Eq, Structural)]
pub enum ScanStage {
    /// What is at a path of the manifest.
    InspectTop,
    /// Whether the file at a path of the manifest is included.
    IncludeTop,
    /// What is at a path below.
    Inspect,
    /// Whether the file at a path below is included.
    IncludeFile,
    /// Whether the directory at a path below is included.
    IncludeDirectory,
    /// The entries of a directory.
    List,
    /// Nothing more.
    Ended,
}

/// What came of the last action.
#[derive(Debug)]
pub enum ScanEvent {
    Kind(ScanKind),
    Included(bool),
    /// The names of the entries of the directory.
    Entries(Vec<String>),
}

/// What a search does next.
#[derive(Debug)]
pub enum ScanAction {
    /// Find out what is at the current path.
    Inspect,
    /// Ask whether this path, as a tree writes it, is included.
    AskInclude(String),
    /// Read the entries of the current path.
    List,
    /// End with an error.
    Fail(ScanError),
    /// End: the files are found.
    Finish,
}

/// Why a search fails.
#[derive(Debug)]
pub enum ScanError {
    ParentDir(String),
    Rooted(String),
    Missing(TargetPath),
}

impl ScanError {
    /// The text of the error. `abs_path` is the absolute path of what is missing.
    pub open spec fn text(&self, abs_path: Seq<char>) -> Seq<char> {
        match self {
            ScanError::ParentDir(path) => "path '"@ + path@
                + "' contains '..' which is not allowed"@,
            ScanError::Rooted(path) => "path '"@ + path@
                + "' is not relative to the root of the topic"@,
            ScanError::Missing(_) => "Path '"@ + abs_path
                + "' does not exist or is not a file/directory"@,
        }
    }

    /// The text of the error. `abs_path` is the absolute path of what is missing.
    pub fn message(&self, abs_path: &str) -> (r: String)
        ensures
            r@ == self.text(abs_path@),
    {
        match self {
            ScanError::ParentDir(path) => "path '".to_owned().concat(path.as_str()).concat(
                "' contains '..' which is not allowed",
            ),
            ScanError::Rooted(path) => "path '".to_owned().concat(path.as_str()).concat(
                "' is not relative to the root of the topic",
            ),
            ScanError::Missing(_) => "Path '".to_owned().concat(abs_path).concat(
                "' does not exist or is not a file/directory",
            ),
        }
    }
}

/// A path as a tree writes it.
pub open spec fn tree_text(path: Seq<Seq<char>>) -> Seq<char> {
    with_char_replaced(joined(path, "/"@), '\\', '/')
}

/// Whether a path is named `.git`. The empty path is named as the base directory is.
pub open spec fn is_git(base_name: Seq<char>, path: Seq<Seq<char>>) -> bool {
    if path.len() == 0 {
        base_name == ".git"@
    } else {
        path.last() == ".git"@
    }
}

/// A path of the manifest below the base directory: a leading dot stands for the base itself.
pub open spec fn below_base(path: Seq<Seq<char>>) -> Seq<Seq<char>> {
    if path.len() > 0 && path[0] == "."@ {
        path.skip(1)
    } else {
        path
    }
}

/// The components of each path.
pub open spec fn all_views(list: Seq<TargetPath>) -> Seq<Seq<Seq<char>>> {
    list.map_values(|p: TargetPath| p@)
}

/// The paths of the names below a directory.
pub open spec fn children(dir: Seq<Seq<char>>, names: Seq<String>) -> Seq<Seq<Seq<char>>> {
    names.map_values(|n: String| dir.push(n@))
}

/// What is left of a list of paths from the first on that is not named `.git`.
pub open spec fn past_git(base_name: Seq<char>, queue: Seq<Seq<Seq<char>>>) -> Seq<Seq<Seq<char>>>
    decreases queue.len(),
{
    if queue.len() > 0 && is_git(base_name, queue[0]) {
        past_git(base_name, queue.skip(1))
    } else {
        queue
    }
}

fn is_git_path(base_name: &str, path: &TargetPath) -> (r: bool)
    ensures
        r == is_git(base_name@, path@),
{
    let n: usize = path.parts.len();
    if n == 0 {
        same(base_name, ".git")
    } else {
        same(path.parts[n - 1].as_str(), ".git")
    }
}

fn without_dot(path: &TargetPath) -> (r: TargetPath)
    ensures
        r@ == below_base(path@),
{
    if path.parts.len() > 0 && same(path.parts[0].as_str(), ".") {
        let r = path.range(1, path.parts.len());
        assert(r@ =~= path@.skip(1));
        r
    } else {
        path.copy()
    }
}

fn path_as_tree_text(path: &TargetPath) -> (r: String)
    ensures
        r@ == tree_text(path@),
{
    replace_char(path.text().as_str(), '\\', '/')
}

/// Whether two searches differ in nothing but where they are.
pub open spec fn same_search(a: Scan, b: Scan) -> bool {
    a.base_name == b.base_name && a.lenient == b.lenient && a.paths == b.paths
}

/// Whether `after` goes on with the path of the manifest at `i`, and ends behind the last.
pub open spec fn goes_to_top(after: Scan, i: int, action: ScanAction) -> bool {
    &&& after.queue@.len() == 0
    &&& if i < after.paths@.len() {
        after.at == i && after.stage is InspectTop && action is Inspect && after.current@
            == after.paths@[i]@
    } else {
        after.at == after.paths@.len() && after.stage is Ended && action is Finish
    }
}

/// Whether `after` goes on with the first path of `queue` that is not named `.git`, and with the
/// next path of the manifest behind the last.
pub open spec fn goes_to_next(
    after: Scan,
    at: int,
    queue: Seq<Seq<Seq<char>>>,
    action: ScanAction,
) -> bool {
    let left = past_git(after.base_name@, queue);
    if left.len() > 0 {
        after.at == at && after.stage is Inspect && action is Inspect && after.current@ == left[0]
            && all_views(after.queue@) == left.skip(1)
    } else {
        goes_to_top(after, at + 1, action)
    }
}

/// Whether an event leads from `before` to `after` and `action`.
pub open spec fn scan_leads_to(
    before: Scan,
    event: ScanEvent,
    after: Scan,
    action: ScanAction,
) -> bool {
    &&& same_search(before, after)
    &&& match (before.stage, event) {
        (ScanStage::InspectTop, ScanEvent::Kind(kind)) => {
            &&& after.files@ == before.files@
            &&& match kind {
                ScanKind::File => after.at == before.at && after.queue@.len() == 0 && after.current@
                    == before.current@ && after.stage is IncludeTop && asks(action, before.current@),
                ScanKind::Directory => goes_to_next(
                    after,
                    before.at as int,
                    seq![before.current@],
                    action,
                ),
                ScanKind::Missing => if before.lenient {
                    goes_to_top(after, before.at + 1, action)
                } else {
                    fails(after, action, before.current@)
                },
            }
        },
        (ScanStage::IncludeTop, ScanEvent::Included(included)) => {
            &&& is_collected(before, included, after)
            &&& goes_to_top(after, before.at + 1, action)
        },
        (ScanStage::Inspect, ScanEvent::Kind(kind)) => {
            &&& after.files@ == before.files@
            &&& match kind {
                ScanKind::Missing => fails(after, action, before.current@),
                _ => {
                    &&& after.at == before.at
                    &&& all_views(after.queue@) == all_views(before.queue@)
                    &&& after.current@ == before.current@
                    &&& asks(action, before.current@)
                    &&& after.stage == if kind == ScanKind::File {
                        ScanStage::IncludeFile
                    } else {
                        ScanStage::IncludeDirectory
                    }
                },
            }
        },
        (ScanStage::IncludeFile, ScanEvent::Included(included)) => {
            &&& is_collected(before, included, after)
            &&& goes_to_next(after, before.at as int, all_views(before.queue@), action)
        },
        (ScanStage::IncludeDirectory, ScanEvent::Included(included)) => {
            &&& after.files@ == before.files@
            &&& if included {
                after.at == before.at && all_views(after.queue@) == all_views(before.queue@)
                    && after.current@ == before.current@ && after.stage is List && action is List
            } else {
                goes_to_next(after, before.at as int, all_views(before.queue@), action)
            }
        },
        (ScanStage::List, ScanEvent::Entries(names)) => {
            &&& after.files@ == before.files@
            &&& goes_to_next(
                after,
                before.at as int,
                all_views(before.queue@) + children(before.current@, names@),
                action,
            )
        },
        _ => false,
    }
}

/// Whether `action` asks about a path.
pub open spec fn asks(action: ScanAction, path: Seq<Seq<char>>) -> bool {
    action matches ScanAction::AskInclude(text) && text@ == tree_text(path)
}

/// Whether the search ends because nothing is at a path.
pub open spec fn fails(after: Scan, action: ScanAction, path: Seq<Seq<char>>) -> bool {
    &&& after.stage is Ended
    &&& action matches ScanAction::Fail(error) && error matches ScanError::Missing(p) && p@ == path
}

/// The files that were found, as a set.
pub open spec fn found(scan: Scan) -> Set<Seq<Seq<char>>> {
    crate::order::key_set(scan.files@)
}

/// Whether `after` has the current file of `before` among its files where it is included.
pub open spec fn is_collected(before: Scan, included: bool, after: Scan) -> bool {
    found(after) == if included {
        found(before).insert(before.current@)
    } else {
        found(before)
    }
}

/// Whether the path at `i` is the first that has this component.
pub open spec fn is_first_with(paths: Seq<Seq<Seq<char>>>, part: Seq<char>, i: int) -> bool {
    &&& 0 <= i < paths.len()
    &&& paths[i].contains(part)
    &&& forall|k: int| 0 <= k < i ==> !(#[trigger] paths[k]).contains(part)
}

/// Whether no path has this component.
pub open spec fn none_has(paths: Seq<Seq<Seq<char>>>, part: Seq<char>) -> bool {
    forall|i: int| 0 <= i < paths.len() ==> !(#[trigger] paths[i]).contains(part)
}

/// Whether `r` is the start of a search for paths that are written so and have these components:
/// it says which is the first that leads upwards, or else the first that starts at a root, where
/// there is one.
pub open spec fn is_begun(
    base_name: Seq<char>,
    texts: Seq<Seq<char>>,
    paths: Seq<Seq<Seq<char>>>,
    lenient: bool,
    r: Result<(Scan, ScanAction), ScanError>,
) -> bool {
    match r {
        Ok(begun) => {
            &&& none_has(paths, ".."@)
            &&& none_has(paths, "/"@)
            &&& begun.0.wf()
            &&& begun.0.base_name@ == base_name
            &&& begun.0.lenient == lenient
            &&& begun.0.paths@.len() == paths.len()
            &&& forall|i: int|
                0 <= i < paths.len() ==> (#[trigger] begun.0.paths@[i])@ == below_base(paths[i])
            &&& begun.0.files@.len() == 0
            &&& goes_to_top(begun.0, 0, begun.1)
        },
        Err(ScanError::ParentDir(text)) => exists|i: int| #[trigger]
            is_first_with(paths, ".."@, i) && text@ == texts[i],
        Err(ScanError::Rooted(text)) => none_has(paths, ".."@) && exists|i: int| #[trigger]
            is_first_with(paths, "/"@, i) && text@ == texts[i],
        Err(ScanError::Missing(_)) => false,
    }
}

/// Whether these can be the components of each path, where the program runs.
pub open spec fn are_parts(texts: Seq<Seq<char>>, paths: Seq<Seq<Seq<char>>>) -> bool {
    &&& paths.len() == texts.len()
    &&& forall|i: int| 0 <= i < texts.len() ==> may_have_parts(#[trigger] texts[i], paths[i])
}

/// Whether each path means the same on every platform.
pub open spec fn all_portable(texts: Seq<Seq<char>>) -> bool {
    forall|i: int| 0 <= i < texts.len() ==> portable(#[trigger] texts[i])
}

/// The components of each path.
pub open spec fn all_parts(texts: Seq<Seq<char>>) -> Seq<Seq<Seq<char>>> {
    texts.map_values(|text: Seq<char>| path_parts(text))
}

impl Scan {
    /// The files are in order, and the path of the manifest that is searched is one of them.
    pub open spec fn wf(&self) -> bool {
        &&& rising(self.files@)
        &&& self.at <= self.paths@.len()
        &&& !(self.stage is Ended) ==> self.at < self.paths@.len()
        &&& self.stage is InspectTop || self.stage is IncludeTop ==> self.current@
            == self.paths@[self.at as int]@ && self.queue@.len() == 0
        &&& !(self.stage is Ended || self.stage is InspectTop || self.stage is IncludeTop)
            ==> !is_git(self.base_name@, self.current@)
    }

    /// Whether `event` can follow the action of this stage.
    pub open spec fn event_fits(&self, event: ScanEvent) -> bool {
        match self.stage {
            ScanStage::InspectTop | ScanStage::Inspect => event is Kind,
            ScanStage::IncludeTop | ScanStage::IncludeFile | ScanStage::IncludeDirectory =>
                event is Included,
            ScanStage::List => event is Entries,
            ScanStage::Ended => false,
        }
    }

    fn to_top(self, i: usize) -> (r: (Scan, ScanAction))
        requires
            i <= self.paths@.len(),
            rising(self.files@),
        ensures
            r.0.wf(),
            same_search(self, r.0),
            r.0.files@ == self.files@,
            goes_to_top(r.0, i as int, r.1),
    {
        let mut scan = self;
        scan.at = i;
        scan.queue = Vec::new();
        if i < scan.paths.len() {
            scan.current = scan.paths[i].copy();
            scan.stage = ScanStage::InspectTop;
            (scan, ScanAction::Inspect)
        } else {
            scan.stage = ScanStage::Ended;
            (scan, ScanAction::Finish)
        }
    }

    fn to_next(self) -> (r: (Scan, ScanAction))
        requires
            self.at < self.paths@.len(),
            rising(self.files@),
        ensures
            r.0.wf(),
            same_search(self, r.0),
            r.0.files@ == self.files@,
            goes_to_next(r.0, self.at as int, all_views(self.queue@), r.1),
    {
        let mut scan = self;
        while scan.queue.len() > 0
            invariant
                same_search(self, scan),
                scan.files@ == self.files@,
                scan.at == self.at,
                scan.at < scan.paths@.len(),
                rising(scan.files@),
                past_git(self.base_name@, all_views(self.queue@)) == past_git(
                    self.base_name@,
                    all_views(scan.queue@),
                ),
            decreases scan.queue.len(),
        {
            let ghost before = scan.queue@;
            let next = scan.queue.remove(0);
            assert(all_views(scan.queue@) =~= all_views(before).skip(1));
            assert(all_views(before)[0] == next@);
            if !is_git_path(scan.base_name.as_str(), &next) {
                scan.current = next;
                scan.stage = ScanStage::Inspect;
                return (scan, ScanAction::Inspect);
            }
        }
        assert(past_git(self.base_name@, all_views(self.queue@)) =~= Seq::empty());
        let at: usize = scan.at;
        let count: usize = scan.paths.len();
        assert(at < count);
        scan.to_top(at + 1)
    }

    fn collect(&mut self)
        requires
            rising(old(self).files@),
        ensures
            rising(final(self).files@),
            same_search(*old(self), *final(self)),
            final(self).at == old(self).at,
            final(self).queue == old(self).queue,
            final(self).stage == old(self).stage,
            found(*final(self)) == found(*old(self)).insert(old(self).current@),
    {
        let mut files: Vec<TargetPath> = Vec::new();
        std::mem::swap(&mut files, &mut self.files);
        let mut set: SortedSet<TargetPath> = SortedSet { items: files };
        let _ = set.insert(self.current.copy());
        self.files = set.items;
    }

    /// Starts a search for paths that have these components. Refuses paths that leave the base
    /// directory: first those that lead upwards, then those that start at a root.
    pub fn begin(
        base_name: &str,
        texts: &Vec<String>,
        paths: &Vec<TargetPath>,
        lenient: bool,
    ) -> (r: Result<(Scan, ScanAction), ScanError>)
        requires
            texts@.len() == paths@.len(),
        ensures
            is_begun(base_name@, views(texts@), all_views(paths@), lenient, r),
    {
        let ghost listed = all_views(paths@);
        for i in 0..paths.len()
            invariant
                texts@.len() == paths@.len(),
                listed == all_views(paths@),
                forall|k: int| 0 <= k < i ==> !(#[trigger] listed[k]).contains(".."@),
        {
            assert(listed[i as int] == paths@[i as int]@);
            if paths[i].has_part("..") {
                assert(is_first_with(listed, ".."@, i as int));
                assert(views(texts@)[i as int] == texts@[i as int]@);
                return Err(ScanError::ParentDir(texts[i].clone()));
            }
        }
        let mut below: Vec<TargetPath> = Vec::new();
        for i in 0..paths.len()
            invariant
                texts@.len() == paths@.len(),
                listed == all_views(paths@),
                forall|k: int| 0 <= k < listed.len() ==> !(#[trigger] listed[k]).contains(".."@),
                forall|k: int| 0 <= k < i ==> !(#[trigger] listed[k]).contains("/"@),
                below@.len() == i,
                forall|k: int| 0 <= k < i ==> (#[trigger] below@[k])@ == below_base(listed[k]),
        {
            assert(listed[i as int] == paths@[i as int]@);
            if paths[i].has_part("/") {
                assert(is_first_with(listed, "/"@, i as int));
                assert(views(texts@)[i as int] == texts@[i as int]@);
                return Err(ScanError::Rooted(texts[i].clone()));
            }
            below.push(without_dot(&paths[i]));
        }
        let scan = Scan {
            base_name: base_name.to_owned(),
            lenient,
            paths: below,
            at: 0,
            queue: Vec::new(),
            current: TargetPath::empty(),
            stage: ScanStage::Ended,
            files: Vec::new(),
        };
        Ok(scan.to_top(0))
    }

    /// Starts a search for these paths. Refuses paths that leave the base directory.
    pub fn start(base_name: &str, paths: &Vec<String>, lenient: bool) -> (r: Result<
        (Scan, ScanAction),
        ScanError,
    >)
        ensures
            exists|parts: Seq<Seq<Seq<char>>>| #[trigger]
                are_parts(views(paths@), parts) && is_begun(
                    base_name@,
                    views(paths@),
                    parts,
                    lenient,
                    r,
                ),
            all_portable(views(paths@)) ==> is_begun(
                base_name@,
                views(paths@),
                all_parts(views(paths@)),
                lenient,
                r,
            ),
            (exists|i: int| 0 <= i < paths@.len() && leads_up((#[trigger] paths@[i])@))
                ==> r is Err && r->Err_0 is ParentDir,
    {
        let mut list: Vec<TargetPath> = Vec::new();
        for i in 0..paths.len()
            invariant
                list@.len() == i,
                forall|k: int|
                    0 <= k < i ==> may_have_parts(paths@[k]@, (#[trigger] list@[k])@),
        {
            list.push(TargetPath::from_text(paths[i].as_str()));
        }
        let r = Self::begin(base_name, paths, &list, lenient);
        proof {
            let texts = views(paths@);
            let parts = all_views(list@);
            assert forall|i: int| 0 <= i < texts.len() implies may_have_parts(
                #[trigger] texts[i],
                parts[i],
            ) by {
                assert(parts[i] == list@[i]@);
            }
            assert(are_parts(texts, parts));
            assert forall|i: int| 0 <= i < texts.len() implies (portable(#[trigger] texts[i])
                ==> parts[i] == path_parts(texts[i])) && (leads_up(texts[i]) ==> parts[i].contains(
                ".."@,
            )) by {
                lemma_dots_are_a_part(texts[i], parts[i]);
            }
            if all_portable(texts) {
                assert(parts =~= all_parts(texts));
            }
            if exists|i: int| 0 <= i < paths@.len() && leads_up((#[trigger] paths@[i])@) {
                let i = choose|i: int| 0 <= i < paths@.len() && leads_up((#[trigger] paths@[i])@);
                assert(texts[i] == paths@[i]@);
                assert(parts[i].contains(".."@));
            }
        }
        r
    }

    /// Goes on after what came of the last action.
    pub fn step(self, event: ScanEvent) -> (r: (Scan, ScanAction))
        requires
            self.wf(),
            self.event_fits(event),
        ensures
            r.1 is Fail || r.0.wf(),
            scan_leads_to(self, event, r.0, r.1),
    {
        let count: usize = self.paths.len();
        assert(self.paths@.len() == count);
        let mut scan = self;
        match (scan.stage, event) {
            (ScanStage::InspectTop, ScanEvent::Kind(kind)) => match kind {
                ScanKind::File => {
                    scan.stage = ScanStage::IncludeTop;
                    let text = path_as_tree_text(&scan.current);
                    (scan, ScanAction::AskInclude(text))
                },
                ScanKind::Directory => {
                    let dir = scan.current.copy();
                    scan.queue = Vec::new();
                    scan.queue.push(dir);
                    assert(all_views(scan.queue@) =~= seq![self.current@]);
                    scan.to_next()
                },
                ScanKind::Missing => {
                    if scan.lenient {
                        let at: usize = scan.at;
                        scan.to_top(at + 1)
                    } else {
                        let path = scan.current.copy();
                        scan.stage = ScanStage::Ended;
                        (scan, ScanAction::Fail(ScanError::Missing(path)))
                    }
                },
            },
            (ScanStage::IncludeTop, ScanEvent::Included(included)) => {
                if included {
                    scan.collect();
                }
                let at: usize = scan.at;
                scan.to_top(at + 1)
            },
            (ScanStage::Inspect, ScanEvent::Kind(kind)) => match kind {
                ScanKind::File => {
                    scan.stage = ScanStage::IncludeFile;
                    let text = path_as_tree_text(&scan.current);
                    (scan, ScanAction::AskInclude(text))
                },
                ScanKind::Directory => {
                    scan.stage = ScanStage::IncludeDirectory;
                    let text = path_as_tree_text(&scan.current);
                    (scan, ScanAction::AskInclude(text))
                },
                ScanKind::Missing => {
                    let path = scan.current.copy();
                    scan.stage = ScanStage::Ended;
                    (scan, ScanAction::Fail(ScanError::Missing(path)))
                },
            },
            (ScanStage::IncludeFile, ScanEvent::Included(included)) => {
                if included {
                    scan.collect();
                }
                scan.to_next()
            },
            (ScanStage::IncludeDirectory, ScanEvent::Included(included)) => {
                if included {
                    scan.stage = ScanStage::List;
                    (scan, ScanAction::List)
                } else {
                    scan.to_next()
                }
            },
            (ScanStage::List, ScanEvent::Entries(names)) => {
                scan.queue_children(&names);
                scan.to_next()
            },
            _ => (scan, ScanAction::Finish),
        }
    }

    fn queue_children(&mut self, names: &Vec<String>)
        ensures
            same_search(*old(self), *final(self)),
            final(self).files == old(self).files,
            final(self).at == old(self).at,
            all_views(final(self).queue@) == all_views(old(self).queue@) + children(
                old(self).current@,
                names@,
            ),
    {
        let ghost dir = self.current@;
        let ghost queue0 = all_views(self.queue@);
        let ghost all = children(dir, names@);
        assert(queue0 + all.take(0) =~= queue0);
        for i in 0..names.len()
            invariant
                same_search(*old(self), *self),
                self.files == old(self).files,
                self.at == old(self).at,
                self.current@ == dir,
                all == children(dir, names@),
                all_views(self.queue@) == queue0 + all.take(i as int),
        {
            let ghost before = self.queue@;
            let child = self.current.below(names[i].as_str());
            self.queue.push(child);
            assert(all_views(self.queue@) =~= all_views(before).push(child@));
            assert(all.take(i + 1) =~= all.take(i as int).push(all[i as int]));
            assert(all_views(self.queue@) =~= queue0 + all.take(i + 1));
        }
        assert(all.take(all.len() as int) =~= all);
    }
}

// ----------------------------------------------------------------------------
// Laws
// ----------------------------------------------------------------------------

/// A file system, and what is included of it.
pub struct World {
    pub base_name: Seq<char>,
    pub kind: spec_fn(Seq<Seq<char>>) -> ScanKind,
    pub included: spec_fn(Seq<Seq<char>>) -> bool,
    pub entries: spec_fn(Seq<Seq<char>>) -> Seq<Seq<char>>,
}

/// Whether `file` is a file at `path` or below it that is to be found: it is included, every
/// directory on the way is included too, and nothing on the way is named `.git`.
pub open spec fn is_below(world: World, path: Seq<Seq<char>>, file: Seq<Seq<char>>) -> bool
    decreases file.len() - path.len(),
{
    path.len() <= file.len() && !is_git(world.base_name, path) && (world.included)(path) && match (
    world.kind)(path) {
        ScanKind::File => file == path,
        ScanKind::Directory => exists|i: int|
            0 <= i < (world.entries)(path).len() && path.len() < file.len() && is_below(
                world,
                path.push(#[trigger] (world.entries)(path)[i]),
                file,
            ),
        ScanKind::Missing => false,
    }
}

/// Whether `file` is to be found for this path of the manifest. A file that the manifest names
/// may have any name.
pub open spec fn is_wanted(world: World, path: Seq<Seq<char>>, file: Seq<Seq<char>>) -> bool {
    match (world.kind)(path) {
        ScanKind::File => (world.included)(path) && file == path,
        ScanKind::Directory => is_below(world, path, file),
        ScanKind::Missing => false,
    }
}

/// Whether `file` is to be found for one of the paths from `i` on.
pub open spec fn is_wanted_from(
    world: World,
    paths: Seq<TargetPath>,
    i: int,
    file: Seq<Seq<char>>,
) -> bool {
    exists|k: int| i <= k < paths.len() && is_wanted(world, (#[trigger] paths[k])@, file)
}

/// Whether `file` is to be found at or below one of the paths of a queue.
pub open spec fn is_queued(
    world: World,
    queue: Seq<Seq<Seq<char>>>,
    file: Seq<Seq<char>>,
) -> bool {
    exists|k: int| 0 <= k < queue.len() && is_below(world, #[trigger] queue[k], file)
}

/// Whether `file` is to be found at what the search looks at, given how far it has come with it.
pub open spec fn is_ahead(scan: Scan, world: World, file: Seq<Seq<char>>) -> bool {
    match scan.stage {
        ScanStage::InspectTop | ScanStage::IncludeTop => is_wanted(world, scan.current@, file),
        ScanStage::Inspect | ScanStage::IncludeFile | ScanStage::IncludeDirectory
        | ScanStage::List => is_below(world, scan.current@, file),
        ScanStage::Ended => false,
    }
}

/// Whether `file` was found or is still to be found.
pub open spec fn is_expected(scan: Scan, world: World, file: Seq<Seq<char>>) -> bool {
    ||| found(scan).contains(file)
    ||| is_ahead(scan, world, file)
    ||| is_queued(world, all_views(scan.queue@), file)
    ||| is_wanted_from(world, scan.paths@, scan.at + 1, file)
}

/// Whether the state of a search agrees with the world.
pub open spec fn agrees(scan: Scan, world: World) -> bool {
    &&& scan.base_name@ == world.base_name
    &&& scan.stage is IncludeTop || scan.stage is IncludeFile ==> (world.kind)(scan.current@)
        == ScanKind::File
    &&& scan.stage is IncludeDirectory || scan.stage is List ==> (world.kind)(scan.current@)
        == ScanKind::Directory
    &&& scan.stage is List ==> (world.included)(scan.current@)
}

/// Whether an event tells the truth about the world.
pub open spec fn is_true_of(event: ScanEvent, path: Seq<Seq<char>>, world: World) -> bool {
    match event {
        ScanEvent::Kind(kind) => kind == (world.kind)(path),
        ScanEvent::Included(included) => included == (world.included)(path),
        ScanEvent::Entries(names) => views(names@) == (world.entries)(path),
    }
}

proof fn lemma_past_git(world: World, queue: Seq<Seq<Seq<char>>>, file: Seq<Seq<char>>)
    ensures
        is_queued(world, queue, file) == is_queued(world, past_git(world.base_name, queue), file),
    decreases queue.len(),
{
    if queue.len() > 0 && is_git(world.base_name, queue[0]) {
        let rest = queue.skip(1);
        lemma_past_git(world, rest, file);
        if is_queued(world, queue, file) {
            let k = choose|k: int| 0 <= k < queue.len() && is_below(world, #[trigger] queue[k], file);
            assert(k > 0);
            assert(rest[k - 1] == queue[k]);
        }
        if is_queued(world, rest, file) {
            let k = choose|k: int| 0 <= k < rest.len() && is_below(world, #[trigger] rest[k], file);
            assert(queue[k + 1] == rest[k]);
        }
    }
}

proof fn lemma_queue_head(world: World, queue: Seq<Seq<Seq<char>>>, file: Seq<Seq<char>>)
    requires
        queue.len() > 0,
    ensures
        is_queued(world, queue, file) == (is_below(world, queue[0], file) || is_queued(
            world,
            queue.skip(1),
            file,
        )),
{
    let rest = queue.skip(1);
    if is_queued(world, queue, file) {
        let k = choose|k: int| 0 <= k < queue.len() && is_below(world, #[trigger] queue[k], file);
        if k > 0 {
            assert(rest[k - 1] == queue[k]);
        }
    }
    if is_queued(world, rest, file) {
        let k = choose|k: int| 0 <= k < rest.len() && is_below(world, #[trigger] rest[k], file);
        assert(queue[k + 1] == rest[k]);
    }
}

proof fn lemma_queue_both(
    world: World,
    a: Seq<Seq<Seq<char>>>,
    b: Seq<Seq<Seq<char>>>,
    file: Seq<Seq<char>>,
)
    ensures
        is_queued(world, a + b, file) == (is_queued(world, a, file) || is_queued(world, b, file)),
{
    if is_queued(world, a, file) {
        let k = choose|k: int| 0 <= k < a.len() && is_below(world, #[trigger] a[k], file);
        assert((a + b)[k] == a[k]);
    }
    if is_queued(world, b, file) {
        let k = choose|k: int| 0 <= k < b.len() && is_below(world, #[trigger] b[k], file);
        assert((a + b)[a.len() + k] == b[k]);
    }
    if is_queued(world, a + b, file) {
        let k = choose|k: int| 0 <= k < (a + b).len() && is_below(world, #[trigger] (a + b)[k], file);
        if k < a.len() {
            assert(a[k] == (a + b)[k]);
        } else {
            assert(b[k - a.len()] == (a + b)[k]);
        }
    }
}

proof fn lemma_wanted_head(world: World, paths: Seq<TargetPath>, i: int, file: Seq<Seq<char>>)
    requires
        0 <= i < paths.len(),
    ensures
        is_wanted_from(world, paths, i, file) == (is_wanted(world, paths[i]@, file)
            || is_wanted_from(world, paths, i + 1, file)),
{
    if is_wanted_from(world, paths, i, file) {
        let k = choose|k: int| i <= k < paths.len() && is_wanted(world, (#[trigger] paths[k])@, file);
        if k > i {
            assert(is_wanted_from(world, paths, i + 1, file));
        }
    }
}

proof fn lemma_listed(
    world: World,
    dir: Seq<Seq<char>>,
    names: Seq<String>,
    file: Seq<Seq<char>>,
)
    requires
        (world.kind)(dir) == ScanKind::Directory,
        (world.included)(dir),
        !is_git(world.base_name, dir),
        views(names) == (world.entries)(dir),
    ensures
        is_below(world, dir, file) == is_queued(world, children(dir, names), file),
{
    let list = children(dir, names);
    let entries = (world.entries)(dir);
    assert(names.len() == views(names).len());
    if is_below(world, dir, file) {
        let i = choose|i: int|
            0 <= i < entries.len() && dir.len() < file.len() && is_below(
                world,
                dir.push(#[trigger] entries[i]),
                file,
            );
        assert(list[i] == dir.push(entries[i]));
    }
    if is_queued(world, list, file) {
        let k = choose|k: int| 0 <= k < list.len() && is_below(world, #[trigger] list[k], file);
        assert(list[k] == dir.push(entries[k]));
        assert(dir.push(entries[k]).len() == dir.len() + 1);
    }
}

/// A search that starts expects exactly the files that are to be found for the paths of the
/// manifest.
pub proof fn law_scan_starts_with_all(
    scan: Scan,
    action: ScanAction,
    world: World,
    file: Seq<Seq<char>>,
)
    requires
        scan.wf(),
        scan.files@.len() == 0,
        goes_to_top(scan, 0, action),
    ensures
        is_expected(scan, world, file) <==> is_wanted_from(world, scan.paths@, 0, file),
{
    if scan.paths@.len() > 0 {
        lemma_wanted_head(world, scan.paths@, 0, file);
    }
}

proof fn lemma_goes_to_top(
    after: Scan,
    i: int,
    action: ScanAction,
    world: World,
    file: Seq<Seq<char>>,
)
    requires
        0 <= i <= after.paths@.len(),
        goes_to_top(after, i, action),
    ensures
        is_expected(after, world, file) == (found(after).contains(file) || is_wanted_from(
            world,
            after.paths@,
            i,
            file,
        )),
{
    if i < after.paths@.len() {
        lemma_wanted_head(world, after.paths@, i, file);
    }
}

proof fn lemma_goes_to_next(
    after: Scan,
    at: int,
    queue: Seq<Seq<Seq<char>>>,
    action: ScanAction,
    world: World,
    file: Seq<Seq<char>>,
)
    requires
        0 <= at < after.paths@.len(),
        after.base_name@ == world.base_name,
        goes_to_next(after, at, queue, action),
    ensures
        is_expected(after, world, file) == (found(after).contains(file) || is_queued(
            world,
            queue,
            file,
        ) || is_wanted_from(world, after.paths@, at + 1, file)),
{
    lemma_past_git(world, queue, file);
    let left = past_git(world.base_name, queue);
    if left.len() > 0 {
        lemma_queue_head(world, left, file);
    } else {
        lemma_goes_to_top(after, at + 1, action, world, file);
    }
}

/// Every step of a search keeps what is found or still to be found, as long as it is told the
/// truth and nothing is missing.
pub proof fn law_scan_loses_and_adds_nothing(
    before: Scan,
    event: ScanEvent,
    after: Scan,
    action: ScanAction,
    world: World,
    file: Seq<Seq<char>>,
)
    requires
        before.wf(),
        before.event_fits(event),
        scan_leads_to(before, event, after, action),
        agrees(before, world),
        is_true_of(event, before.current@, world),
        !(action is Fail),
    ensures
        agrees(after, world),
        is_expected(after, world, file) == is_expected(before, world, file),
{
    let queue = all_views(before.queue@);
    let at = before.at as int;
    match (before.stage, event) {
        (ScanStage::InspectTop, ScanEvent::Kind(kind)) => match kind {
            ScanKind::File => {
                assert(all_views(after.queue@) =~= queue);
            },
            ScanKind::Directory => {
                let single = seq![before.current@];
                lemma_goes_to_next(after, at, single, action, world, file);
                lemma_queue_head(world, single, file);
                assert(single.skip(1) =~= Seq::empty());
            },
            ScanKind::Missing => {
                lemma_goes_to_top(after, at + 1, action, world, file);
            },
        },
        (ScanStage::IncludeTop, ScanEvent::Included(included)) => {
            lemma_goes_to_top(after, at + 1, action, world, file);
        },
        (ScanStage::Inspect, ScanEvent::Kind(kind)) => {},
        (ScanStage::IncludeFile, ScanEvent::Included(included)) => {
            lemma_goes_to_next(after, at, queue, action, world, file);
        },
        (ScanStage::IncludeDirectory, ScanEvent::Included(included)) => {
            if !included {
                lemma_goes_to_next(after, at, queue, action, world, file);
            }
        },
        (ScanStage::List, ScanEvent::Entries(names)) => {
            let more = children(before.current@, names@);
            lemma_goes_to_next(after, at, queue + more, action, world, file);
            lemma_queue_both(world, queue, more, file);
            lemma_listed(world, before.current@, names@, file);
        },
        _ => {},
    }
}

/// A search that ends well has found exactly what it expected.
pub proof fn law_scan_ends_with_all(scan: Scan, world: World, file: Seq<Seq<char>>)
    requires
        scan.stage is Ended,
        scan.queue@.len() == 0,
        scan.at == scan.paths@.len(),
    ensures
        is_expected(scan, world, file) <==> found(scan).contains(file),
{
}

/// Whether the directory or file that the first `k` names of a path lead to is named `.git`.
pub open spec fn passes_git(world: World, file: Seq<Seq<char>>, k: int) -> bool {
    if k == 0 {
        world.base_name == ".git"@
    } else {
        file[k - 1] == ".git"@
    }
}

/// Whether a file can be gone to from `path`: it is a file below it, each name on the way is that
/// of an entry of the directory before it, all on the way are included, and none is named `.git`.
pub open spec fn can_be_reached(world: World, path: Seq<Seq<char>>, file: Seq<Seq<char>>) -> bool {
    &&& path.len() <= file.len()
    &&& path == file.take(path.len() as int)
    &&& (world.kind)(file) == ScanKind::File
    &&& forall|k: int|
        path.len() <= k <= file.len() ==> (world.included)(#[trigger] file.take(k)) && !passes_git(
            world,
            file,
            k,
        )
    &&& forall|k: int|
        path.len() <= k < file.len() ==> (world.kind)(#[trigger] file.take(k))
            == ScanKind::Directory && (world.entries)(file.take(k)).contains(file[k])
}

/// What is to be found below a path are exactly the files that can be gone to from there.
pub proof fn law_files_that_can_be_reached_are_wanted(
    world: World,
    path: Seq<Seq<char>>,
    file: Seq<Seq<char>>,
)
    ensures
        is_below(world, path, file) <==> can_be_reached(world, path, file),
        (world.kind)(path) == ScanKind::Directory ==> (is_wanted(world, path, file)
            <==> can_be_reached(world, path, file)),
        (world.kind)(path) == ScanKind::File ==> (is_wanted(world, path, file) <==> file == path && (
        world.included)(path)),
        (world.kind)(path) == ScanKind::Missing ==> !is_wanted(world, path, file),
    decreases file.len() - path.len(),
{
    if path.len() <= file.len() {
        let n = path.len() as int;
        if is_below(world, path, file) {
            if (world.kind)(path) == ScanKind::Directory {
                let entries = (world.entries)(path);
                let i = choose|i: int|
                    0 <= i < entries.len() && path.len() < file.len() && is_below(
                        world,
                        path.push(#[trigger] entries[i]),
                        file,
                    );
                let next = path.push(entries[i]);
                law_files_that_can_be_reached_are_wanted(world, next, file);
                assert(file.take(n) =~= next.take(n));
                assert(path =~= file.take(n));
                assert(file[n] == next[n]);
                assert(entries.contains(file[n]));
                assert forall|k: int| n <= k <= file.len() implies (world.included)(
                    #[trigger] file.take(k),
                ) && !passes_git(world, file, k) by {
                    if k == n && n > 0 {
                        assert(path.last() == file[n - 1]);
                    }
                }
                assert(can_be_reached(world, path, file));
            } else {
                assert(file.take(n) =~= file);
                assert forall|k: int| n <= k <= file.len() implies (world.included)(
                    #[trigger] file.take(k),
                ) && !passes_git(world, file, k) by {
                    assert(file.take(k) =~= file);
                }
            }
        }
        if can_be_reached(world, path, file) {
            assert(path == file.take(n));
            assert((world.included)(file.take(n)) && !passes_git(world, file, n));
            if n > 0 {
                assert(path.last() == file[n - 1]);
            }
            if n < file.len() {
                let next = file.take(n + 1);
                assert(next =~= path.push(file[n]));
                assert((world.entries)(file.take(n)).contains(file[n]));
                let entries = (world.entries)(path);
                let i = choose|i: int| 0 <= i < entries.len() && entries[i] == file[n];
                assert(can_be_reached(world, next, file));
                law_files_that_can_be_reached_are_wanted(world, next, file);
                assert(path.push(entries[i]) =~= next);
                assert(is_below(world, path, file));
            } else {
                assert(file.take(n) =~= file);
            }
        }
    }
}

/// What a filter is asked about is the path with slashes between its components.
pub proof fn law_filters_get_tree_paths(path: Seq<Seq<char>>, i: int)
    ensures
        tree_text(path).len() == joined(path, "/"@).len(),
        0 <= i < tree_text(path).len() ==> tree_text(path)[i] == if joined(path, "/"@)[i] == '\\' {
            '/'
        } else {
            joined(path, "/"@)[i]
        },
{
}

/// A dot in front of a path of the manifest stands for the base directory; all else of it counts.
pub proof fn law_dot_is_the_base(rest: Seq<Seq<char>>, path: Seq<Seq<char>>)
    ensures
        below_base(seq!["."@] + rest) == rest,
        path.len() == 0 || path[0] != "."@ ==> below_base(path) == path,
{
    assert((seq!["."@] + rest).skip(1) =~= rest);
}

/// Nothing is collected but the current path, and only where it is included; what was found stays.
pub proof fn law_only_included_files_are_found(
    before: Scan,
    event: ScanEvent,
    after: Scan,
    action: ScanAction,
    file: Seq<Seq<char>>,
)
    requires
        before.wf(),
        before.event_fits(event),
        scan_leads_to(before, event, after, action),
    ensures
        found(before).contains(file) ==> found(after).contains(file),
        found(after).contains(file) && !found(before).contains(file) ==> file == before.current@
            && event == ScanEvent::Included(true) && (before.stage is IncludeTop
            || before.stage is IncludeFile),
{
}

/// Where nothing is at a path, a path of the manifest is left out if that is allowed, and any
/// other ends the search with an error that names it.
pub proof fn law_missing_paths(before: Scan, event: ScanEvent, after: Scan, action: ScanAction)
    requires
        before.wf(),
        before.event_fits(event),
        scan_leads_to(before, event, after, action),
        event == ScanEvent::Kind(ScanKind::Missing),
    ensures
        before.stage is InspectTop && before.lenient ==> !(action is Fail),
        before.stage is Inspect || !before.lenient ==> action is Fail && (action->Fail_0 matches
            ScanError::Missing(path) && path@ == before.current@),
{
}

/// A filter is asked about what the search is at, by its path below the base, and a directory is
/// listed or a path inspected only where the search then waits for that.
pub proof fn law_questions_are_about_the_current_path(
    before: Scan,
    event: ScanEvent,
    after: Scan,
    action: ScanAction,
)
    requires
        before.wf(),
        before.event_fits(event),
        call_ensures(Scan::step, (before, event), (after, action)),
    ensures
        action matches ScanAction::AskInclude(text) ==> (after.stage is IncludeTop
            || after.stage is IncludeFile || after.stage is IncludeDirectory) && text@
            == with_char_replaced(joined(after.current@, "/"@), '\\', '/'),
        action is Inspect <==> after.stage is InspectTop || after.stage is Inspect,
        action is List <==> after.stage is List,
        action is Finish || action is Fail <==> after.stage is Ended,
        scan_leads_to(before, event, after, action),
{
}

/// A search is refused where one of its paths goes up or starts at a root, and only there.
pub proof fn law_paths_that_lead_out_are_not_searched(
    base_name: &str,
    texts: Vec<String>,
    paths: Vec<TargetPath>,
    lenient: bool,
    r: Result<(Scan, ScanAction), ScanError>,
    i: int,
)
    requires
        is_begun(base_name@, views(texts@), all_views(paths@), lenient, r),
    ensures
        0 <= i < paths@.len() && (paths@[i]@.contains(".."@) || paths@[i]@.contains("/"@)) ==> r
            is Err,
        (forall|k: int|
            0 <= k < paths@.len() ==> !(#[trigger] paths@[k])@.contains(".."@)
                && !paths@[k]@.contains("/"@)) ==> r is Ok,
        r matches Ok(begun) ==> begun.0.paths@.len() == paths@.len() && found(begun.0)
            == Set::<Seq<Seq<char>>>::empty(),
{
    let all = all_views(paths@);
    assert(all.len() == paths@.len());
    assert(forall|k: int| 0 <= k < paths@.len() ==> #[trigger] all[k] == paths@[k]@);
    if let Ok(begun) = r {
        if 0 <= i < paths@.len() {
            assert(!all[i].contains(".."@) && !all[i].contains("/"@));
        }
        assert(found(begun.0) =~= Set::<Seq<Seq<char>>>::empty());
    } else {
        let k = if r->Err_0 is ParentDir {
            choose|k: int| is_first_with(all, ".."@, k)
        } else {
            choose|k: int| is_first_with(all, "/"@, k)
        };
        assert(all[k] == paths@[k]@);
    }
}

} // verus!
