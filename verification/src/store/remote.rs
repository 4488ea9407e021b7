//! Remotes, and the git commands that fetch from them and push to them.

use vstd::prelude::*;

use crate::order::{in_order, keys, sort, SortedSet};
use crate::store::branch::{
    fetch_refspec_of, ref_name_of, tracking_ref_of, Branch, BranchView,
};
use crate::store::heads::{is_valid_ref_name, ref_name_valid};
use crate::text::{
    full_lines, lemma_occurs_between, lines, occurs, starts_with, trim, trim_line_end, trimmed, views, without_line_end,
};

verus! {

// ----------------------------------------------------------------------------
// Remotes
// ----------------------------------------------------------------------------

/// A configured remote with a validated name and URL.
#[derive(Debug)]
pub struct Remote {
    name: String,
    url: String,
}

/// Why a remote or a name is refused.
#[derive(Debug)]
pub enum RemoteError {
    LeadingDash(String),
    InvalidName(String),
    EmptyUrl,
    InvalidTopicName(String),
    InvalidBranch(String),
}

impl RemoteError {
    /// The text of the error.
    pub open spec fn text(&self) -> Seq<char> {
        match self {
            RemoteError::LeadingDash(name) => "Invalid remote name '"@ + name@
                + "': names cannot start with '-'"@,
            RemoteError::InvalidName(name) => "Invalid remote name '"@ + name@ + "'"@,
            RemoteError::EmptyUrl => "Remote URL cannot be empty"@,
            RemoteError::InvalidTopicName(name) => "Invalid topic name '"@ + name@ + "'"@,
            RemoteError::InvalidBranch(name) => "Invalid remote branch '"@ + name@ + "'"@,
        }
    }

    /// The text of the error.
    pub fn message(&self) -> (r: String)
        ensures
            r@ == self.text(),
    {
        match self {
            RemoteError::LeadingDash(name) => "Invalid remote name '".to_owned().concat(
                name.as_str(),
            ).concat("': names cannot start with '-'"),
            RemoteError::InvalidName(name) => "Invalid remote name '".to_owned().concat(
                name.as_str(),
            ).concat("'"),
            RemoteError::EmptyUrl => "Remote URL cannot be empty".to_owned(),
            RemoteError::InvalidTopicName(name) => "Invalid topic name '".to_owned().concat(
                name.as_str(),
            ).concat("'"),
            RemoteError::InvalidBranch(name) => "Invalid remote branch '".to_owned().concat(
                name.as_str(),
            ).concat("'"),
        }
    }
}

impl Clone for Remote {
    fn clone(&self) -> (r: Remote)
        ensures
            r.spec_name() == self.spec_name(),
            r.spec_url() == self.spec_url(),
    {
        proof {
            use_type_invariant(self);
        }
        Remote { name: self.name.clone(), url: self.url.clone() }
    }
}

/// Whether a remote can have this name: git would take it for no option, and its tracking refs
/// are valid.
pub open spec fn remote_name_valid(name: Seq<char>) -> bool {
    !"-"@.is_prefix_of(name) && ref_name_valid("refs/remotes/"@ + name + "/manifest"@)
}

impl Remote {
    /// The name of the remote.
    pub closed spec fn spec_name(self) -> Seq<char> {
        self.name@
    }

    /// The URL of the remote.
    pub closed spec fn spec_url(self) -> Seq<char> {
        self.url@
    }

    #[verifier::type_invariant]
    spec fn is_validated(self) -> bool {
        remote_name_valid(self.name@) && self.url@.len() > 0
    }

    /// A remote with this name and URL.
    pub fn new(name: &str, url: &str) -> (r: Result<Remote, RemoteError>)
        ensures
            r is Ok <==> remote_name_valid(name@) && url@.len() > 0,
            match r {
                Ok(remote) => remote.spec_name() == name@ && remote.spec_url() == url@,
                Err(RemoteError::LeadingDash(n)) => n@ == name@ && "-"@.is_prefix_of(name@),
                Err(RemoteError::InvalidName(n)) => n@ == name@ && !"-"@.is_prefix_of(name@)
                    && !remote_name_valid(name@),
                Err(RemoteError::EmptyUrl) => remote_name_valid(name@) && url@.len() == 0,
                Err(_) => false,
            },
    {
        match Self::validate_name(name) {
            Ok(()) => {},
            Err(error) => {
                return Err(error);
            },
        }
        if url.is_empty() {
            return Err(RemoteError::EmptyUrl);
        }
        Ok(Remote { name: name.to_owned(), url: url.to_owned() })
    }

    /// Checks that a remote can have this name.
    pub fn validate_name(name: &str) -> (r: Result<(), RemoteError>)
        ensures
            r is Ok <==> remote_name_valid(name@),
            match r {
                Ok(()) => true,
                Err(RemoteError::LeadingDash(n)) => n@ == name@ && "-"@.is_prefix_of(name@),
                Err(RemoteError::InvalidName(n)) => n@ == name@ && !"-"@.is_prefix_of(name@),
                Err(_) => false,
            },
    {
        if starts_with(name, "-") {
            return Err(RemoteError::LeadingDash(name.to_owned()));
        }
        let tracking_ref = "refs/remotes/".to_owned().concat(name).concat("/manifest");
        if !is_valid_ref_name(tracking_ref.as_str()) {
            return Err(RemoteError::InvalidName(name.to_owned()));
        }
        Ok(())
    }

    /// The name of the remote.
    pub fn name(&self) -> (r: &str)
        ensures
            r@ == self.spec_name(),
            remote_name_valid(r@),
    {
        proof {
            use_type_invariant(self);
        }
        self.name.as_str()
    }

    /// The URL of the remote.
    pub fn url(&self) -> (r: &str)
        ensures
            r@ == self.spec_url(),
            r@.len() > 0,
    {
        proof {
            use_type_invariant(self);
        }
        self.url.as_str()
    }
}

/// The names in a listing of remotes, one in a line, in lexical order.
pub fn remote_names(listing: &str) -> (r: Vec<String>)
    ensures
        in_order(r@),
        views(r@).to_multiset() == full_lines(listing@).to_multiset(),
{
    let names = lines(listing);
    let r = sort(names);
    assert(keys(r@) =~= views(r@));
    assert(keys(names@) =~= views(names@));
    r
}

/// The URL in the output of a lookup.
pub fn remote_url(output: &str) -> (r: &str)
    ensures
        r@ == without_line_end(output@),
{
    trim_line_end(output)
}

// ----------------------------------------------------------------------------
// Commands
// ----------------------------------------------------------------------------

/// A git command: its arguments, and what it does in words.
#[derive(Debug)]
pub struct GitCommand {
    pub args: Vec<String>,
    pub operation: String,
}

impl GitCommand {
    /// The arguments.
    pub open spec fn arg_views(self) -> Seq<Seq<char>> {
        views(self.args@)
    }
}

fn command(args: &[&str], operation: &str) -> (r: GitCommand)
    ensures
        r.arg_views() == args@.map_values(|a: &str| a@),
        r.operation@ == operation@,
{
    let mut list: Vec<String> = Vec::new();
    let ghost texts = args@.map_values(|a: &str| a@);
    for i in 0..args.len()
        invariant
            texts == args@.map_values(|a: &str| a@),
            views(list@) == texts.take(i as int),
    {
        let ghost before = list@;
        list.push(args[i].to_owned());
        assert(views(list@) =~= views(before).push(texts[i as int]));
        assert(texts.take(i + 1) =~= texts.take(i as int).push(texts[i as int]));
    }
    assert(texts.take(texts.len() as int) =~= texts);
    GitCommand { args: list, operation: operation.to_owned() }
}

/// Lists the remotes.
pub fn list_command() -> (r: GitCommand)
    ensures
        r.arg_views() == seq!["remote"@],
        r.operation@ == "remote list"@,
{
    let r = command(&["remote"], "remote list");
    assert(r.arg_views() =~= seq!["remote"@]);
    r
}

/// Looks up the URL of a remote.
pub fn url_command(name: &str) -> (r: GitCommand)
    ensures
        r.arg_views() == seq!["remote"@, "get-url"@, name@],
        r.operation@ == "remote URL lookup for '"@ + name@ + "'"@,
{
    let operation = "remote URL lookup for '".to_owned().concat(name).concat("'");
    let r = command(&["remote", "get-url", name], operation.as_str());
    assert(r.arg_views() =~= seq!["remote"@, "get-url"@, name@]);
    r
}

/// Adds a remote.
pub fn add_command(remote: &Remote) -> (r: GitCommand)
    ensures
        r.arg_views() == seq![
            "remote"@,
            "add"@,
            "--no-tags"@,
            remote.spec_name(),
            remote.spec_url(),
        ],
        r.operation@ == "remote add"@,
{
    let r = command(&["remote", "add", "--no-tags", remote.name(), remote.url()], "remote add");
    assert(r.arg_views() =~= seq![
        "remote"@,
        "add"@,
        "--no-tags"@,
        remote.spec_name(),
        remote.spec_url(),
    ]);
    r
}

/// Removes a remote.
pub fn remove_command(name: &str) -> (r: Result<GitCommand, RemoteError>)
    ensures
        r is Ok <==> remote_name_valid(name@),
        match r {
            Ok(command) => command.arg_views() == seq!["remote"@, "remove"@, name@]
                && command.operation@ == "remote remove"@,
            Err(RemoteError::LeadingDash(n)) => n@ == name@ && "-"@.is_prefix_of(name@),
            Err(RemoteError::InvalidName(n)) => n@ == name@ && !"-"@.is_prefix_of(name@),
            Err(_) => false,
        },
{
    match Remote::validate_name(name) {
        Ok(()) => {
            let r = command(&["remote", "remove", name], "remote remove");
            assert(r.arg_views() =~= seq!["remote"@, "remove"@, name@]);
            Ok(r)
        },
        Err(error) => Err(error),
    }
}

/// Asks whether a remote has a manifest.
pub fn ls_remote_command(remote: &Remote) -> (r: GitCommand)
    ensures
        r.arg_views() == seq![
            "ls-remote"@,
            "--heads"@,
            remote.spec_name(),
            ref_name_of(BranchView::Manifest),
        ],
        r.operation@ == "ls-remote"@,
{
    let manifest = Branch::Manifest;
    let ref_name = manifest.ref_name();
    let r = command(&["ls-remote", "--heads", remote.name(), ref_name.as_str()], "ls-remote");
    assert(r.arg_views() =~= seq![
        "ls-remote"@,
        "--heads"@,
        remote.spec_name(),
        ref_name_of(BranchView::Manifest),
    ]);
    r
}

/// The refspecs of a fetch: the manifest, where the remote has one, and all topics.
pub open spec fn fetch_refspecs(remote: Seq<char>, manifest_exists: bool) -> Seq<Seq<char>> {
    (if manifest_exists {
        seq![fetch_refspec_of(BranchView::Manifest, remote)]
    } else {
        Seq::empty()
    }).push(fetch_refspec_of(BranchView::Topic("*"@), remote))
}

/// Fetches only `manifest` and `topic/*` into this remote's tracking namespace.
pub fn fetch_command(remote: &Remote, manifest_exists: bool) -> (r: GitCommand)
    ensures
        r.arg_views() == seq!["fetch"@, "--no-tags"@, "--prune"@, remote.spec_name()]
            + fetch_refspecs(remote.spec_name(), manifest_exists),
        r.operation@ == "fetch"@,
{
    let mut r = command(&["fetch", "--no-tags", "--prune", remote.name()], "fetch");
    let ghost head = seq!["fetch"@, "--no-tags"@, "--prune"@, remote.spec_name()];
    assert(views(r.args@) =~= head);
    if manifest_exists {
        let manifest = Branch::Manifest;
        let refspec = manifest.fetch_refspec(remote.name());
        r.args.push(refspec);
        assert(views(r.args@) =~= head.push(refspec@));
    }
    let ghost before = views(r.args@);
    let topics = Branch::topic("*").fetch_refspec(remote.name());
    r.args.push(topics);
    assert(views(r.args@) =~= before.push(topics@));
    assert(r.arg_views() =~= head + fetch_refspecs(remote.spec_name(), manifest_exists));
    r
}

/// What follows a fetch: where the remote has no manifest, the ref that tracked one is deleted.
pub fn prune_command(remote: &Remote, manifest_exists: bool) -> (r: Option<GitCommand>)
    ensures
        match r {
            Some(command) => !manifest_exists && command.arg_views() == seq![
                "update-ref"@,
                "-d"@,
                tracking_ref_of(BranchView::Manifest, remote.spec_name()),
            ] && command.operation@ == "update-ref"@,
            None => manifest_exists,
        },
{
    if manifest_exists {
        return None;
    }
    let manifest = Branch::Manifest;
    let tracking_ref = manifest.tracking_ref_name(remote.name());
    let r = command(&["update-ref", "-d", tracking_ref.as_str()], "update-ref");
    assert(r.arg_views() =~= seq![
        "update-ref"@,
        "-d"@,
        tracking_ref_of(BranchView::Manifest, remote.spec_name()),
    ]);
    Some(r)
}

/// A topic of a push: its name, and whether it has a local head.
#[derive(Debug)]
pub struct PushTopic {
    pub name: String,
    pub has_head: bool,
}

/// Whether a topic of this name can be pushed.
pub open spec fn topic_name_valid(name: Seq<char>) -> bool {
    ref_name_valid(ref_name_of(BranchView::Topic(name)))
}

/// Checks that a topic of this name can be pushed.
pub fn check_topic_name(name: &str) -> (r: Result<(), RemoteError>)
    ensures
        match r {
            Ok(()) => topic_name_valid(name@),
            Err(RemoteError::InvalidTopicName(n)) => n@ == name@ && !topic_name_valid(name@),
            Err(_) => false,
        },
{
    if is_valid_ref_name(Branch::topic(name).ref_name().as_str()) {
        Ok(())
    } else {
        Err(RemoteError::InvalidTopicName(name.to_owned()))
    }
}

/// The refspec that pushes a branch under its own name.
pub open spec fn push_refspec(branch: BranchView) -> Seq<char> {
    ref_name_of(branch) + ":"@ + ref_name_of(branch)
}

/// Whether the topic at `i` is named ahead of it.
pub open spec fn is_repeated(topics: Seq<PushTopic>, i: int) -> bool {
    exists|k: int| 0 <= k < i && (#[trigger] topics[k]).name@ == topics[i].name@
}

/// The refspecs of the topics that have a local head, each once.
pub open spec fn topic_refspecs(topics: Seq<PushTopic>) -> Seq<Seq<char>>
    decreases topics.len(),
{
    if topics.len() == 0 {
        Seq::empty()
    } else {
        let before = topic_refspecs(topics.drop_last());
        let last = topics.last();
        if last.has_head && !is_repeated(topics, topics.len() - 1) {
            before.push(push_refspec(BranchView::Topic(last.name@)))
        } else {
            before
        }
    }
}

/// Whether the topic at `i` is the first that cannot be pushed.
pub open spec fn is_first_invalid(topics: Seq<PushTopic>, i: int) -> bool {
    &&& 0 <= i < topics.len()
    &&& !topic_name_valid(topics[i].name@)
    &&& forall|k: int| 0 <= k < i ==> topic_name_valid((#[trigger] topics[k]).name@)
}

/// Pushes the manifest and the topics, all or none of them.
///
/// Topics without a local head are skipped, and so is every system branch.
pub fn push_command(remote: &Remote, topics: &Vec<PushTopic>) -> (r: Result<
    GitCommand,
    RemoteError,
>)
    ensures
        match r {
            Ok(command) => {
                &&& forall|i: int|
                    0 <= i < topics@.len() ==> topic_name_valid((#[trigger] topics@[i]).name@)
                &&& command.arg_views() == seq![
                    "push"@,
                    "--atomic"@,
                    remote.spec_name(),
                    push_refspec(BranchView::Manifest),
                ] + topic_refspecs(topics@)
                &&& command.operation@ == "push"@
            },
            Err(RemoteError::InvalidTopicName(name)) => exists|i: int| #[trigger]
                is_first_invalid(topics@, i) && name@ == topics@[i].name@,
            Err(_) => false,
        },
{
    let manifest = Branch::Manifest;
    let manifest_ref = manifest.ref_name();
    let manifest_spec = manifest_ref.clone().concat(":").concat(manifest_ref.as_str());
    let mut r = command(
        &["push", "--atomic", remote.name(), manifest_spec.as_str()],
        "push",
    );
    let ghost head = seq![
        "push"@,
        "--atomic"@,
        remote.spec_name(),
        push_refspec(BranchView::Manifest),
    ];
    assert(views(r.args@) =~= head);
    let mut seen: SortedSet<String> = SortedSet::new();
    assert(topics@.take(0) =~= Seq::<PushTopic>::empty());
    assert(head + topic_refspecs(topics@.take(0)) =~= head);
    for i in 0..topics.len()
        invariant
            forall|k: int| 0 <= k < i ==> topic_name_valid((#[trigger] topics@[k]).name@),
            seen.wf(),
            forall|name: Seq<char>| #[trigger]
                seen@.contains(name) <==> exists|k: int|
                    0 <= k < i && (#[trigger] topics@[k]).name@ == name,
            views(r.args@) == head + topic_refspecs(topics@.take(i as int)),
            r.operation@ == "push"@,
    {
        let topic = &topics[i];
        match check_topic_name(topic.name.as_str()) {
            Ok(()) => {},
            Err(error) => {
                assert(is_first_invalid(topics@, i as int));
                return Err(error);
            },
        }
        let ghost before = seen@;
        let ghost now = topics@.take(i + 1);
        proof {
            assert(now.drop_last() =~= topics@.take(i as int));
            assert(is_repeated(now, i as int) == before.contains(topic.name@)) by {
                if is_repeated(now, i as int) {
                    let k = choose|k: int|
                        0 <= k < i && (#[trigger] now[k]).name@ == now[i as int].name@;
                    assert(topics@[k].name@ == topic.name@);
                }
                if before.contains(topic.name@) {
                    let k = choose|k: int|
                        0 <= k < i && (#[trigger] topics@[k]).name@ == topic.name@;
                    assert(now[k].name@ == topic.name@);
                }
            }
        }
        let added = seen.insert(topic.name.clone());
        if added && topic.has_head {
            let ref_name = Branch::topic(topic.name.as_str()).ref_name();
            let refspec = ref_name.clone().concat(":").concat(ref_name.as_str());
            let ghost args0 = views(r.args@);
            r.args.push(refspec);
            assert(views(r.args@) =~= args0.push(refspec@));
        }
        assert(views(r.args@) =~= head + topic_refspecs(now));
        assert forall|n: Seq<char>| #[trigger]
            seen@.contains(n) <==> exists|k: int|
                0 <= k < i + 1 && (#[trigger] topics@[k]).name@ == n by {
            assert(seen@ == before.insert(topic.name@));
            if before.contains(n) {
                let k = choose|k: int| 0 <= k < i && (#[trigger] topics@[k]).name@ == n;
                assert(0 <= k < i + 1 && topics@[k].name@ == n);
            }
            if n == topic.name@ {
                assert(0 <= i < i + 1 && topics@[i as int].name@ == n);
            }
        }
    }
    assert(topics@.take(topics@.len() as int) =~= topics@);
    Ok(r)
}

/// The ref under which the head of a branch on a remote is found.
pub fn remote_head_ref(remote: &Remote, branch: &Branch) -> (r: Result<String, RemoteError>)
    ensures
        match r {
            Ok(name) => name@ == tracking_ref_of(branch@, remote.spec_name()) && ref_name_valid(
                name@,
            ),
            Err(RemoteError::InvalidBranch(name)) => name@ == tracking_ref_of(
                branch@,
                remote.spec_name(),
            ) && !ref_name_valid(name@),
            Err(_) => false,
        },
{
    let ref_name = branch.tracking_ref_name(remote.name());
    if is_valid_ref_name(ref_name.as_str()) {
        Ok(ref_name)
    } else {
        Err(RemoteError::InvalidBranch(ref_name))
    }
}

/// What is said of a git command that failed: what it wrote, or its status where it wrote
/// nothing.
pub open spec fn failure_text(
    operation: Seq<char>,
    written: Seq<char>,
    status: Seq<char>,
) -> Seq<char> {
    if trimmed(written).len() == 0 {
        "git "@ + operation + " failed with status "@ + status
    } else {
        "git "@ + operation + " failed: "@ + trimmed(written)
    }
}

/// Says what went wrong with a git command.
pub fn git_failure(operation: &str, written: &str, status: &str) -> (r: String)
    ensures
        r@ == failure_text(operation@, written@, status@),
{
    let detail = trim(written);
    if detail.is_empty() {
        "git ".to_owned().concat(operation).concat(" failed with status ").concat(status)
    } else {
        "git ".to_owned().concat(operation).concat(" failed: ").concat(detail)
    }
}

// ----------------------------------------------------------------------------
// Laws
// ----------------------------------------------------------------------------

/// Whether a refspec names a system branch on either side.
pub open spec fn names_system_branch(refspec: Seq<char>) -> bool {
    "refs/heads/system/"@.is_prefix_of(refspec) || "+refs/heads/system/"@.is_prefix_of(refspec)
}

/// No system branch is pushed.
pub proof fn law_push_leaves_system_branches(topics: Seq<PushTopic>, i: int)
    requires
        0 <= i < topic_refspecs(topics).len(),
    ensures
        !names_system_branch(topic_refspecs(topics)[i]),
        !names_system_branch(push_refspec(BranchView::Manifest)),
    decreases topics.len(),
{
    reveal_strlit("refs/heads/");
    reveal_strlit("topic/");
    reveal_strlit("manifest");
    let manifest = push_refspec(BranchView::Manifest);
    assert(manifest[0] == 'r' && manifest[11] == 'm');
    lemma_not_system(manifest, 'm');
    if i < topic_refspecs(topics.drop_last()).len() {
        law_push_leaves_system_branches(topics.drop_last(), i);
    } else {
        let spec = topic_refspecs(topics)[i];
        assert(spec[0] == 'r' && spec[11] == 't');
        lemma_not_system(spec, 't');
    }
}

proof fn lemma_not_system(spec: Seq<char>, c: char)
    requires
        spec.len() > 12,
        spec[0] == 'r' && spec[11] == c || spec[0] == '+' && spec[12] == c,
        c != 's',
    ensures
        !names_system_branch(spec),
{
    reveal_strlit("refs/heads/system/");
    reveal_strlit("+refs/heads/system/");
    let plain = "refs/heads/system/"@;
    let forced = "+refs/heads/system/"@;
    assert(plain[0] == 'r' && plain[11] == 's');
    assert(forced[0] == '+' && forced[12] == 's');
    if plain.is_prefix_of(spec) {
        assert(spec.subrange(0, plain.len() as int)[0] == 'r');
        assert(spec.subrange(0, plain.len() as int)[11] == 's');
    }
    if forced.is_prefix_of(spec) {
        assert(spec.subrange(0, forced.len() as int)[0] == '+');
        assert(spec.subrange(0, forced.len() as int)[12] == 's');
    }
}

/// No system branch is fetched.
pub proof fn law_fetch_leaves_system_branches(remote: Seq<char>, manifest_exists: bool, i: int)
    requires
        0 <= i < fetch_refspecs(remote, manifest_exists).len(),
    ensures
        !names_system_branch(fetch_refspecs(remote, manifest_exists)[i]),
{
    reveal_strlit("+");
    reveal_strlit("refs/heads/");
    reveal_strlit("topic/");
    reveal_strlit("manifest");
    let spec = fetch_refspecs(remote, manifest_exists)[i];
    assert(spec[0] == '+');
    assert(spec[12] == 'm' || spec[12] == 't');
    lemma_not_system(spec, spec[12]);
}

/// Every topic with a local head is pushed, under its own name on both sides.
pub proof fn law_every_topic_with_a_head_is_pushed(topics: Seq<PushTopic>, i: int)
    requires
        0 <= i < topics.len(),
        topics[i].has_head,
        forall|k: int|
            0 <= k < topics.len() && (#[trigger] topics[k]).name@ == topics[i].name@
                ==> topics[k].has_head,
    ensures
        topic_refspecs(topics).contains(
            "refs/heads/topic/"@ + topics[i].name@ + ":refs/heads/topic/"@ + topics[i].name@,
        ),
    decreases topics.len(),
{
    let name = topics[i].name@;
    let spec = "refs/heads/topic/"@ + name + ":refs/heads/topic/"@ + name;
    let rest = topics.drop_last();
    let before = topic_refspecs(rest);
    let last = topics.len() - 1;
    if i < last {
        law_every_topic_with_a_head_is_pushed(rest, i);
        let at = choose|at: int| 0 <= at < before.len() && before[at] == spec;
        assert(topic_refspecs(topics)[at] == spec);
    } else if is_repeated(topics, last) {
        let k = choose|k: int| 0 <= k < last && (#[trigger] topics[k]).name@ == topics[last].name@;
        assert(rest[k].name@ == name);
        law_every_topic_with_a_head_is_pushed(rest, k);
        assert(topic_refspecs(topics) == before);
    } else {
        lemma_topic_spec(name);
        assert(topic_refspecs(topics)[before.len() as int] == spec);
    }
}

proof fn lemma_topic_spec(name: Seq<char>)
    ensures
        push_refspec(BranchView::Topic(name)) == "refs/heads/topic/"@ + name
            + ":refs/heads/topic/"@ + name,
{
    reveal_strlit("refs/heads/");
    reveal_strlit("topic/");
    reveal_strlit("refs/heads/topic/");
    reveal_strlit(":");
    reveal_strlit(":refs/heads/topic/");
    assert("refs/heads/topic/"@ =~= "refs/heads/"@ + "topic/"@);
    assert(":refs/heads/topic/"@ =~= ":"@ + "refs/heads/"@ + "topic/"@);
    assert(push_refspec(BranchView::Topic(name)) =~= "refs/heads/topic/"@ + name
        + ":refs/heads/topic/"@ + name);
}

/// Nothing but topics with a local head is pushed beside the manifest, and none of them twice.
pub proof fn law_only_topics_with_a_head_are_pushed(topics: Seq<PushTopic>, j: int) -> (i: int)
    requires
        0 <= j < topic_refspecs(topics).len(),
    ensures
        0 <= i < topics.len(),
        topics[i].has_head,
        topic_refspecs(topics)[j] == "refs/heads/topic/"@ + topics[i].name@
            + ":refs/heads/topic/"@ + topics[i].name@,
        topic_refspecs(topics).no_duplicates(),
    decreases topics.len(),
{
    let rest = topics.drop_last();
    let before = topic_refspecs(rest);
    let last = topics.len() - 1;
    let name = topics[last].name@;
    lemma_topic_spec(name);
    let pushed = topics[last].has_head && !is_repeated(topics, last);
    if pushed {
        assert forall|k: int| 0 <= k < before.len() implies before[k] != push_refspec(
            BranchView::Topic(name),
        ) by {
            let m = law_only_topics_with_a_head_are_pushed(rest, k);
            lemma_topic_spec(topics[m].name@);
            if before[k] == push_refspec(BranchView::Topic(name)) {
                lemma_topic_specs_differ(topics[m].name@, name);
                assert(is_repeated(topics, last));
            }
        }
    }
    if before.len() > 0 {
        let m = law_only_topics_with_a_head_are_pushed(rest, 0);
        assert(before.no_duplicates());
    }
    assert(topic_refspecs(topics).no_duplicates());
    if j < before.len() {
        law_only_topics_with_a_head_are_pushed(rest, j)
    } else {
        last
    }
}

proof fn lemma_topic_specs_differ(a: Seq<char>, b: Seq<char>)
    requires
        push_refspec(BranchView::Topic(a)) == push_refspec(BranchView::Topic(b)),
    ensures
        a == b,
{
    lemma_topic_spec(a);
    lemma_topic_spec(b);
    let head = "refs/heads/topic/"@;
    let middle = ":refs/heads/topic/"@;
    let x = head + a + middle + a;
    let y = head + b + middle + b;
    assert(x.len() == head.len() + middle.len() + 2 * a.len());
    assert(y.len() == head.len() + middle.len() + 2 * b.len());
    assert(a =~= x.subrange(head.len() as int, (head.len() + a.len()) as int));
    assert(b =~= y.subrange(head.len() as int, (head.len() + b.len()) as int));
}

/// What is fetched is all topics, and the manifest where there is one, each to where this remote is
/// tracked; where there is none, what tracked it is deleted instead.
pub proof fn law_fetch_takes_manifest_and_topics(
    remote: Remote,
    manifest_exists: bool,
    fetch: GitCommand,
    prune: Option<GitCommand>,
)
    requires
        call_ensures(fetch_command, (&remote, manifest_exists), fetch),
        call_ensures(prune_command, (&remote, manifest_exists), prune),
    ensures
        fetch.arg_views().contains(
            "+refs/heads/topic/*:refs/remotes/"@ + remote.spec_name() + "/topic/*"@,
        ),
        manifest_exists <==> fetch.arg_views().contains(
            "+refs/heads/manifest:refs/remotes/"@ + remote.spec_name() + "/manifest"@,
        ),
        manifest_exists <==> prune is None,
        prune is Some ==> prune->Some_0.arg_views().last() == "refs/remotes/"@ + remote.spec_name()
            + "/manifest"@,
{
    reveal_strlit("+");
    reveal_strlit("*");
    reveal_strlit(":");
    reveal_strlit("/");
    reveal_strlit("refs/heads/");
    reveal_strlit("refs/remotes/");
    reveal_strlit("topic/");
    reveal_strlit("manifest");
    reveal_strlit("+refs/heads/topic/*:refs/remotes/");
    reveal_strlit("/topic/*");
    reveal_strlit("+refs/heads/manifest:refs/remotes/");
    reveal_strlit("/manifest");
    reveal_strlit("fetch");
    reveal_strlit("--no-tags");
    reveal_strlit("--prune");
    let name = remote.spec_name();
    let topics = "+refs/heads/topic/*:refs/remotes/"@ + name + "/topic/*"@;
    let manifest = "+refs/heads/manifest:refs/remotes/"@ + name + "/manifest"@;
    assert(fetch_refspec_of(BranchView::Topic("*"@), name) =~= topics);
    assert(fetch_refspec_of(BranchView::Manifest, name) =~= manifest);
    assert(tracking_ref_of(BranchView::Manifest, name) =~= "refs/remotes/"@ + name + "/manifest"@);
    let args = fetch.arg_views();
    let tail = fetch_refspecs(name, manifest_exists);
    assert(args.last() == topics);
    assert(args[args.len() - 1] == topics);
    if manifest_exists {
        assert(args[4] == manifest);
    } else if args.contains(manifest) {
        let k = choose|k: int| 0 <= k < args.len() && args[k] == manifest;
        assert(args.len() == 5);
        assert(manifest.len() == 34 + name.len() + 9);
        assert(manifest[12] == 'm' && topics[12] == 't');
        assert("fetch"@.len() == 5 && "--no-tags"@.len() == 9 && "--prune"@.len() == 7);
        assert(k == 0 || k == 1 || k == 2 || k == 3 || k == 4);
    }
}

/// What is pushed is the manifest and every topic with a local head, to this remote and all at
/// once; a topic whose name is not valid keeps everything from being pushed.
pub proof fn law_push_takes_manifest_and_topics(
    remote: Remote,
    topics: Vec<PushTopic>,
    r: Result<GitCommand, RemoteError>,
    i: int,
)
    requires
        call_ensures(push_command, (&remote, &topics), r),
        0 <= i < topics@.len(),
        forall|k: int|
            0 <= k < topics@.len() && (#[trigger] topics@[k]).name@ == topics@[i].name@
                ==> topics@[k].has_head == topics@[i].has_head,
    ensures
        !topic_name_valid(topics@[i].name@) ==> r is Err,
        (forall|k: int| 0 <= k < topics@.len() ==> topic_name_valid((#[trigger] topics@[k]).name@))
            ==> r is Ok,
        r matches Ok(command) ==> {
            let args = command.arg_views();
            &&& args[0] == "push"@ && args[1] == "--atomic"@ && args[2] == remote.spec_name()
            &&& args.contains("refs/heads/manifest:refs/heads/manifest"@)
            &&& topics@[i].has_head ==> args.contains(
                "refs/heads/topic/"@ + topics@[i].name@ + ":refs/heads/topic/"@ + topics@[i].name@,
            )
        },
{
    if let Ok(command) = r {
        let args = command.arg_views();
        let specs = topic_refspecs(topics@);
        reveal_strlit("refs/heads/");
        reveal_strlit("manifest");
        reveal_strlit(":");
        reveal_strlit("refs/heads/manifest:refs/heads/manifest");
        assert(push_refspec(BranchView::Manifest) =~= "refs/heads/manifest:refs/heads/manifest"@);
        assert(args[3] == push_refspec(BranchView::Manifest));
        if topics@[i].has_head {
            law_every_topic_with_a_head_is_pushed(topics@, i);
            let spec = "refs/heads/topic/"@ + topics@[i].name@ + ":refs/heads/topic/"@
                + topics@[i].name@;
            let k = choose|k: int| 0 <= k < specs.len() && specs[k] == spec;
            assert(args[4 + k] == spec);
        }
    }
}

/// A remote is refused for a name that git would take for an option, for one that is no part of a
/// ref, and for an empty URL. Any other is made as it is named.
pub proof fn law_which_remotes_are_made(name: &str, url: &str, r: Result<Remote, RemoteError>)
    requires
        call_ensures(Remote::new, (name, url), r),
    ensures
        name@.len() > 0 && name@[0] == '-' ==> r is Err && r->Err_0 is LeadingDash,
        url@.len() == 0 ==> r is Err,
        !ref_name_valid("refs/remotes/"@ + name@ + "/manifest"@) ==> r is Err,
        (name@.len() == 0 || name@[0] != '-') && ref_name_valid(
            "refs/remotes/"@ + name@ + "/manifest"@,
        ) && url@.len() > 0 ==> r is Ok && r->Ok_0.spec_name() == name@ && r->Ok_0.spec_url() == url@,
{
    reveal_strlit("-");
    if name@.len() > 0 && name@[0] == '-' {
        assert(name@.subrange(0, 1) =~= "-"@);
    }
    if "-"@.is_prefix_of(name@) {
        assert(name@.subrange(0, 1)[0] == '-');
    }
}

/// What is said of a git command that failed has what it was to do, and what it wrote without the
/// white space around it, or its status where it wrote nothing else.
pub proof fn law_failures_say_what_was_written(
    operation: Seq<char>,
    written: Seq<char>,
    status: Seq<char>,
)
    ensures
        occurs(failure_text(operation, written, status), operation),
        trimmed(written).len() > 0 ==> occurs(
            failure_text(operation, written, status),
            trimmed(written),
        ),
        trimmed(written).len() == 0 ==> occurs(failure_text(operation, written, status), status),
{
    let text = failure_text(operation, written, status);
    let end = if trimmed(written).len() == 0 {
        status
    } else {
        trimmed(written)
    };
    let middle = if trimmed(written).len() == 0 {
        " failed with status "@
    } else {
        " failed: "@
    };
    assert(text =~= "git "@ + operation + (middle + end));
    lemma_occurs_between(text, "git "@, operation, middle + end);
    assert(text =~= ("git "@ + operation + middle) + end + Seq::empty());
    lemma_occurs_between(text, "git "@ + operation + middle, end, Seq::empty());
}

/// A topic can be pushed exactly where its ref is a valid one.
pub proof fn law_pushed_topics_have_valid_refs(name: &str, r: Result<(), RemoteError>)
    requires
        call_ensures(check_topic_name, (name,), r),
    ensures
        topic_name_valid(name@) == ref_name_valid("refs/heads/topic/"@ + name@),
        r is Ok <==> ref_name_valid("refs/heads/topic/"@ + name@),
{
    reveal_strlit("refs/heads/");
    reveal_strlit("topic/");
    reveal_strlit("refs/heads/topic/");
    assert("refs/heads/"@ + ("topic/"@ + name@) =~= "refs/heads/topic/"@ + name@);
}

} // verus!
