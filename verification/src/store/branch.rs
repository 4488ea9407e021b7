//! The branches of the store and the names of their references.

use vstd::prelude::*;

use crate::text::{first_index, is_first_index, same, strip_front};

verus! {

/// A Porchetta branch: the single owner of the store's ref naming layout.
#[derive(Debug)]
pub enum Branch {
    Manifest,
    Topic(String),
    System { hostname: String, topic: String },
}

/// The value of a [`Branch`].
pub enum BranchView {
    Manifest,
    Topic(Seq<char>),
    System { hostname: Seq<char>, topic: Seq<char> },
}

impl View for Branch {
    type V = BranchView;

    open spec fn view(&self) -> BranchView {
        match self {
            Branch::Manifest => BranchView::Manifest,
            Branch::Topic(topic) => BranchView::Topic(topic@),
            Branch::System { hostname, topic } => BranchView::System {
                hostname: hostname@,
                topic: topic@,
            },
        }
    }
}

/// The branch portion of a ref name, such as `topic/shell`.
pub open spec fn short_name_of(branch: BranchView) -> Seq<char> {
    match branch {
        BranchView::Manifest => "manifest"@,
        BranchView::Topic(topic) => "topic/"@ + topic,
        BranchView::System { hostname, topic } => "system/"@ + hostname + "/"@ + topic,
    }
}

/// The local ref of a branch.
pub open spec fn ref_name_of(branch: BranchView) -> Seq<char> {
    "refs/heads/"@ + short_name_of(branch)
}

/// The ref that tracks a branch of `remote`.
pub open spec fn tracking_ref_of(branch: BranchView, remote: Seq<char>) -> Seq<char> {
    "refs/remotes/"@ + remote + "/"@ + short_name_of(branch)
}

/// The refspec that fetches a branch of `remote`.
pub open spec fn fetch_refspec_of(branch: BranchView, remote: Seq<char>) -> Seq<char> {
    "+"@ + ref_name_of(branch) + ":"@ + tracking_ref_of(branch, remote)
}

/// The branch that a short name stands for.
pub open spec fn parsed(short_name: Seq<char>) -> Option<BranchView> {
    if short_name == "manifest"@ {
        Some(BranchView::Manifest)
    } else if "topic/"@.is_prefix_of(short_name) {
        Some(BranchView::Topic(short_name.skip("topic/"@.len() as int)))
    } else if "system/"@.is_prefix_of(short_name) {
        let rest = short_name.skip("system/"@.len() as int);
        if rest.contains('/') {
            let at = rest.index_of_first('/')->Some_0;
            Some(BranchView::System { hostname: rest.take(at), topic: rest.skip(at + 1) })
        } else {
            None
        }
    } else {
        None
    }
}

impl Branch {
    /// Returns the branch shared for a topic.
    pub fn topic(name: &str) -> (r: Branch)
        ensures
            r@ == BranchView::Topic(name@),
    {
        Branch::Topic(name.to_owned())
    }

    /// Returns the branch tracking a topic's state on a specific hostname.
    pub fn system(hostname: &str, topic: &str) -> (r: Branch)
        ensures
            r@ == (BranchView::System { hostname: hostname@, topic: topic@ }),
    {
        Branch::System { hostname: hostname.to_owned(), topic: topic.to_owned() }
    }

    /// A copy of the branch.
    pub fn copy(&self) -> (r: Branch)
        ensures
            r@ == self@,
    {
        match self {
            Branch::Manifest => Branch::Manifest,
            Branch::Topic(topic) => Branch::Topic(topic.clone()),
            Branch::System { hostname, topic } => Branch::System {
                hostname: hostname.clone(),
                topic: topic.clone(),
            },
        }
    }

    /// The branch portion of the ref name, e.g. `topic/shell`.
    pub fn short_name(&self) -> (r: String)
        ensures
            r@ == short_name_of(self@),
    {
        match self {
            Branch::Manifest => "manifest".to_owned(),
            Branch::Topic(topic) => "topic/".to_owned().concat(topic.as_str()),
            Branch::System { hostname, topic } => "system/".to_owned().concat(
                hostname.as_str(),
            ).concat("/").concat(topic.as_str()),
        }
    }

    /// The full local ref name, e.g. `refs/heads/topic/shell`.
    pub fn ref_name(&self) -> (r: String)
        ensures
            r@ == ref_name_of(self@),
    {
        "refs/heads/".to_owned().concat(self.short_name().as_str())
    }

    /// The full name of this branch's tracking ref on `remote`, e.g.
    /// `refs/remotes/origin/topic/shell`.
    pub fn tracking_ref_name(&self, remote: &str) -> (r: String)
        ensures
            r@ == tracking_ref_of(self@, remote@),
    {
        "refs/remotes/".to_owned().concat(remote).concat("/").concat(self.short_name().as_str())
    }

    /// The fetch refspec mapping this branch into `remote`'s tracking namespace.
    ///
    /// `Branch::topic("*")` yields the wildcard refspec covering all topics.
    pub fn fetch_refspec(&self, remote: &str) -> (r: String)
        ensures
            r@ == fetch_refspec_of(self@, remote@),
    {
        "+".to_owned().concat(self.ref_name().as_str()).concat(":").concat(
            self.tracking_ref_name(remote).as_str(),
        )
    }

    /// Parses a branch from its short name, the inverse of [`Branch::short_name`].
    pub fn parse(short_name: &str) -> (r: Option<Branch>)
        ensures
            match r {
                Some(branch) => parsed(short_name@) == Some(branch@),
                None => parsed(short_name@) is None,
            },
    {
        if same(short_name, "manifest") {
            return Some(Branch::Manifest);
        }
        if let Some(topic) = strip_front(short_name, "topic/") {
            return Some(Branch::Topic(topic.to_owned()));
        }
        let rest = match strip_front(short_name, "system/") {
            Some(rest) => rest,
            None => {
                return None;
            },
        };
        match first_index(rest, '/') {
            Some(at) => {
                proof {
                    lemma_first_index(rest@, '/', at as int);
                }
                let hostname = rest.substring_char(0, at);
                let end: usize = rest.unicode_len();
                let topic = rest.substring_char(at + 1, end);
                assert(hostname@ =~= rest@.take(at as int));
                assert(topic@ =~= rest@.skip(at + 1));
                Some(
                    Branch::System { hostname: hostname.to_owned(), topic: topic.to_owned() },
                )
            },
            None => None,
        }
    }
}

proof fn lemma_first_index(s: Seq<char>, c: char, at: int)
    requires
        is_first_index(s, c, at),
    ensures
        s.contains(c),
        s.index_of_first(c) == Some(at),
{
    assert(s[at] == c);
    s.index_of_first_ensures(c);
}

// ----------------------------------------------------------------------------
// Laws
// ----------------------------------------------------------------------------

/// The short name of a branch stands for the branch, as long as no hostname holds a slash.
pub proof fn law_short_name_parses_back(branch: BranchView)
    requires
        branch matches BranchView::System { hostname, topic } ==> !hostname.contains('/'),
    ensures
        parsed(short_name_of(branch)) == Some(branch),
{
    reveal_strlit("manifest");
    reveal_strlit("topic/");
    reveal_strlit("system/");
    reveal_strlit("/");
    let name = short_name_of(branch);
    match branch {
        BranchView::Manifest => {},
        BranchView::Topic(topic) => {
            assert(name[0] == 't');
            assert("topic/"@ =~= name.take("topic/"@.len() as int));
            assert(name.skip("topic/"@.len() as int) =~= topic);
        },
        BranchView::System { hostname, topic } => {
            assert(name[0] == 's');
            assert("topic/"@[0] == 't');
            assert("manifest"@[0] == 'm');
            assert("system/"@ =~= name.take("system/"@.len() as int));
            let rest = name.skip("system/"@.len() as int);
            assert(rest =~= hostname + "/"@ + topic);
            let at = hostname.len() as int;
            assert(rest[at] == '/');
            assert forall|k: int| 0 <= k < at implies rest[k] != '/' by {
                assert(rest[k] == hostname[k]);
                assert(hostname.contains(hostname[k]));
            }
            rest.index_of_first_ensures('/');
            assert(rest.index_of_first('/') == Some(at));
            assert(rest.take(at) =~= hostname);
            assert(rest.skip(at + 1) =~= topic);
        },
    }
}

/// Different branches have different refs, as long as no hostname holds a slash.
pub proof fn law_refs_differ(a: BranchView, b: BranchView)
    requires
        a matches BranchView::System { hostname, topic } ==> !hostname.contains('/'),
        b matches BranchView::System { hostname, topic } ==> !hostname.contains('/'),
        ref_name_of(a) == ref_name_of(b),
    ensures
        a == b,
{
    let prefix = "refs/heads/"@;
    assert(short_name_of(a) =~= ref_name_of(a).skip(prefix.len() as int));
    assert(short_name_of(b) =~= ref_name_of(b).skip(prefix.len() as int));
    law_short_name_parses_back(a);
    law_short_name_parses_back(b);
}

/// No local ref is a tracking ref.
pub proof fn law_local_refs_are_no_tracking_refs(a: BranchView, b: BranchView, remote: Seq<char>)
    ensures
        ref_name_of(a) != tracking_ref_of(b, remote),
{
    reveal_strlit("refs/heads/");
    reveal_strlit("refs/remotes/");
    assert(ref_name_of(a)[5] == 'h');
    assert(tracking_ref_of(b, remote)[5] == 'r');
}

/// Only the short name of a branch stands for it.
pub proof fn law_parsed_name_is_the_short_name(name: Seq<char>)
    ensures
        parsed(name) matches Some(branch) ==> short_name_of(branch) == name,
{
    reveal_strlit("/");
    if let Some(branch) = parsed(name) {
        match branch {
            BranchView::Manifest => {},
            BranchView::Topic(topic) => {
                assert("topic/"@ + topic =~= name);
            },
            BranchView::System { hostname, topic } => {
                let rest = name.skip("system/"@.len() as int);
                rest.index_of_first_ensures('/');
                assert("system/"@ + hostname + "/"@ + topic =~= name);
            },
        }
    }
}

/// A branch goes by one short name everywhere: in its local ref, in the refs that track it, and on
/// both sides of the refspec that fetches it.
pub proof fn law_refs_share_the_short_name(branch: BranchView, name: Seq<char>, remote: Seq<char>)
    ensures
        ref_name_of(branch) == "refs/heads/"@ + name <==> tracking_ref_of(branch, remote)
            == "refs/remotes/"@ + remote + "/"@ + name,
        ref_name_of(branch) == "refs/heads/"@ + short_name_of(branch),
        "+"@.is_prefix_of(fetch_refspec_of(branch, remote)),
        fetch_refspec_of(branch, remote).skip(1) == ref_name_of(branch) + ":"@ + tracking_ref_of(
            branch,
            remote,
        ),
{
    reveal_strlit("+");
    let spec = fetch_refspec_of(branch, remote);
    assert(spec.take(1) =~= "+"@);
    assert(spec.skip(1) =~= ref_name_of(branch) + ":"@ + tracking_ref_of(branch, remote));
    let local = "refs/heads/"@;
    let front = "refs/remotes/"@ + remote + "/"@;
    if ref_name_of(branch) == local + name {
        assert(name =~= ref_name_of(branch).skip(local.len() as int));
        assert(short_name_of(branch) =~= ref_name_of(branch).skip(local.len() as int));
    }
    if tracking_ref_of(branch, remote) == front + name {
        assert(name =~= tracking_ref_of(branch, remote).skip(front.len() as int));
        assert(short_name_of(branch) =~= tracking_ref_of(branch, remote).skip(front.len() as int));
    }
}

/// Short names tell branches apart by what they are of.
pub proof fn law_short_names_say_what_they_are(hostname: Seq<char>, topic: Seq<char>)
    ensures
        parsed("manifest"@) == Some(BranchView::Manifest),
        parsed("topic/"@ + topic) == Some(BranchView::Topic(topic)),
        !hostname.contains('/') ==> parsed("system/"@ + hostname + "/"@ + topic) == Some(
            BranchView::System { hostname, topic },
        ),
        !hostname.contains('/') ==> parsed("system/"@ + hostname) is None,
{
    law_short_name_parses_back(BranchView::Manifest);
    law_short_name_parses_back(BranchView::Topic(topic));
    if !hostname.contains('/') {
        law_short_name_parses_back(BranchView::System { hostname, topic });
        reveal_strlit("manifest");
        reveal_strlit("topic/");
        reveal_strlit("system/");
        let name = "system/"@ + hostname;
        assert(name[0] == 's' && "topic/"@[0] == 't' && "manifest"@[0] == 'm');
        assert(name.skip("system/"@.len() as int) =~= hostname);
    }
}

/// What is parsed of the short name of a branch is the branch.
pub proof fn law_branches_parse_back(branch: Branch, name: &str, parsed: Option<Branch>)
    requires
        branch@ matches BranchView::System { hostname, topic } ==> !hostname.contains('/'),
        name@ == short_name_of(branch@),
        call_ensures(Branch::parse, (name,), parsed),
    ensures
        parsed is Some,
        parsed->Some_0@ == branch@,
{
    law_short_name_parses_back(branch@);
}

} // verus!
