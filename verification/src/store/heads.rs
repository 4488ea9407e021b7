//! Updates of branch heads.

use vstd::prelude::*;

use crate::object::ObjectId;
use crate::order::SortedSet;
use crate::store::branch::{ref_name_of, short_name_of, Branch};

verus! {

// ----------------------------------------------------------------------------
// Reference names
// ----------------------------------------------------------------------------

/// Whether git accepts this text as the full name of a reference.
pub uninterp spec fn ref_name_valid(name: Seq<char>) -> bool;

/// Whether `gix::refs::FullName::try_from` accepts the name. The claim is that this depends on
/// the characters of the name alone.
#[verifier::external_body]
pub(crate) fn is_valid_ref_name(name: &str) -> (r: bool)
    ensures
        r == ref_name_valid(name@),
{
    gix::refs::FullName::try_from(name).is_ok()
}

// ----------------------------------------------------------------------------
// Updates
// ----------------------------------------------------------------------------

/// A branch and the commit that becomes its head.
#[derive(Debug)]
pub struct HeadUpdate {
    pub branch: Branch,
    pub head: ObjectId,
}

/// An edit of a reference: its full name, its new target, and the message for its log.
#[derive(Debug)]
pub struct RefEdit {
    pub name: String,
    pub target: ObjectId,
    pub log_message: String,
}

/// Why a list of updates is refused.
#[derive(Debug)]
pub enum UpdateError {
    InvalidBranchName(String),
    DuplicateUpdate(String),
}

impl UpdateError {
    /// The text of the error.
    pub open spec fn text(&self) -> Seq<char> {
        match self {
            UpdateError::InvalidBranchName(name) => "Invalid branch name '"@ + name@ + "'"@,
            UpdateError::DuplicateUpdate(name) => "Duplicate branch update for '"@ + name@ + "'"@,
        }
    }

    /// The text of the error.
    pub fn message(&self) -> (r: String)
        ensures
            r@ == self.text(),
    {
        match self {
            UpdateError::InvalidBranchName(name) => "Invalid branch name '".to_owned().concat(
                name.as_str(),
            ).concat("'"),
            UpdateError::DuplicateUpdate(name) => "Duplicate branch update for '".to_owned().concat(
                name.as_str(),
            ).concat("'"),
        }
    }
}

/// Whether the update at `i` names a branch that an update ahead of it names too.
pub open spec fn is_duplicate(updates: Seq<HeadUpdate>, i: int) -> bool {
    exists|k: int|
        0 <= k < i && ref_name_of((#[trigger] updates[k]).branch@) == ref_name_of(
            updates[i].branch@,
        )
}

/// Whether the update at `i` can be made, given those ahead of it.
pub open spec fn can_update(updates: Seq<HeadUpdate>, i: int) -> bool {
    ref_name_valid(ref_name_of(updates[i].branch@)) && !is_duplicate(updates, i)
}

/// Whether the update at `i` is the first that cannot be made.
pub open spec fn is_first_refused(updates: Seq<HeadUpdate>, i: int) -> bool {
    &&& 0 <= i < updates.len()
    &&& !can_update(updates, i)
    &&& forall|k: int| 0 <= k < i ==> #[trigger] can_update(updates, k)
}

/// Whether `edit` makes the update.
pub open spec fn makes_update(edit: RefEdit, update: HeadUpdate) -> bool {
    &&& edit.name@ == ref_name_of(update.branch@)
    &&& edit.target == update.head
    &&& edit.log_message@ == "Update head of branch "@ + short_name_of(update.branch@) + " to "@
        + update.head.hex_text()
}

/// Plans the updates of several branch heads, all in one transaction. Refuses an invalid branch
/// name and a branch that is named twice.
pub fn update_heads(updates: &Vec<HeadUpdate>) -> (r: Result<Vec<RefEdit>, UpdateError>)
    ensures
        match r {
            Ok(edits) => {
                &&& forall|i: int| 0 <= i < updates@.len() ==> #[trigger] can_update(updates@, i)
                &&& edits@.len() == updates@.len()
                &&& forall|i: int|
                    0 <= i < edits@.len() ==> makes_update(#[trigger] edits@[i], updates@[i])
            },
            Err(UpdateError::InvalidBranchName(name)) => exists|i: int| #[trigger]
                is_first_refused(updates@, i) && !ref_name_valid(ref_name_of(updates@[i].branch@))
                    && name@ == short_name_of(updates@[i].branch@),
            Err(UpdateError::DuplicateUpdate(name)) => exists|i: int| #[trigger]
                is_first_refused(updates@, i) && ref_name_valid(ref_name_of(updates@[i].branch@))
                    && name@ == short_name_of(updates@[i].branch@),
        },
{
    let mut names: SortedSet<String> = SortedSet::new();
    let mut edits: Vec<RefEdit> = Vec::new();
    for i in 0..updates.len()
        invariant
            names.wf(),
            forall|name: Seq<char>| #[trigger]
                names@.contains(name) <==> exists|k: int|
                    0 <= k < i && ref_name_of((#[trigger] updates@[k]).branch@) == name,
            forall|k: int| 0 <= k < i ==> #[trigger] can_update(updates@, k),
            edits@.len() == i,
            forall|k: int| 0 <= k < i ==> makes_update(#[trigger] edits@[k], updates@[k]),
    {
        let update = &updates[i];
        let ref_name = update.branch.ref_name();
        if !is_valid_ref_name(ref_name.as_str()) {
            assert(is_first_refused(updates@, i as int));
            return Err(UpdateError::InvalidBranchName(update.branch.short_name()));
        }
        let ghost before = names@;
        let ghost name = ref_name@;
        let added = names.insert(ref_name.clone());
        if !added {
            assert(is_duplicate(updates@, i as int));
            assert(is_first_refused(updates@, i as int));
            return Err(UpdateError::DuplicateUpdate(update.branch.short_name()));
        }
        assert(!is_duplicate(updates@, i as int)) by {
            assert(!before.contains(name));
        }
        assert(can_update(updates@, i as int));
        assert forall|n: Seq<char>| #[trigger]
            names@.contains(n) <==> exists|k: int|
                0 <= k < i + 1 && ref_name_of((#[trigger] updates@[k]).branch@) == n by {
            assert(names@ == before.insert(name));
            if before.contains(n) {
                let k = choose|k: int|
                    0 <= k < i && ref_name_of((#[trigger] updates@[k]).branch@) == n;
                assert(0 <= k < i + 1 && ref_name_of(updates@[k].branch@) == n);
            }
            if n == name {
                assert(0 <= i < i + 1 && ref_name_of(updates@[i as int].branch@) == n);
            }
        }
        let mut log_message = "Update head of branch ".to_owned();
        log_message.append(update.branch.short_name().as_str());
        log_message.append(" to ");
        log_message.append(update.head.hex().as_str());
        edits.push(RefEdit { name: ref_name, target: update.head, log_message });
    }
    Ok(edits)
}

// ----------------------------------------------------------------------------
// Commits
// ----------------------------------------------------------------------------

/// A list without the items that equal the one right ahead of them.
pub open spec fn deduped(list: Seq<(u64, u64, u32)>) -> Seq<(u64, u64, u32)>
    decreases list.len(),
{
    if list.len() <= 1 {
        list
    } else if list.last() == list[list.len() - 2] {
        deduped(list.drop_last())
    } else {
        deduped(list.drop_last()).push(list.last())
    }
}

/// Drops repetitions with `smallvec::SmallVec::dedup`, which keeps one of each run of equal
/// items.
#[verifier::external_body]
fn dedup(list: Vec<(u64, u64, u32)>) -> (r: Vec<(u64, u64, u32)>)
    ensures
        r@ == deduped(list@),
{
    let mut small: smallvec::SmallVec<[(u64, u64, u32); 1]> = smallvec::SmallVec::from_vec(list);
    small.dedup();
    small.into_vec()
}

/// The parents of a commit that has these two heads.
pub open spec fn parents_of(topic: Option<ObjectId>, system: Option<ObjectId>) -> Seq<ObjectId> {
    match (topic, system) {
        (Some(topic), Some(system)) => if topic == system {
            seq![topic]
        } else {
            seq![topic, system]
        },
        (Some(topic), None) => seq![topic],
        (None, Some(system)) => seq![system],
        (None, None) => Seq::empty(),
    }
}

/// The parents of a new commit of a topic: the head of the topic and the head of this host,
/// where they are there, and once where they are the same.
pub fn topic_commit_parents(topic: Option<ObjectId>, system: Option<ObjectId>) -> (r: Vec<ObjectId>)
    ensures
        r@ == parents_of(topic, system),
{
    let mut heads: Vec<(u64, u64, u32)> = Vec::new();
    if let Some(id) = topic {
        heads.push((id.hi, id.mid, id.lo));
    }
    if let Some(id) = system {
        heads.push((id.hi, id.mid, id.lo));
    }
    let ghost all = heads@;
    let parents = dedup(heads);
    proof {
        reveal_with_fuel(deduped, 3);
        assert(all.len() == 2 ==> all.drop_last() =~= seq![all[0]]);
    }
    let mut out: Vec<ObjectId> = Vec::new();
    for i in 0..parents.len()
        invariant
            out@.len() == i,
            forall|k: int|
                0 <= k < i ==> (#[trigger] out@[k]).hi == parents@[k].0 && out@[k].mid
                    == parents@[k].1 && out@[k].lo == parents@[k].2,
    {
        out.push(ObjectId { hi: parents[i].0, mid: parents[i].1, lo: parents[i].2 });
    }
    assert(out@ =~= parents_of(topic, system));
    out
}

// ----------------------------------------------------------------------------
// Laws
// ----------------------------------------------------------------------------

/// A transaction never edits one reference twice.
pub proof fn law_edits_name_distinct_refs(updates: Seq<HeadUpdate>, edits: Seq<RefEdit>)
    requires
        edits.len() == updates.len(),
        forall|i: int| 0 <= i < updates.len() ==> #[trigger] can_update(updates, i),
        forall|i: int| 0 <= i < edits.len() ==> makes_update(#[trigger] edits[i], updates[i]),
    ensures
        forall|i: int, j: int|
            0 <= i < j < edits.len() ==> (#[trigger] edits[i]).name@ != (
            #[trigger] edits[j]).name@,
{
    assert forall|i: int, j: int| 0 <= i < j < edits.len() implies (#[trigger] edits[i]).name@ != (
    #[trigger] edits[j]).name@ by {
        assert(can_update(updates, j));
        if edits[i].name@ == edits[j].name@ {
            assert(ref_name_of(updates[i].branch@) == ref_name_of(updates[j].branch@));
            assert(is_duplicate(updates, j));
        }
    }
}

/// A commit of a topic never names one parent twice.
pub proof fn law_parents_differ(topic: Option<ObjectId>, system: Option<ObjectId>)
    ensures
        parents_of(topic, system).no_duplicates(),
{
}

/// Whether a list of edits moves the ref of this name to `head`, and does so once.
pub open spec fn is_moved_once(edits: Seq<RefEdit>, name: Seq<char>, head: ObjectId) -> bool {
    exists|i: int|
        0 <= i < edits.len() && (#[trigger] edits[i]).name@ == name && edits[i].target == head
            && forall|k: int| 0 <= k < edits.len() && (#[trigger] edits[k]).name@ == name ==> k == i
}

/// Every update is made: the ref of its branch is moved to its head, once, and there are no other
/// edits. All of them are refused exactly where one names a branch that is not valid, or one that
/// is named already.
pub proof fn law_every_head_is_updated(
    updates: Vec<HeadUpdate>,
    outcome: Result<Vec<RefEdit>, UpdateError>,
    i: int,
)
    requires
        call_ensures(update_heads, (&updates,), outcome),
        0 <= i < updates@.len(),
    ensures
        outcome is Ok ==> is_moved_once(
            outcome->Ok_0@,
            "refs/heads/"@ + short_name_of(updates@[i].branch@),
            updates@[i].head,
        ),
        outcome is Ok ==> outcome->Ok_0@.len() == updates@.len(),
        !ref_name_valid("refs/heads/"@ + short_name_of(updates@[i].branch@)) ==> outcome is Err,
        forall|k: int|
            0 <= k < i && short_name_of((#[trigger] updates@[k]).branch@) == short_name_of(
                updates@[i].branch@,
            ) ==> outcome is Err,
        (forall|k: int|
            0 <= k < updates@.len() ==> ref_name_valid(
                "refs/heads/"@ + short_name_of((#[trigger] updates@[k]).branch@),
            )) && (forall|k: int, m: int|
            0 <= k < m < updates@.len() ==> short_name_of((#[trigger] updates@[k]).branch@)
                != short_name_of((#[trigger] updates@[m]).branch@)) ==> outcome is Ok,
{
    let all = updates@;
    let prefix = "refs/heads/"@;
    if let Ok(edits) = outcome {
        let name = "refs/heads/"@ + short_name_of(all[i].branch@);
        assert(can_update(all, i));
        assert(makes_update(edits@[i], all[i]));
        law_edits_name_distinct_refs(all, edits@);
        assert forall|k: int| 0 <= k < edits@.len() && (#[trigger] edits@[k]).name@ == name implies k
            == i by {
            if k < i {
                assert(edits@[k].name@ != edits@[i].name@);
            } else if i < k {
                assert(edits@[i].name@ != edits@[k].name@);
            }
        }
        assert forall|k: int|
            0 <= k < i implies short_name_of((#[trigger] all[k]).branch@) != short_name_of(
            all[i].branch@,
        ) by {
            if short_name_of(all[k].branch@) == short_name_of(all[i].branch@) {
                assert(ref_name_of(all[k].branch@) == ref_name_of(all[i].branch@));
                assert(is_duplicate(all, i));
            }
        }
    } else {
        let j = choose|j: int| is_first_refused(all, j);
        if is_duplicate(all, j) {
            let k = choose|k: int|
                0 <= k < j && ref_name_of((#[trigger] all[k]).branch@) == ref_name_of(
                    all[j].branch@,
                );
            let a = short_name_of(all[k].branch@);
            let b = short_name_of(all[j].branch@);
            assert((prefix + a).skip(prefix.len() as int) =~= a);
            assert((prefix + b).skip(prefix.len() as int) =~= b);
        }
    }
}

/// The parents of a commit are exactly the heads that are there, and that of the topic comes
/// first.
pub proof fn law_parents_are_the_heads(
    topic: Option<ObjectId>,
    system: Option<ObjectId>,
    parents: Vec<ObjectId>,
    id: ObjectId,
)
    requires
        call_ensures(topic_commit_parents, (topic, system), parents),
    ensures
        parents@.contains(id) <==> topic == Some(id) || system == Some(id),
        topic is Some ==> parents@[0] == topic->Some_0,
        parents@.no_duplicates(),
{
    let list = parents@;
    if topic == Some(id) {
        assert(list[0] == id);
    }
    if system == Some(id) && topic != Some(id) {
        assert(list[list.len() - 1] == id);
    }
}

} // verus!
