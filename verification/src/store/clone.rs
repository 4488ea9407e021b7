//! How a store is cloned: what becomes a local head, and what is done when a step fails.

use vstd::prelude::*;

use crate::object::ObjectId;
use crate::store::branch::{
    law_parsed_name_is_the_short_name, law_short_name_parses_back, parsed, short_name_of, Branch,
    BranchView,
};
use crate::store::heads::HeadUpdate;
use crate::text::strip_front;

verus! {

/// A reference that was fetched from the origin: its full name, or why that is no text, and the
/// object that it points to, where it points to one.
#[derive(Debug)]
pub struct FetchedRef {
    pub name: Result<String, String>,
    pub target: Option<ObjectId>,
}

/// Why a fetched reference cannot become a local head.
#[derive(Debug)]
pub enum CloneError {
    UnreadableName(String),
    OutsideOrigin,
    NoObject,
}

impl CloneError {
    /// The text of the error.
    pub open spec fn text(&self) -> Seq<char> {
        match self {
            CloneError::UnreadableName(reason) => reason@,
            CloneError::OutsideOrigin => "Fetched reference is outside the origin namespace"@,
            CloneError::NoObject => "Fetched reference does not point to an object id"@,
        }
    }

    /// The text of the error.
    pub fn message(&self) -> (r: String)
        ensures
            r@ == self.text(),
    {
        match self {
            CloneError::UnreadableName(reason) => reason.clone(),
            CloneError::OutsideOrigin =>
                "Fetched reference is outside the origin namespace".to_owned(),
            CloneError::NoObject => "Fetched reference does not point to an object id".to_owned(),
        }
    }
}

/// What a fetched reference comes to.
pub enum RefOutcome {
    Head(BranchView, ObjectId),
    Skipped,
    Unreadable(Seq<char>),
    OutsideOrigin,
    NoObject,
}

/// What a fetched reference comes to: only the manifest and the topics become local heads.
pub open spec fn ref_outcome(reference: FetchedRef) -> RefOutcome {
    match reference.name {
        Err(reason) => RefOutcome::Unreadable(reason@),
        Ok(name) => {
            let prefix = "refs/remotes/origin/"@;
            if !prefix.is_prefix_of(name@) {
                RefOutcome::OutsideOrigin
            } else {
                match parsed(name@.skip(prefix.len() as int)) {
                    Some(branch) => if branch is System {
                        RefOutcome::Skipped
                    } else {
                        match reference.target {
                            Some(head) => RefOutcome::Head(branch, head),
                            None => RefOutcome::NoObject,
                        }
                    },
                    None => RefOutcome::Skipped,
                }
            }
        },
    }
}

/// Whether a fetched reference stops the clone.
pub open spec fn is_bad_ref(reference: FetchedRef) -> bool {
    !(ref_outcome(reference) is Head) && !(ref_outcome(reference) is Skipped)
}

/// The local heads that the references come to, in order.
pub open spec fn heads_of(refs: Seq<FetchedRef>) -> Seq<(BranchView, ObjectId)>
    decreases refs.len(),
{
    if refs.len() == 0 {
        Seq::empty()
    } else {
        let before = heads_of(refs.drop_last());
        match ref_outcome(refs.last()) {
            RefOutcome::Head(branch, head) => before.push((branch, head)),
            _ => before,
        }
    }
}

/// The values of a list of updates.
pub open spec fn update_views(updates: Seq<HeadUpdate>) -> Seq<(BranchView, ObjectId)> {
    updates.map_values(|u: HeadUpdate| (u.branch@, u.head))
}

/// Whether the reference at `i` is the first that stops the clone.
pub open spec fn is_first_bad_ref(refs: Seq<FetchedRef>, i: int) -> bool {
    &&& 0 <= i < refs.len()
    &&& is_bad_ref(refs[i])
    &&& forall|k: int| 0 <= k < i ==> !is_bad_ref(#[trigger] refs[k])
}

/// Whether `error` is what stops the clone at a reference.
pub open spec fn is_error_of(error: CloneError, reference: FetchedRef) -> bool {
    match error {
        CloneError::UnreadableName(reason) => ref_outcome(reference) == RefOutcome::Unreadable(
            reason@,
        ),
        CloneError::OutsideOrigin => ref_outcome(reference) is OutsideOrigin,
        CloneError::NoObject => ref_outcome(reference) is NoObject,
    }
}

/// The local heads that fetched references become.
pub fn bootstrap_heads(refs: &Vec<FetchedRef>) -> (r: Result<Vec<HeadUpdate>, CloneError>)
    ensures
        match r {
            Ok(updates) => {
                &&& forall|i: int| 0 <= i < refs@.len() ==> !is_bad_ref(#[trigger] refs@[i])
                &&& update_views(updates@) == heads_of(refs@)
            },
            Err(error) => exists|i: int| #[trigger]
                is_first_bad_ref(refs@, i) && is_error_of(error, refs@[i]),
        },
{
    let mut updates: Vec<HeadUpdate> = Vec::new();
    assert(refs@.take(0) =~= Seq::<FetchedRef>::empty());
    assert(update_views(updates@) =~= heads_of(refs@.take(0)));
    for i in 0..refs.len()
        invariant
            forall|k: int| 0 <= k < i ==> !is_bad_ref(#[trigger] refs@[k]),
            update_views(updates@) == heads_of(refs@.take(i as int)),
    {
        assert(refs@.take(i + 1).drop_last() =~= refs@.take(i as int));
        let reference = &refs[i];
        let name = match &reference.name {
            Ok(name) => name,
            Err(reason) => {
                assert(is_first_bad_ref(refs@, i as int));
                return Err(CloneError::UnreadableName(reason.clone()));
            },
        };
        let short_name = match strip_front(name.as_str(), "refs/remotes/origin/") {
            Some(short_name) => short_name,
            None => {
                assert(is_first_bad_ref(refs@, i as int));
                return Err(CloneError::OutsideOrigin);
            },
        };
        match Branch::parse(short_name) {
            Some(branch) => {
                let shared = match &branch {
                    Branch::System { hostname: _, topic: _ } => false,
                    _ => true,
                };
                if shared {
                    match reference.target {
                        Some(head) => {
                            let ghost before = updates@;
                            let update = HeadUpdate { branch, head };
                            updates.push(update);
                            assert(update_views(updates@) =~= update_views(before).push(
                                (update.branch@, head),
                            ));
                        },
                        None => {
                            assert(is_first_bad_ref(refs@, i as int));
                            return Err(CloneError::NoObject);
                        },
                    }
                }
            },
            None => {},
        }
    }
    assert(refs@.take(refs@.len() as int) =~= refs@);
    Ok(updates)
}

// ----------------------------------------------------------------------------
// The steps of a clone
// ----------------------------------------------------------------------------

/// What a clone waits for.
#[derive(Debug, Clone, Copy, PartialEq, Eq, Structural)]
pub enum CloneStage {
    Checking,
    Locking,
    Initializing,
    AddingOrigin,
    Fetching,
    Listing,
    Updating,
    CleaningUp,
    Ended,
}

/// What came of the last action of a clone.
#[derive(Debug)]
pub enum CloneEvent {
    /// Whether the destination is there already.
    Exists(bool),
    /// The action succeeded.
    Done,
    /// The action failed.
    Failed,
    /// The references of the origin were read.
    Refs(Vec<FetchedRef>),
}

/// What a clone does next.
#[derive(Debug)]
pub enum CloneAction {
    /// End: the destination is there already.
    Refuse,
    /// Take the lock of the store.
    Lock,
    /// Create an empty repository.
    Init,
    /// Add the remote `origin`.
    AddOrigin,
    /// Fetch from `origin`.
    Fetch,
    /// Read the references of `origin`.
    ListRefs,
    /// Make these the local heads.
    UpdateHeads(Vec<HeadUpdate>),
    /// Remove what is there of the destination. The error is what stopped the clone, where no
    /// action failed.
    RemoveDestination(Option<CloneError>),
    /// End with the error that stopped the clone.
    Report,
    /// End: the destination could not be removed.
    ReportCleanup,
    /// End: the store is cloned.
    Finish,
}

/// What an event says of the last action.
pub enum CloneOutcome {
    Exists,
    Good,
    Bad,
}

/// Whether `event` can follow the action of `stage`.
pub open spec fn clone_event_fits(stage: CloneStage, event: CloneEvent) -> bool {
    match event {
        CloneEvent::Exists(_) => stage == CloneStage::Checking,
        CloneEvent::Done => stage != CloneStage::Checking && stage != CloneStage::Listing && stage
            != CloneStage::Ended,
        CloneEvent::Failed => stage != CloneStage::Checking && stage != CloneStage::Ended,
        CloneEvent::Refs(_) => stage == CloneStage::Listing,
    }
}

/// What an event says of the last action. References of which one cannot become a head are as
/// bad as references that cannot be read.
pub open spec fn clone_outcome(event: CloneEvent) -> CloneOutcome {
    match event {
        CloneEvent::Exists(true) => CloneOutcome::Exists,
        CloneEvent::Exists(false) | CloneEvent::Done => CloneOutcome::Good,
        CloneEvent::Failed => CloneOutcome::Bad,
        CloneEvent::Refs(refs) => if exists|i: int| is_first_bad_ref(refs@, i) {
            CloneOutcome::Bad
        } else {
            CloneOutcome::Good
        },
    }
}

/// The stage that follows.
pub open spec fn next_clone_stage(stage: CloneStage, outcome: CloneOutcome) -> CloneStage {
    match (stage, outcome) {
        (CloneStage::Checking, CloneOutcome::Good) => CloneStage::Locking,
        (CloneStage::Locking, CloneOutcome::Good) => CloneStage::Initializing,
        (CloneStage::Initializing, CloneOutcome::Good) => CloneStage::AddingOrigin,
        (CloneStage::AddingOrigin, CloneOutcome::Good) => CloneStage::Fetching,
        (CloneStage::Fetching, CloneOutcome::Good) => CloneStage::Listing,
        (CloneStage::Listing, CloneOutcome::Good) => CloneStage::Updating,
        (CloneStage::Initializing, CloneOutcome::Bad)
        | (CloneStage::AddingOrigin, CloneOutcome::Bad)
        | (CloneStage::Fetching, CloneOutcome::Bad)
        | (CloneStage::Listing, CloneOutcome::Bad)
        | (CloneStage::Updating, CloneOutcome::Bad) => CloneStage::CleaningUp,
        _ => CloneStage::Ended,
    }
}

/// Whether `action` is what the step from `stage` to `next` does.
pub open spec fn is_clone_action(
    stage: CloneStage,
    event: CloneEvent,
    next: CloneStage,
    action: CloneAction,
) -> bool {
    match next {
        CloneStage::Checking => false,
        CloneStage::Locking => action is Lock,
        CloneStage::Initializing => action is Init,
        CloneStage::AddingOrigin => action is AddOrigin,
        CloneStage::Fetching => action is Fetch,
        CloneStage::Listing => action is ListRefs,
        CloneStage::Updating => event matches CloneEvent::Refs(refs)
            && action matches CloneAction::UpdateHeads(updates)
            && update_views(updates@) == heads_of(refs@),
        CloneStage::CleaningUp => action matches CloneAction::RemoveDestination(error) && match (
            event,
            error,
        ) {
            (CloneEvent::Refs(refs), Some(error)) => exists|i: int| #[trigger]
                is_first_bad_ref(refs@, i) && is_error_of(error, refs@[i]),
            (CloneEvent::Refs(_), None) => false,
            (_, error) => error is None,
        },
        CloneStage::Ended => match stage {
            CloneStage::Checking => action is Refuse,
            CloneStage::Updating => action is Finish,
            CloneStage::CleaningUp => if event is Done {
                action is Report
            } else {
                action is ReportCleanup
            },
            _ => action is Report,
        },
    }
}

/// One step of a clone: what it does next, and what it then waits for.
pub fn clone_step(stage: CloneStage, event: CloneEvent) -> (r: (CloneStage, CloneAction))
    requires
        clone_event_fits(stage, event),
    ensures
        r.0 == next_clone_stage(stage, clone_outcome(event)),
        is_clone_action(stage, event, r.0, r.1),
{
    match event {
        CloneEvent::Exists(true) => (CloneStage::Ended, CloneAction::Refuse),
        CloneEvent::Exists(false) => (CloneStage::Locking, CloneAction::Lock),
        CloneEvent::Done => match stage {
            CloneStage::Locking => (CloneStage::Initializing, CloneAction::Init),
            CloneStage::Initializing => (CloneStage::AddingOrigin, CloneAction::AddOrigin),
            CloneStage::AddingOrigin => (CloneStage::Fetching, CloneAction::Fetch),
            CloneStage::Fetching => (CloneStage::Listing, CloneAction::ListRefs),
            CloneStage::Updating => (CloneStage::Ended, CloneAction::Finish),
            _ => (CloneStage::Ended, CloneAction::Report),
        },
        CloneEvent::Failed => match stage {
            CloneStage::Locking => (CloneStage::Ended, CloneAction::Report),
            CloneStage::CleaningUp => (CloneStage::Ended, CloneAction::ReportCleanup),
            _ => (CloneStage::CleaningUp, CloneAction::RemoveDestination(None)),
        },
        CloneEvent::Refs(refs) => match bootstrap_heads(&refs) {
            Ok(updates) => (CloneStage::Updating, CloneAction::UpdateHeads(updates)),
            Err(error) => (CloneStage::CleaningUp, CloneAction::RemoveDestination(Some(error))),
        },
    }
}

/// What is said where the destination is there already.
pub fn already_exists_message(path: &str) -> (r: String)
    ensures
        r@ == "Porchetta store already exists at "@ + path@
            + "\nRemove it first or run `porchetta init` if this is a new machine."@,
{
    "Porchetta store already exists at ".to_owned().concat(path).concat(
        "\nRemove it first or run `porchetta init` if this is a new machine.",
    )
}

/// What is said where the destination cannot be removed.
pub fn cleanup_message(path: &str) -> (r: String)
    ensures
        r@ == "Failed to clean up incomplete clone destination '"@ + path@ + "'"@,
{
    "Failed to clean up incomplete clone destination '".to_owned().concat(path).concat("'")
}

// ----------------------------------------------------------------------------
// Laws
// ----------------------------------------------------------------------------

/// No system branch becomes a local head.
pub proof fn law_clone_takes_no_system_branch(refs: Seq<FetchedRef>, i: int)
    requires
        0 <= i < heads_of(refs).len(),
    ensures
        !(heads_of(refs)[i].0 is System),
    decreases refs.len(),
{
    if i < heads_of(refs.drop_last()).len() {
        law_clone_takes_no_system_branch(refs.drop_last(), i);
    }
}

/// A clone that fails once it has begun to write removes its destination before it reports the
/// failure.
pub proof fn law_failed_clone_cleans_up(
    stage: CloneStage,
    event: CloneEvent,
    next: CloneStage,
    action: CloneAction,
)
    requires
        clone_event_fits(stage, event),
        next == next_clone_stage(stage, clone_outcome(event)),
        is_clone_action(stage, event, next, action),
    ensures
        action is Report ==> stage == CloneStage::Locking || stage == CloneStage::CleaningUp,
        next == CloneStage::CleaningUp ==> action is RemoveDestination,
        action is Refuse ==> stage == CloneStage::Checking,
{
}

/// How far a clone has come.
pub open spec fn clone_progress(stage: CloneStage) -> nat {
    match stage {
        CloneStage::Checking => 0,
        CloneStage::Locking => 1,
        CloneStage::Initializing => 2,
        CloneStage::AddingOrigin => 3,
        CloneStage::Fetching => 4,
        CloneStage::Listing => 5,
        CloneStage::Updating => 6,
        CloneStage::CleaningUp => 7,
        CloneStage::Ended => 8,
    }
}

/// Every step brings a clone nearer to its end.
pub proof fn law_clone_comes_to_an_end(stage: CloneStage, outcome: CloneOutcome)
    requires
        stage != CloneStage::Ended,
    ensures
        clone_progress(stage) < clone_progress(next_clone_stage(stage, outcome)),
{
}

proof fn lemma_heads_join(a: Seq<FetchedRef>, b: Seq<FetchedRef>)
    ensures
        heads_of(a + b) == heads_of(a) + heads_of(b),
    decreases b.len(),
{
    if b.len() == 0 {
        assert(a + b =~= a);
        assert(heads_of(a) + heads_of(b) =~= heads_of(a));
    } else {
        lemma_heads_join(a, b.drop_last());
        assert((a + b).drop_last() =~= a + b.drop_last());
        assert((a + b).last() == b.last());
        assert(heads_of(a + b) =~= heads_of(a) + heads_of(b));
    }
}

/// Every branch of the origin that is shared becomes a local head, at the commit that was fetched:
/// the manifest and each topic. Nothing else does, and nothing else but an unreadable reference,
/// one of another place or one without a commit stops the clone.
pub proof fn law_shared_branches_become_heads(
    refs: Seq<FetchedRef>,
    i: int,
    branch: BranchView,
    head: ObjectId,
)
    requires
        0 <= i < refs.len(),
        refs[i].name is Ok,
    ensures
        refs[i].name->Ok_0@ == "refs/remotes/origin/"@ + short_name_of(branch) && !(
        branch is System) ==> match refs[i].target {
            Some(head) => !is_bad_ref(refs[i]) && heads_of(refs).contains((branch, head)),
            None => is_bad_ref(refs[i]),
        },
        !("refs/remotes/origin/"@.is_prefix_of(refs[i].name->Ok_0@)) ==> is_bad_ref(refs[i]),
        refs[i].name->Ok_0@ == "refs/remotes/origin/"@ + short_name_of(branch) && branch is System
            && !branch->hostname.contains('/') ==> !is_bad_ref(refs[i]) && heads_of(
            refs.take(i + 1),
        ) == heads_of(refs.take(i)),
        heads_of(refs).contains((branch, head)) && (branch matches BranchView::System {
            hostname,
            topic,
        } ==> !hostname.contains('/')) ==> exists|k: int|
            0 <= k < refs.len() && (#[trigger] refs[k]).target == Some(head) && refs[k].name is Ok
                && refs[k].name->Ok_0@ == "refs/remotes/origin/"@ + short_name_of(branch),
{
    let prefix = "refs/remotes/origin/"@;
    let name = refs[i].name->Ok_0@;
    assert(refs.take(i + 1).drop_last() =~= refs.take(i));
    if name == prefix + short_name_of(branch) {
        assert(name.take(prefix.len() as int) =~= prefix);
        assert(name.skip(prefix.len() as int) =~= short_name_of(branch));
        if !(branch is System) || !branch->hostname.contains('/') {
            law_short_name_parses_back(branch);
        }
        if let Some(head) = refs[i].target {
            if !(branch is System) {
                let before = heads_of(refs.take(i));
                assert(heads_of(refs.take(i + 1)) == before.push((branch, head)));
                lemma_heads_join(refs.take(i + 1), refs.skip(i + 1));
                assert(refs.take(i + 1) + refs.skip(i + 1) =~= refs);
                assert(heads_of(refs)[before.len() as int] == (branch, head));
            }
        }
    }
    if heads_of(refs).contains((branch, head)) {
        let k = lemma_head_origin(refs, branch, head);
    }
}

proof fn lemma_head_origin(refs: Seq<FetchedRef>, branch: BranchView, head: ObjectId) -> (k: int)
    requires
        heads_of(refs).contains((branch, head)),
    ensures
        0 <= k < refs.len(),
        refs[k].target == Some(head),
        refs[k].name is Ok,
        refs[k].name->Ok_0@ == "refs/remotes/origin/"@ + short_name_of(branch),
    decreases refs.len(),
{
    let before = heads_of(refs.drop_last());
    if before.contains((branch, head)) {
        lemma_head_origin(refs.drop_last(), branch, head)
    } else {
        let at = choose|at: int| 0 <= at < heads_of(refs).len() && heads_of(refs)[at] == (branch, head);
        if at < before.len() {
            assert(before[at] == (branch, head));
        }
        assert(ref_outcome(refs.last()) == RefOutcome::Head(branch, head));
        let prefix = "refs/remotes/origin/"@;
        let name = refs.last().name->Ok_0@;
        let short = name.skip(prefix.len() as int);
        law_parsed_name_is_the_short_name(short);
        assert(name =~= prefix + short);
        refs.len() - 1
    }
}

/// Whether these are the stages, the events and the actions of a clone from its start on.
pub open spec fn is_clone_run(
    stages: Seq<CloneStage>,
    events: Seq<CloneEvent>,
    actions: Seq<CloneAction>,
) -> bool {
    &&& stages.len() == events.len() + 1
    &&& actions.len() == events.len()
    &&& stages[0] == CloneStage::Checking
    &&& forall|k: int|
        0 <= k < events.len() ==> clone_event_fits(stages[k], #[trigger] events[k]) && call_ensures(
            clone_step,
            (stages[k], events[k]),
            (stages[k + 1], actions[k]),
        )
}

proof fn lemma_clone_step(
    stages: Seq<CloneStage>,
    events: Seq<CloneEvent>,
    actions: Seq<CloneAction>,
    k: int,
)
    requires
        is_clone_run(stages, events, actions),
        0 <= k < events.len(),
    ensures
        clone_event_fits(stages[k], events[k]),
        stages[k + 1] == next_clone_stage(stages[k], clone_outcome(events[k])),
        is_clone_action(stages[k], events[k], stages[k + 1], actions[k]),
{
}

/// A clone that finishes has done everything, in order, and all of it succeeded: the destination
/// was not there, the lock was taken, the repository created, the origin added and fetched from,
/// and its references read and made the local heads.
pub proof fn law_finished_clone_did_all(
    stages: Seq<CloneStage>,
    events: Seq<CloneEvent>,
    actions: Seq<CloneAction>,
    n: int,
)
    requires
        is_clone_run(stages, events, actions),
        0 <= n < actions.len(),
        actions[n] is Finish,
    ensures
        n == 6,
        events[0] == CloneEvent::Exists(false),
        actions[0] is Lock,
        events[1] is Done,
        actions[1] is Init,
        events[2] is Done,
        actions[2] is AddOrigin,
        events[3] is Done,
        actions[3] is Fetch,
        events[4] is Done,
        actions[4] is ListRefs,
        events[5] is Refs,
        actions[5] is UpdateHeads,
        update_views(actions[5]->UpdateHeads_0@) == heads_of(events[5]->Refs_0@),
        events[6] is Done,
{
    lemma_clone_step(stages, events, actions, n);
    assert(stages[n] == CloneStage::Updating);
    lemma_clone_step(stages, events, actions, n - 1);
    assert(stages[n - 1] == CloneStage::Listing);
    lemma_clone_step(stages, events, actions, n - 2);
    assert(stages[n - 2] == CloneStage::Fetching);
    lemma_clone_step(stages, events, actions, n - 3);
    assert(stages[n - 3] == CloneStage::AddingOrigin);
    lemma_clone_step(stages, events, actions, n - 4);
    assert(stages[n - 4] == CloneStage::Initializing);
    lemma_clone_step(stages, events, actions, n - 5);
    assert(stages[n - 5] == CloneStage::Locking);
    lemma_clone_step(stages, events, actions, n - 6);
    assert(stages[n - 6] == CloneStage::Checking);
    if n > 6 {
        lemma_clone_step(stages, events, actions, n - 7);
    }
}

/// A clone goes on as long as all goes well, and ends where it does not: a destination that is
/// there is left alone, a store that is in use too, and whatever fails after that has the
/// destination removed, which is then reported.
pub proof fn law_clone_goes_on_while_all_is_well(
    stage: CloneStage,
    event: CloneEvent,
    result: (CloneStage, CloneAction),
)
    requires
        clone_event_fits(stage, event),
        call_ensures(clone_step, (stage, event), result),
    ensures
        event == CloneEvent::Exists(true) ==> result.1 is Refuse,
        event == CloneEvent::Exists(false) || event is Done && stage != CloneStage::CleaningUp ==> !(
        result.1 is Refuse || result.1 is Report || result.1 is ReportCleanup
            || result.1 is RemoveDestination),
        event is Failed && stage == CloneStage::Locking ==> result.1 is Report,
        event is Failed && stage != CloneStage::Locking && stage != CloneStage::CleaningUp
            ==> result == (CloneStage::CleaningUp, CloneAction::RemoveDestination(None)),
        event is Failed && stage == CloneStage::CleaningUp ==> result.1 is ReportCleanup,
        event is Done && stage == CloneStage::CleaningUp ==> result.1 is Report,
        event matches CloneEvent::Refs(refs) ==> (result.1 is UpdateHeads <==> forall|i: int|
            0 <= i < refs@.len() ==> !is_bad_ref(#[trigger] refs@[i])),
        event is Refs && !(result.1 is UpdateHeads) ==> result.1 is RemoveDestination
            && result.1->RemoveDestination_0 is Some,
        result.1 is UpdateHeads ==> result.0 == CloneStage::Updating,
{
    if let CloneEvent::Refs(refs) = event {
        if exists|i: int| 0 <= i < refs@.len() && is_bad_ref(#[trigger] refs@[i]) {
            let i = choose|i: int| 0 <= i < refs@.len() && is_bad_ref(#[trigger] refs@[i]);
            lemma_first_bad(refs@, i);
        }
    }
}

proof fn lemma_first_bad(refs: Seq<FetchedRef>, i: int)
    requires
        0 <= i < refs.len(),
        is_bad_ref(refs[i]),
    ensures
        exists|k: int| is_first_bad_ref(refs, k),
    decreases i,
{
    if exists|k: int| 0 <= k < i && is_bad_ref(#[trigger] refs[k]) {
        let k = choose|k: int| 0 <= k < i && is_bad_ref(#[trigger] refs[k]);
        lemma_first_bad(refs, k);
    } else {
        assert(is_first_bad_ref(refs, i));
    }
}

/// The heads of a clone are those of the shared branches that were fetched, unless one of the
/// references stops it.
pub proof fn law_fetched_heads_become_local(
    refs: Vec<FetchedRef>,
    r: Result<Vec<HeadUpdate>, CloneError>,
    i: int,
    branch: BranchView,
    head: ObjectId,
)
    requires
        call_ensures(bootstrap_heads, (&refs,), r),
        0 <= i < refs@.len(),
        refs@[i].name is Ok,
        refs@[i].target == Some(head),
        refs@[i].name->Ok_0@ == "refs/remotes/origin/"@ + short_name_of(branch),
        !(branch is System),
        r is Ok,
    ensures
        exists|k: int|
            0 <= k < r->Ok_0@.len() && (#[trigger] r->Ok_0@[k]).branch@ == branch && r->Ok_0@[k].head
                == head,
{
    law_shared_branches_become_heads(refs@, i, branch, head);
    let updates = r->Ok_0@;
    let k = choose|k: int|
        0 <= k < update_views(updates).len() && update_views(updates)[k] == (branch, head);
    assert(updates[k].branch@ == branch);
}

/// A clone that a reference stops says why: its name cannot be read, it is not one of the origin,
/// or it is a shared branch without a commit.
pub proof fn law_clone_errors_say_why(reference: FetchedRef, error: CloneError)
    requires
        is_error_of(error, reference),
    ensures
        error matches CloneError::UnreadableName(reason) ==> reference.name is Err
            && reference.name->Err_0@ == reason@,
        error is OutsideOrigin ==> reference.name is Ok && !"refs/remotes/origin/"@.is_prefix_of(
            reference.name->Ok_0@,
        ),
        error is NoObject ==> reference.name is Ok && "refs/remotes/origin/"@.is_prefix_of(
            reference.name->Ok_0@,
        ) && reference.target is None,
        reference.name is Err ==> error is UnreadableName,
{
}

} // verus!
